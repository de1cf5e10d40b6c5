//! The declarative plugin system: manifests, their validation, the registry of installed
//! plugins and the node authorizations handed to the blueprint runtime.

use crate::paths::{
    is_rooted, loose_climbs, loose_path, path_has_parent_component, path_is_absolute,
    relative_path, single_name, slash_pieces,
};
use crate::text::{
    chars_eq, chars_of, clone_string, is_blank, seq_lt, str_eq, str_is_blank, str_lt,
    string_from_chars, to_owned_string,
};
use vstd::prelude::*;

verus! {

broadcast use vstd::string::group_string_axioms;

/// The marker every `plugin.json` must carry.
pub const PLUGIN_MAGIC: &'static str = "SLIDE2D_PLUGIN_SYSTEM";

/// Stable id of the official item pickup plugin.
pub const OFFICIAL_PICKUP_PLUGIN_ID: &'static str = "slide2d.official.pickup";

/// The category of a plugin node in the blueprint editor.
#[derive(Clone, Copy, PartialEq, Eq, Structural, Debug, Hash)]
pub enum PluginNodeCategory {
    Event,
    Logic,
    Action,
    Variable,
}

/// The whitelisted runtime behaviors a plugin node can choose from.
#[derive(Clone, Copy, PartialEq, Eq, Structural, Debug, Hash)]
pub enum PluginBehavior {
    /// Plugin event raised once the scene has loaded.
    SceneLoadedEvent,
    /// Plugin event raised when the owning object is clicked.
    ObjectClickedEvent,
    /// Branches on whether the owning actor was picked up (clicked) this frame.
    PickupCheck,
    /// Writes a fixed value into an actor variable.
    SetObjectVariable,
    /// Writes a fixed value into a global variable.
    SetGlobalVariable,
    /// Moves the owning actor horizontally at a fixed speed.
    MoveHorizontal,
    /// Declares and initializes an actor number variable.
    NumberVariable,
}

impl PluginBehavior {
    /// The name of the behavior as its debug form prints it.
    pub open spec fn name_text(self) -> Seq<char> {
        match self {
            PluginBehavior::SceneLoadedEvent => "SceneLoadedEvent"@,
            PluginBehavior::ObjectClickedEvent => "ObjectClickedEvent"@,
            PluginBehavior::PickupCheck => "PickupCheck"@,
            PluginBehavior::SetObjectVariable => "SetObjectVariable"@,
            PluginBehavior::SetGlobalVariable => "SetGlobalVariable"@,
            PluginBehavior::MoveHorizontal => "MoveHorizontal"@,
            PluginBehavior::NumberVariable => "NumberVariable"@,
        }
    }

    /// Returns the name of the behavior as its debug form prints it.
    pub fn name(self) -> (r: &'static str)
        ensures
            r@ == self.name_text(),
    {
        match self {
            PluginBehavior::SceneLoadedEvent => "SceneLoadedEvent",
            PluginBehavior::ObjectClickedEvent => "ObjectClickedEvent",
            PluginBehavior::PickupCheck => "PickupCheck",
            PluginBehavior::SetObjectVariable => "SetObjectVariable",
            PluginBehavior::SetGlobalVariable => "SetGlobalVariable",
            PluginBehavior::MoveHorizontal => "MoveHorizontal",
            PluginBehavior::NumberVariable => "NumberVariable",
        }
    }
}

/// One blueprint node declared by a plugin. `value` holds the IEEE-754 bits of the node's
/// number parameter; the library never computes with it.
pub struct PluginNodeDefinition {
    pub node_type: String,
    pub display_name: String,
    pub description: String,
    pub category: PluginNodeCategory,
    pub behavior: PluginBehavior,
    pub variable_name: String,
    pub value: u32,
}

/// A custom resource type registered by a plugin.
pub struct PluginResourceDefinition {
    pub display_name: String,
    pub folder: String,
    pub extensions: Vec<String>,
}

/// A declarative editor tool registered by a plugin.
pub struct PluginEditorToolDefinition {
    pub tool_id: String,
    pub display_name: String,
    pub description: String,
}

/// The complete content of a plugin folder's `plugin.json`.
pub struct PluginManifest {
    pub slide2d_plugin_system: String,
    pub plugin_id: String,
    pub name: String,
    pub version: String,
    pub author: String,
    pub description: String,
    pub nodes: Vec<PluginNodeDefinition>,
    pub resources: Vec<PluginResourceDefinition>,
    pub editor_tools: Vec<PluginEditorToolDefinition>,
    pub runtime_capabilities: Vec<PluginBehavior>,
}

/// Concatenation of two texts.
fn concat2(a: &str, b: &str) -> (r: String)
    ensures
        r@ == a@ + b@,
{
    let mut v = chars_of(a);
    let w = chars_of(b);
    let mut i: usize = 0;
    let ghost start = v@;
    while i < w.len()
        invariant
            i <= w@.len(),
            v@ == start + w@.take(i as int),
        decreases w@.len() - i,
    {
        v.push(w[i]);
        assert(w@.take(i + 1) =~= w@.take(i as int).push(w@[i as int]));
        i = i + 1;
    }
    assert(w@.take(w@.len() as int) =~= w@);
    string_from_chars(&v)
}

/// Concatenation of three texts.
fn concat3(a: &str, b: &str, c: &str) -> (r: String)
    ensures
        r@ == a@ + b@ + c@,
{
    let ab = concat2(a, b);
    concat2(ab.as_str(), c)
}

/// Whether the `i`-th capability repeats an earlier one.
pub open spec fn repeats_at(caps: Seq<PluginBehavior>, i: int) -> bool {
    0 <= i < caps.len() && caps.take(i).contains(caps[i])
}

/// Index of the first capability that repeats an earlier one.
pub open spec fn first_repeated(caps: Seq<PluginBehavior>) -> Option<int> {
    if exists|i: int| #[trigger] repeats_at(caps, i) {
        Some(
            choose|i: int|
                #[trigger] repeats_at(caps, i) && forall|j: int| 0 <= j < i ==> !repeats_at(caps, j),
        )
    } else {
        None
    }
}

/// Why a node declaration is invalid, given the node types declared before it.
pub open spec fn node_problem(
    node_type: Seq<char>,
    behavior: PluginBehavior,
    earlier_types: Seq<Seq<char>>,
    caps: Seq<PluginBehavior>,
) -> Option<Seq<char>> {
    if is_blank(node_type) {
        Some("插件节点node_type不能为空"@)
    } else if earlier_types.contains(node_type) {
        Some("插件包含重复node_type："@ + node_type)
    } else if !caps.contains(behavior) {
        Some("插件节点"@ + node_type + "的behavior未列入runtime_capabilities"@)
    } else {
        None
    }
}

/// The node types of a manifest's nodes.
pub open spec fn node_types(nodes: Seq<PluginNodeDefinition>) -> Seq<Seq<char>> {
    nodes.map_values(|n: PluginNodeDefinition| n.node_type@)
}

/// The problem of the `i`-th node of a manifest.
pub open spec fn nth_node_problem(m: PluginManifest, i: int) -> Option<Seq<char>> {
    node_problem(
        m.nodes@[i].node_type@,
        m.nodes@[i].behavior,
        node_types(m.nodes@).take(i),
        m.runtime_capabilities@,
    )
}

/// The first error found among the node declarations, if any.
pub open spec fn nodes_error(m: PluginManifest) -> Option<Seq<char>> {
    if exists|i: int| 0 <= i < m.nodes@.len() && #[trigger] nth_node_problem(m, i) is Some {
        let i = choose|i: int|
            0 <= i < m.nodes@.len() && #[trigger] nth_node_problem(m, i) is Some && forall|j: int|
                0 <= j < i ==> nth_node_problem(m, j) is None;
        nth_node_problem(m, i)
    } else {
        None
    }
}

/// The first resource folder that was found unsafe, if any.
pub open spec fn resources_error(m: PluginManifest, unsafe_folders: Seq<bool>) -> Option<Seq<char>> {
    if exists|i: int| 0 <= i < m.resources@.len() && #[trigger] unsafe_folders[i] {
        let i = choose|i: int|
            0 <= i < m.resources@.len() && #[trigger] unsafe_folders[i] && forall|j: int|
                0 <= j < i ==> !unsafe_folders[j];
        Some("插件资源目录不安全："@ + m.resources@[i].folder@)
    } else {
        None
    }
}

/// The first validation error of a manifest, given which resource folders are unsafe
/// (absolute, or stepping into a parent directory).
pub open spec fn manifest_error(m: PluginManifest, unsafe_folders: Seq<bool>) -> Option<Seq<char>> {
    if m.slide2d_plugin_system@ != PLUGIN_MAGIC@ {
        Some("plugin.json缺少SLIDE2D_PLUGIN_SYSTEM标识"@)
    } else if is_blank(m.plugin_id@) || is_blank(m.name@) {
        Some("plugin.json缺少插件ID或名称"@)
    } else if first_repeated(m.runtime_capabilities@) is Some {
        Some(
            "插件包含重复Runtime能力："@ + m.runtime_capabilities@[first_repeated(
                m.runtime_capabilities@,
            ).unwrap()].name_text(),
        )
    } else if nodes_error(m) is Some {
        nodes_error(m)
    } else {
        resources_error(m, unsafe_folders)
    }
}

/// What an acceptable manifest is: the plugin-system marker, a non-blank id and name,
/// capabilities without repeats, nodes with non-blank, distinct node types whose behaviors
/// are declared capabilities, and no resource folder judged unsafe.
pub open spec fn manifest_acceptable(m: PluginManifest, unsafe_folders: Seq<bool>) -> bool {
    let caps = m.runtime_capabilities@;
    let nodes = m.nodes@;
    &&& m.slide2d_plugin_system@ == PLUGIN_MAGIC@
    &&& !is_blank(m.plugin_id@)
    &&& !is_blank(m.name@)
    &&& forall|i: int, j: int| 0 <= i < j < caps.len() ==> caps[i] != caps[j]
    &&& nodes_acceptable(m)
    &&& forall|i: int| 0 <= i < m.resources@.len() ==> !(#[trigger] unsafe_folders[i])
}

#[verifier::spinoff_prover]
#[verifier::rlimit(50)]
proof fn lemma_caps_distinct(caps: Seq<PluginBehavior>)
    ensures
        first_repeated(caps) is None <==> forall|i: int, j: int|
            0 <= i < j < caps.len() ==> caps[i] != caps[j],
{
    if first_repeated(caps) is None {
        assert forall|i: int, j: int| 0 <= i < j < caps.len() implies caps[i] != caps[j] by {
            if caps[i] == caps[j] {
                assert(caps.take(j)[i] == caps[j]);
                assert(repeats_at(caps, j));
            }
        }
    } else {
        let k = choose|i: int| #[trigger] repeats_at(caps, i);
        assert(repeats_at(caps, k));
        let t = choose|t: int| 0 <= t < caps.take(k).len() && caps.take(k)[t] == caps[k];
        assert(caps[t] == caps[k]);
    }
}

/// Whether the node declarations of a manifest are acceptable.
pub open spec fn nodes_acceptable(m: PluginManifest) -> bool {
    let nodes = m.nodes@;
    &&& forall|i: int| 0 <= i < nodes.len() ==> !is_blank((#[trigger] nodes[i]).node_type@)
    &&& forall|i: int, j: int|
        0 <= i < j < nodes.len() ==> (#[trigger] nodes[i]).node_type@ != (#[trigger] nodes[j]).node_type@
    &&& forall|i: int|
        0 <= i < nodes.len() ==> m.runtime_capabilities@.contains((#[trigger] nodes[i]).behavior)
}

proof fn lemma_node_fine(m: PluginManifest, j: int)
    requires
        0 <= j < m.nodes@.len(),
        nth_node_problem(m, j) is None,
    ensures
        !is_blank(m.nodes@[j].node_type@),
        m.runtime_capabilities@.contains(m.nodes@[j].behavior),
        forall|i: int| 0 <= i < j ==> m.nodes@[i].node_type@ != m.nodes@[j].node_type@,
{
    let types = node_types(m.nodes@);
    assert forall|i: int| 0 <= i < j implies m.nodes@[i].node_type@ != m.nodes@[j].node_type@ by {
        if m.nodes@[i].node_type@ == m.nodes@[j].node_type@ {
            assert(types.take(j)[i] == m.nodes@[i].node_type@);
            assert(types.take(j).contains(m.nodes@[j].node_type@));
        }
    }
}

/// A node with a problem has a first node with a problem at or before it.
proof fn lemma_first_node_problem(m: PluginManifest, j: int)
    requires
        0 <= j < m.nodes@.len(),
        nth_node_problem(m, j) is Some,
    ensures
        exists|i: int|
            0 <= i < m.nodes@.len() && #[trigger] nth_node_problem(m, i) is Some && forall|k: int|
                0 <= k < i ==> nth_node_problem(m, k) is None,
    decreases j,
{
    if exists|k: int| 0 <= k < j && #[trigger] nth_node_problem(m, k) is Some {
        let k = choose|k: int| 0 <= k < j && #[trigger] nth_node_problem(m, k) is Some;
        lemma_first_node_problem(m, k);
    } else {
        assert(forall|k: int| 0 <= k < j ==> nth_node_problem(m, k) is None);
    }
}

proof fn lemma_no_node_problem(m: PluginManifest, j: int)
    requires
        nodes_error(m) is None,
        0 <= j < m.nodes@.len(),
    ensures
        nth_node_problem(m, j) is None,
{
    if nth_node_problem(m, j) is Some {
        lemma_first_node_problem(m, j);
        let i = choose|i: int|
            0 <= i < m.nodes@.len() && #[trigger] nth_node_problem(m, i) is Some && forall|k: int|
                0 <= k < i ==> nth_node_problem(m, k) is None;
        assert(nodes_error(m) == nth_node_problem(m, i));
    }
}

#[verifier::spinoff_prover]
proof fn lemma_nodes_error_none(m: PluginManifest)
    requires
        nodes_error(m) is None,
    ensures
        nodes_acceptable(m),
{
    let nodes = m.nodes@;
    assert forall|j: int| 0 <= j < nodes.len() implies !is_blank((#[trigger] nodes[j]).node_type@)
        && m.runtime_capabilities@.contains(nodes[j].behavior) by {
        lemma_no_node_problem(m, j);
        lemma_node_fine(m, j);
    }
    assert forall|i: int, j: int| 0 <= i < j < nodes.len() implies (#[trigger] nodes[i]).node_type@
        != (#[trigger] nodes[j]).node_type@ by {
        lemma_no_node_problem(m, j);
        lemma_node_fine(m, j);
    }
}

#[verifier::spinoff_prover]
proof fn lemma_nodes_error_some(m: PluginManifest)
    requires
        nodes_error(m) is Some,
    ensures
        !nodes_acceptable(m),
{
    let nodes = m.nodes@;
    let types = node_types(nodes);
    let k = choose|i: int| 0 <= i < nodes.len() && #[trigger] nth_node_problem(m, i) is Some;
    assert(nth_node_problem(m, k) is Some);
    if !is_blank(nodes[k].node_type@) && m.runtime_capabilities@.contains(nodes[k].behavior) {
        assert(types.take(k).contains(nodes[k].node_type@));
        let t = choose|t: int| 0 <= t < types.take(k).len() && types.take(k)[t] == nodes[k].node_type@;
        assert(nodes[t].node_type@ == nodes[k].node_type@);
    }
}

/// A manifest passes validation exactly when it is acceptable: validation refuses a wrong
/// marker, a blank id or name, a repeated capability, a blank or repeated node type, a node
/// behavior outside the capabilities, and an unsafe resource folder, and nothing else.
pub proof fn law_manifest_acceptance(m: PluginManifest, unsafe_folders: Seq<bool>)
    ensures
        manifest_error(m, unsafe_folders) is None <==> manifest_acceptable(m, unsafe_folders),
{
    lemma_caps_distinct(m.runtime_capabilities@);
    if nodes_error(m) is None {
        lemma_nodes_error_none(m);
    } else {
        lemma_nodes_error_some(m);
    }
    if resources_error(m, unsafe_folders) is Some {
        let k = choose|i: int| 0 <= i < m.resources@.len() && #[trigger] unsafe_folders[i];
        assert(unsafe_folders[k]);
    }
}

/// Whether a behavior occurs among the first `n` capabilities.
fn contains_behavior(caps: &Vec<PluginBehavior>, n: usize, b: PluginBehavior) -> (r: bool)
    requires
        n <= caps@.len(),
    ensures
        r == caps@.take(n as int).contains(b),
{
    let mut i: usize = 0;
    while i < n
        invariant
            i <= n <= caps@.len(),
            forall|j: int| 0 <= j < i ==> caps@[j] != b,
        decreases n - i,
    {
        if caps[i] == b {
            assert(caps@.take(n as int)[i as int] == b);
            return true;
        }
        i = i + 1;
    }
    proof {
        if caps@.take(n as int).contains(b) {
            let j = choose|j: int| 0 <= j < n && caps@.take(n as int)[j] == b;
            assert(caps@[j] == b);
        }
    }
    false
}

/// Whether a node type occurs among the first `n` node declarations.
fn contains_node_type(nodes: &Vec<PluginNodeDefinition>, n: usize, t: &Vec<char>) -> (r: bool)
    requires
        n <= nodes@.len(),
    ensures
        r == node_types(nodes@).take(n as int).contains(t@),
{
    let mut i: usize = 0;
    while i < n
        invariant
            i <= n <= nodes@.len(),
            forall|j: int| 0 <= j < i ==> nodes@[j].node_type@ != t@,
        decreases n - i,
    {
        let other = chars_of(nodes[i].node_type.as_str());
        if chars_eq(&other, t) {
            assert(node_types(nodes@).take(n as int)[i as int] == t@);
            return true;
        }
        i = i + 1;
    }
    proof {
        if node_types(nodes@).take(n as int).contains(t@) {
            let j = choose|j: int| 0 <= j < n && node_types(nodes@).take(n as int)[j] == t@;
            assert(nodes@[j].node_type@ == t@);
        }
    }
    false
}

/// Validates a parsed manifest, given for each resource folder whether it is unsafe; the
/// error is the first problem found, checking the marker, the id and name, repeated
/// capabilities, the nodes in order and then the resource folders in order.
pub fn check_manifest(manifest: &PluginManifest, unsafe_folders: &Vec<bool>) -> (r: Result<
    (),
    String,
>)
    requires
        unsafe_folders@.len() == manifest.resources@.len(),
    ensures
        match r {
            Ok(()) => manifest_error(*manifest, unsafe_folders@) is None,
            Err(e) => manifest_error(*manifest, unsafe_folders@) == Some(e@),
        },
{
    if !str_eq(manifest.slide2d_plugin_system.as_str(), PLUGIN_MAGIC) {
        return Err(to_owned_string("plugin.json缺少SLIDE2D_PLUGIN_SYSTEM标识"));
    }
    if str_is_blank(manifest.plugin_id.as_str()) || str_is_blank(manifest.name.as_str()) {
        return Err(to_owned_string("plugin.json缺少插件ID或名称"));
    }
    let caps = &manifest.runtime_capabilities;
    let mut i: usize = 0;
    while i < caps.len()
        invariant
            i <= caps@.len(),
            caps == &manifest.runtime_capabilities,
            manifest.slide2d_plugin_system@ == PLUGIN_MAGIC@,
            !is_blank(manifest.plugin_id@),
            !is_blank(manifest.name@),
            forall|j: int| 0 <= j < i ==> !repeats_at(caps@, j),
        decreases caps@.len() - i,
    {
        if contains_behavior(caps, i, caps[i]) {
            proof {
                assert(repeats_at(caps@, i as int));
                let k = choose|k: int|
                    #[trigger] repeats_at(caps@, k) && forall|j: int|
                        0 <= j < k ==> !repeats_at(caps@, j);
                if k > i {
                    assert(!repeats_at(caps@, i as int));
                }
                assert(first_repeated(caps@) == Some(i as int));
                assert(manifest.slide2d_plugin_system@ == PLUGIN_MAGIC@);
                assert(!is_blank(manifest.plugin_id@));
                assert(!is_blank(manifest.name@));
                assert(first_repeated(manifest.runtime_capabilities@) is Some);
            }
            let e = concat2("插件包含重复Runtime能力：", caps[i].name());
            assert(e@ == "插件包含重复Runtime能力："@ + caps@[i as int].name_text());
            assert(manifest_error(*manifest, unsafe_folders@) == Some(e@));
            return Err(e);
        }
        i = i + 1;
    }
    assert(first_repeated(caps@) is None);
    let nodes = &manifest.nodes;
    let mut n: usize = 0;
    while n < nodes.len()
        invariant
            n <= nodes@.len(),
            caps == &manifest.runtime_capabilities,
            manifest.slide2d_plugin_system@ == PLUGIN_MAGIC@,
            !is_blank(manifest.plugin_id@),
            !is_blank(manifest.name@),
            first_repeated(caps@) is None,
            forall|j: int| 0 <= j < n ==> nth_node_problem(*manifest, j) is None,
            nodes == &manifest.nodes,
        decreases nodes@.len() - n,
    {
        let node_type = chars_of(nodes[n].node_type.as_str());
        let problem: Option<String> = if str_is_blank(nodes[n].node_type.as_str()) {
            Some(to_owned_string("插件节点node_type不能为空"))
        } else if contains_node_type(nodes, n, &node_type) {
            Some(concat2("插件包含重复node_type：", nodes[n].node_type.as_str()))
        } else if !contains_behavior(caps, caps.len(), nodes[n].behavior) {
            proof {
                assert(caps@.take(caps@.len() as int) =~= caps@);
            }
            Some(
                concat3(
                    "插件节点",
                    nodes[n].node_type.as_str(),
                    "的behavior未列入runtime_capabilities",
                ),
            )
        } else {
            proof {
                assert(caps@.take(caps@.len() as int) =~= caps@);
            }
            None
        };
        match problem {
            Some(e) => {
                proof {
                    assert(nth_node_problem(*manifest, n as int) == Some(e@));
                    assert(nodes_error(*manifest) == Some(e@)) by {
                        let k = choose|k: int|
                            0 <= k < manifest.nodes@.len() && #[trigger] nth_node_problem(
                                *manifest,
                                k,
                            ) is Some && forall|j: int|
                                0 <= j < k ==> nth_node_problem(*manifest, j) is None;
                        if k < n {
                        } else if k > n {
                            assert(nth_node_problem(*manifest, n as int) is None);
                        }
                    }
                }
                return Err(e);
            },
            None => {},
        }
        n = n + 1;
    }
    assert(nodes_error(*manifest) is None);
    let resources = &manifest.resources;
    let mut k: usize = 0;
    while k < resources.len()
        invariant
            k <= resources@.len(),
            manifest.slide2d_plugin_system@ == PLUGIN_MAGIC@,
            !is_blank(manifest.plugin_id@),
            !is_blank(manifest.name@),
            first_repeated(manifest.runtime_capabilities@) is None,
            nodes_error(*manifest) is None,
            unsafe_folders@.len() == resources@.len(),
            resources == &manifest.resources,
            forall|j: int| 0 <= j < k ==> !unsafe_folders@[j],
        decreases resources@.len() - k,
    {
        if unsafe_folders[k] {
            proof {
                let i = choose|i: int|
                    0 <= i < manifest.resources@.len() && #[trigger] unsafe_folders@[i]
                        && forall|j: int| 0 <= j < i ==> !unsafe_folders@[j];
                if i < k {
                } else if i > k {
                    assert(!unsafe_folders@[k as int]);
                }
            }
            return Err(concat2("插件资源目录不安全：", resources[k].folder.as_str()));
        }
        k = k + 1;
    }
    Ok(())
}


/// Whether every resource folder of a manifest is a single plain name.
pub open spec fn plain_resource_folders(m: PluginManifest) -> bool {
    forall|i: int| 0 <= i < m.resources@.len() ==> single_name(#[trigger] m.resources@[i].folder@)
}

/// Whether every resource folder of a manifest is a relative path of names and `..` joined
/// by `/`.
pub open spec fn relative_resource_folders(m: PluginManifest) -> bool {
    forall|i: int| 0 <= i < m.resources@.len() ==> relative_path(#[trigger] m.resources@[i].folder@)
}

/// Whether every resource folder of a manifest is a relative path of names and `..` joined
/// by `/`, `.` pieces, repeated separators and a trailing `/` allowed.
pub open spec fn loose_resource_folders(m: PluginManifest) -> bool {
    forall|i: int|
        0 <= i < m.resources@.len() ==> loose_path(#[trigger] m.resources@[i].folder@) && !is_rooted(
            m.resources@[i].folder@,
        )
}

/// For each resource folder of such a manifest, whether one of its named pieces is `..`.
pub open spec fn loose_folder_flags(m: PluginManifest) -> Seq<bool> {
    Seq::new(m.resources@.len(), |i: int| loose_climbs(m.resources@[i].folder@))
}

/// For each resource folder of a manifest, whether it leads out of the plugin's folder
/// through a `..` piece.
pub open spec fn folder_flags(m: PluginManifest) -> Seq<bool> {
    Seq::new(m.resources@.len(), |i: int| climbs_out(m.resources@[i].folder@))
}

/// Validates a parsed manifest; resource folders are judged unsafe by the platform's path
/// rules. When every folder is a single plain name (none is unsafe) the outcome is exactly
/// `check_manifest`'s with no folder flagged; when every folder is a relative path of names
/// and `..` joined by `/` (also with `.` pieces, repeated separators or a trailing `/`), it
/// is `check_manifest`'s with exactly the folders that hold a `..` piece flagged; in every
/// case it is `check_manifest`'s outcome for some judgement of
/// the folders.
pub fn validate_manifest(manifest: &PluginManifest) -> (r: Result<(), String>)
    ensures
        relative_resource_folders(*manifest) ==> match r {
            Ok(()) => manifest_error(*manifest, folder_flags(*manifest)) is None,
            Err(e) => manifest_error(*manifest, folder_flags(*manifest)) == Some(e@),
        },
        loose_resource_folders(*manifest) ==> match r {
            Ok(()) => manifest_error(*manifest, loose_folder_flags(*manifest)) is None,
            Err(e) => manifest_error(*manifest, loose_folder_flags(*manifest)) == Some(e@),
        },
        exists|flags: Seq<bool>|
            flags.len() == manifest.resources@.len() && match r {
                Ok(()) => manifest_error(*manifest, flags) is None,
                Err(e) => manifest_error(*manifest, flags) == Some(e@),
            },
        plain_resource_folders(*manifest) ==> match r {
            Ok(()) => manifest_error(
                *manifest,
                Seq::new(manifest.resources@.len(), |_i: int| false),
            ) is None,
            Err(e) => manifest_error(
                *manifest,
                Seq::new(manifest.resources@.len(), |_i: int| false),
            ) == Some(e@),
        },
{
    let mut flags: Vec<bool> = Vec::new();
    let mut i: usize = 0;
    while i < manifest.resources.len()
        invariant
            i <= manifest.resources@.len(),
            flags@.len() == i,
            plain_resource_folders(*manifest) ==> forall|j: int| 0 <= j < i ==> !flags@[j],
            relative_resource_folders(*manifest) ==> forall|j: int|
                0 <= j < i ==> flags@[j] == climbs_out(#[trigger] manifest.resources@[j].folder@),
            loose_resource_folders(*manifest) ==> forall|j: int|
                0 <= j < i ==> flags@[j] == loose_climbs(#[trigger] manifest.resources@[j].folder@),
        decreases manifest.resources@.len() - i,
    {
        let folder = manifest.resources[i].folder.as_str();
        proof {
            if plain_resource_folders(*manifest) {
                assert(single_name(manifest.resources@[i as int].folder@));
            }
            if relative_resource_folders(*manifest) {
                assert(relative_path(manifest.resources@[i as int].folder@));
            }
            if loose_resource_folders(*manifest) {
                assert(loose_path(manifest.resources@[i as int].folder@));
            }
        }
        flags.push(path_is_absolute(folder) || path_has_parent_component(folder));
        i = i + 1;
    }
    proof {
        if plain_resource_folders(*manifest) {
            assert(flags@ =~= Seq::new(manifest.resources@.len(), |_i: int| false));
        }
        if relative_resource_folders(*manifest) {
            assert(flags@ =~= folder_flags(*manifest));
        }
        if loose_resource_folders(*manifest) {
            assert(flags@ =~= loose_folder_flags(*manifest));
        }
    }
    check_manifest(manifest, &flags)
}

/// A plugin found in the project's `plugins` folder.
pub struct InstalledPlugin {
    pub manifest: PluginManifest,
    pub directory: String,
    pub enabled: bool,
    pub load_error: Option<String>,
}

/// Placeholder manifest for a folder without a valid `plugin.json`, shown in the plugin
/// manager: its id is `invalid:` followed by the folder's displayed path, its name the
/// folder name (or "无效插件").
pub fn invalid_manifest(display: &str, folder_name: Option<&str>) -> (r: PluginManifest)
    ensures
        r.slide2d_plugin_system@ == PLUGIN_MAGIC@,
        r.plugin_id@ == "invalid:"@ + display@,
        r.name@ == match folder_name {
            Some(n) => n@,
            None => "无效插件"@,
        },
        r.version@ == "未知"@,
        r.author@ == "未知"@,
        r.description@ == "插件配置无效"@,
        r.nodes@.len() == 0,
        r.resources@.len() == 0,
        r.editor_tools@.len() == 0,
        r.runtime_capabilities@.len() == 0,
{
    PluginManifest {
        slide2d_plugin_system: to_owned_string(PLUGIN_MAGIC),
        plugin_id: concat2("invalid:", display),
        name: match folder_name {
            Some(n) => to_owned_string(n),
            None => to_owned_string("无效插件"),
        },
        version: to_owned_string("未知"),
        author: to_owned_string("未知"),
        description: to_owned_string("插件配置无效"),
        nodes: Vec::new(),
        resources: Vec::new(),
        editor_tools: Vec::new(),
        runtime_capabilities: Vec::new(),
    }
}

/// What scanning one plugin folder found: the parsed and validated manifest or the error,
/// and the placeholder shown when it failed.
pub struct ScannedPlugin {
    pub directory: String,
    pub outcome: Result<PluginManifest, String>,
    pub placeholder: PluginManifest,
}

/// Whether a list of ids contains an id.
pub open spec fn ids_contain(ids: Seq<String>, id: Seq<char>) -> bool {
    exists|i: int| 0 <= i < ids.len() && #[trigger] ids[i]@ == id
}

/// Whether a plugin loaded and is enabled.
pub open spec fn active(p: InstalledPlugin) -> bool {
    p.enabled && p.load_error is None
}

/// The installed entry made from one scanned folder: a loaded plugin is enabled when the
/// enabled ids list it (or when no list is given); a failed folder is disabled with its
/// error.
pub open spec fn loaded_entry(
    directory: Seq<char>,
    outcome_ok: bool,
    id: Seq<char>,
    enabled_ids: Option<Seq<String>>,
) -> (bool, bool) {
    if outcome_ok {
        (
            match enabled_ids {
                Some(ids) => ids_contain(ids, id),
                None => true,
            },
            true,
        )
    } else {
        (false, false)
    }
}

/// Number of loaded plugins with an id.
pub open spec fn id_count(plugins: Seq<InstalledPlugin>, id: Seq<char>) -> nat {
    plugins.filter(|p: InstalledPlugin| p.load_error is None && p.manifest.plugin_id@ == id).len()
}

/// Inserts a plugin behind every plugin whose name does not sort after it.
pub open spec fn insert_by_name(sorted: Seq<InstalledPlugin>, p: InstalledPlugin) -> Seq<
    InstalledPlugin,
>
    decreases sorted.len(),
{
    if sorted.len() == 0 {
        seq![p]
    } else if !seq_lt(p.manifest.name@, sorted.last().manifest.name@) {
        sorted.push(p)
    } else {
        insert_by_name(sorted.drop_last(), p).push(sorted.last())
    }
}

/// A stable sort by manifest name.
pub open spec fn sort_by_name(s: Seq<InstalledPlugin>) -> Seq<InstalledPlugin>
    decreases s.len(),
{
    if s.len() == 0 {
        s
    } else {
        insert_by_name(sort_by_name(s.drop_last()), s.last())
    }
}

/// The registry of installed plugins shared by the editor and the blueprint panel.
pub struct PluginRegistry {
    pub project_root: String,
    pub installed: Vec<InstalledPlugin>,
}

/// Stable insertion of one plugin into a list sorted by name.
fn insert_plugin_sorted(sorted: &mut Vec<InstalledPlugin>, p: InstalledPlugin)
    ensures
        final(sorted)@ == insert_by_name(old(sorted)@, p),
    decreases old(sorted)@.len(),
{
    let n = sorted.len();
    if n == 0 {
        sorted.push(p);
        assert(sorted@ =~= seq![p]);
        return ;
    }
    if !str_lt(p.manifest.name.as_str(), sorted[n - 1].manifest.name.as_str()) {
        sorted.push(p);
        return ;
    }
    let last = sorted.pop().unwrap();
    insert_plugin_sorted(sorted, p);
    sorted.push(last);
}

/// Whether the first `n` plugins include a loaded one with the id.
fn loaded_id_count(plugins: &Vec<InstalledPlugin>, id: &Vec<char>) -> (r: usize)
    ensures
        r == id_count(plugins@, id@),
{
    let mut count: usize = 0;
    let mut i: usize = 0;
    while i < plugins.len()
        invariant
            i <= plugins@.len(),
            count == id_count(plugins@.take(i as int), id@),
            count <= i,
        decreases plugins@.len() - i,
    {
        let pid = chars_of(plugins[i].manifest.plugin_id.as_str());
        proof {
            reveal(Seq::filter);
            assert(plugins@.take(i + 1).drop_last() =~= plugins@.take(i as int));
        }
        if plugins[i].load_error.is_none() && chars_eq(&pid, id) {
            count = count + 1;
        }
        i = i + 1;
    }
    assert(plugins@.take(plugins@.len() as int) =~= plugins@);
    count
}

/// Whether a list of ids contains an id.
fn contains_id(ids: &Vec<String>, id: &str) -> (r: bool)
    ensures
        r == ids_contain(ids@, id@),
{
    let mut i: usize = 0;
    while i < ids.len()
        invariant
            i <= ids@.len(),
            forall|j: int| 0 <= j < i ==> ids@[j]@ != id@,
        decreases ids@.len() - i,
    {
        if str_eq(ids[i].as_str(), id) {
            return true;
        }
        i = i + 1;
    }
    false
}

/// The registry entries before duplicate ids are rejected, in scan order.
pub open spec fn scan_entries(
    scanned: Seq<ScannedPlugin>,
    enabled_ids: Option<Seq<String>>,
) -> Seq<InstalledPlugin> {
    scanned.map_values(
        |s: ScannedPlugin|
            match s.outcome {
                Ok(m) => InstalledPlugin {
                    manifest: m,
                    directory: s.directory,
                    enabled: match enabled_ids {
                        Some(ids) => ids_contain(ids, m.plugin_id@),
                        None => true,
                    },
                    load_error: None,
                },
                Err(e) => InstalledPlugin {
                    manifest: s.placeholder,
                    directory: s.directory,
                    enabled: false,
                    load_error: Some(e),
                },
            },
    )
}

/// Whether `after` is `before` with the plugins whose id is not unique among the loaded
/// ones disabled, carrying the duplicate-id error.
pub open spec fn duplicates_rejected(
    before: Seq<InstalledPlugin>,
    after: Seq<InstalledPlugin>,
) -> bool {
    &&& after.len() == before.len()
    &&& forall|i: int|
        #![trigger after[i]]
        0 <= i < before.len() ==> {
            let p = before[i];
            if p.load_error is None && id_count(before, p.manifest.plugin_id@) != 1 {
                after[i].manifest == p.manifest && after[i].directory == p.directory
                    && !after[i].enabled && after[i].load_error is Some
                    && after[i].load_error.unwrap()@ == "发现重复插件ID："@
                    + p.manifest.plugin_id@
            } else {
                after[i] == p
            }
        }
}

/// Adding a plugin to a list adds one to the count of its id when it loaded.
proof fn lemma_id_count_push(s: Seq<InstalledPlugin>, p: InstalledPlugin, id: Seq<char>)
    ensures
        id_count(s.push(p), id) == id_count(s, id) + if p.load_error is None
            && p.manifest.plugin_id@ == id {
            1nat
        } else {
            0nat
        },
{
    reveal(Seq::filter);
    assert(s.push(p).drop_last() =~= s);
}

/// Inserting by name keeps every id's count, plus the inserted plugin.
proof fn lemma_id_count_insert(sorted: Seq<InstalledPlugin>, p: InstalledPlugin, id: Seq<char>)
    ensures
        id_count(insert_by_name(sorted, p), id) == id_count(sorted, id) + if p.load_error is None
            && p.manifest.plugin_id@ == id {
            1nat
        } else {
            0nat
        },
    decreases sorted.len(),
{
    if sorted.len() == 0 {
        lemma_id_count_push(sorted, p, id);
        assert(seq![p] =~= sorted.push(p));
    } else if !seq_lt(p.manifest.name@, sorted.last().manifest.name@) {
        lemma_id_count_push(sorted, p, id);
    } else {
        let init = sorted.drop_last();
        lemma_id_count_insert(init, p, id);
        lemma_id_count_push(insert_by_name(init, p), sorted.last(), id);
        lemma_id_count_push(init, sorted.last(), id);
        assert(init.push(sorted.last()) =~= sorted);
    }
}

/// Sorting by name keeps every id's count.
proof fn lemma_id_count_sort(s: Seq<InstalledPlugin>, id: Seq<char>)
    ensures
        id_count(sort_by_name(s), id) == id_count(s, id),
    decreases s.len(),
{
    if s.len() > 0 {
        let init = s.drop_last();
        lemma_id_count_sort(init, id);
        lemma_id_count_insert(sort_by_name(init), s.last(), id);
        lemma_id_count_push(init, s.last(), id);
        assert(init.push(s.last()) =~= s);
    }
}

/// After duplicates are rejected, an id is carried by one loaded plugin when it was unique
/// among the loaded ones before, and by none otherwise.
proof fn lemma_id_count_deduplicated(
    before: Seq<InstalledPlugin>,
    after: Seq<InstalledPlugin>,
    id: Seq<char>,
    k: int,
)
    requires
        duplicates_rejected(before, after),
        0 <= k <= before.len(),
    ensures
        id_count(after.take(k), id) == if id_count(before, id) == 1 {
            id_count(before.take(k), id)
        } else {
            0
        },
    decreases k,
{
    if k == 0 {
        reveal(Seq::filter);
        assert(after.take(0) =~= Seq::<InstalledPlugin>::empty());
        assert(before.take(0) =~= Seq::<InstalledPlugin>::empty());
    } else {
        lemma_id_count_deduplicated(before, after, id, k - 1);
        lemma_id_count_push(after.take(k - 1), after[k - 1], id);
        lemma_id_count_push(before.take(k - 1), before[k - 1], id);
        assert(after.take(k - 1).push(after[k - 1]) =~= after.take(k));
        assert(before.take(k - 1).push(before[k - 1]) =~= before.take(k));
    }
}

/// Two lists whose plugins agree, position by position, on whether they loaded and on their
/// ids carry every id equally often.
proof fn lemma_id_count_same_ids(a: Seq<InstalledPlugin>, b: Seq<InstalledPlugin>, id: Seq<char>, k: int)
    requires
        a.len() == b.len(),
        0 <= k <= a.len(),
        forall|j: int|
            0 <= j < a.len() ==> (#[trigger] a[j]).load_error is None == b[j].load_error is None
                && a[j].manifest.plugin_id == b[j].manifest.plugin_id,
    ensures
        id_count(a.take(k), id) == id_count(b.take(k), id),
    decreases k,
{
    if k == 0 {
        assert(a.take(0) =~= b.take(0));
    } else {
        lemma_id_count_same_ids(a, b, id, k - 1);
        lemma_id_count_push(a.take(k - 1), a[k - 1], id);
        lemma_id_count_push(b.take(k - 1), b[k - 1], id);
        assert(a.take(k - 1).push(a[k - 1]) =~= a.take(k));
        assert(b.take(k - 1).push(b[k - 1]) =~= b.take(k));
    }
}

/// Enabling or disabling a plugin changes no plugin's id or load state, so an id carried by
/// at most one loaded plugin stays so.
pub proof fn law_toggle_keeps_id_counts(
    plugins: Seq<InstalledPlugin>,
    i: int,
    enabled: bool,
    id: Seq<char>,
)
    requires
        0 <= i < plugins.len(),
    ensures
        id_count(plugins.update(i, InstalledPlugin { enabled, ..plugins[i] }), id) == id_count(
            plugins,
            id,
        ),
{
    let after = plugins.update(i, InstalledPlugin { enabled, ..plugins[i] });
    lemma_id_count_same_ids(after, plugins, id, plugins.len() as int);
    assert(after.take(plugins.len() as int) =~= after);
    assert(plugins.take(plugins.len() as int) =~= plugins);
}

impl PluginRegistry {
    /// Builds the registry from the scanned plugin folders: failed folders are shown
    /// disabled with their error; loaded plugins are enabled when `enabled_ids` lists them
    /// (all are, when no list is given); plugins whose id is not unique among the loaded ones
    /// are disabled with a duplicate-id error; the result is sorted stably by name, and no id
    /// is carried by more than one loaded plugin.
    pub fn from_scan(
        project_root: String,
        scanned: Vec<ScannedPlugin>,
        enabled_ids: Option<&Vec<String>>,
    ) -> (r: Self)
        ensures
            r.project_root == project_root,
            exists|deduplicated: Seq<InstalledPlugin>|
                duplicates_rejected(
                    scan_entries(
                        scanned@,
                        match enabled_ids {
                            Some(ids) => Some(ids@),
                            None => None,
                        },
                    ),
                    deduplicated,
                ) && r.installed@ == sort_by_name(deduplicated),
            forall|id: Seq<char>| #[trigger] id_count(r.installed@, id) <= 1,
    {
        let ghost ids_view: Option<Seq<String>> = match enabled_ids {
            Some(ids) => Some(ids@),
            None => None,
        };
        let ghost expected = scan_entries(scanned@, ids_view);
        let mut scanned = scanned;
        let total = scanned.len();
        let ghost all = scanned@;
        let mut installed: Vec<InstalledPlugin> = Vec::new();
        let mut i: usize = 0;
        while scanned.len() > 0
            invariant
                all.len() == i + scanned@.len(),
                all.len() <= usize::MAX,
                scanned@ == all.skip(i as int),
                installed@ == scan_entries(all.take(i as int), ids_view),
                expected == scan_entries(all, ids_view),
                ids_view == match enabled_ids {
                    Some(ids) => Some(ids@),
                    None => None,
                },
            decreases scanned@.len(),
        {
            let item = scanned.remove(0);
            let entry = match item.outcome {
                Ok(m) => {
                    let enabled = match enabled_ids {
                        Some(ids) => contains_id(ids, m.plugin_id.as_str()),
                        None => true,
                    };
                    InstalledPlugin { manifest: m, directory: item.directory, enabled, load_error: None }
                },
                Err(e) => InstalledPlugin {
                    manifest: item.placeholder,
                    directory: item.directory,
                    enabled: false,
                    load_error: Some(e),
                },
            };
            installed.push(entry);
            proof {
                assert(all.skip(i as int)[0] == item);
                assert(all.skip(i as int).drop_first() =~= all.skip(i + 1));
                assert(all.take(i + 1) =~= all.take(i as int).push(item));
                assert(installed@ =~= scan_entries(all.take(i + 1), ids_view));
            }
            i = i + 1;
        }
        assert(all.take(i as int) =~= all);
        let ghost before = installed@;
        let mut counts: Vec<usize> = Vec::new();
        let mut j: usize = 0;
        while j < installed.len()
            invariant
                j <= installed@.len(),
                installed@ == before,
                counts@.len() == j,
                forall|k: int|
                    0 <= k < j ==> #[trigger] counts@[k] == id_count(
                        before,
                        before[k].manifest.plugin_id@,
                    ),
            decreases installed@.len() - j,
        {
            let id = chars_of(installed[j].manifest.plugin_id.as_str());
            counts.push(loaded_id_count(&installed, &id));
            j = j + 1;
        }
        let total_installed = installed.len();
        let mut rest = installed;
        let mut deduplicated: Vec<InstalledPlugin> = Vec::new();
        let mut k: usize = 0;
        while rest.len() > 0
            invariant
                before.len() == k + rest@.len(),
                before.len() == total_installed,
                rest@ == before.skip(k as int),
                counts@.len() == before.len(),
                forall|m: int|
                    0 <= m < before.len() ==> #[trigger] counts@[m] == id_count(
                        before,
                        before[m].manifest.plugin_id@,
                    ),
                deduplicated@.len() == k,
                forall|m: int|
                    #![trigger deduplicated@[m]]
                    0 <= m < k ==> {
                        let p = before[m];
                        if p.load_error is None && id_count(before, p.manifest.plugin_id@) != 1 {
                            deduplicated@[m].manifest == p.manifest && deduplicated@[m].directory
                                == p.directory && !deduplicated@[m].enabled
                                && deduplicated@[m].load_error is Some
                                && deduplicated@[m].load_error.unwrap()@ == "发现重复插件ID："@
                                + p.manifest.plugin_id@
                        } else {
                            deduplicated@[m] == p
                        }
                    },
            decreases rest@.len(),
        {
            let p = rest.remove(0);
            assert(before.skip(k as int)[0] == p);
            assert(before.skip(k as int).drop_first() =~= before.skip(k + 1));
            if p.load_error.is_none() && counts[k] != 1 {
                let message = concat2("发现重复插件ID：", p.manifest.plugin_id.as_str());
                deduplicated.push(
                    InstalledPlugin {
                        manifest: p.manifest,
                        directory: p.directory,
                        enabled: false,
                        load_error: Some(message),
                    },
                );
            } else {
                deduplicated.push(p);
            }
            k = k + 1;
        }
        assert(duplicates_rejected(before, deduplicated@));
        let ghost dedup_view = deduplicated@;
        let mut sorted: Vec<InstalledPlugin> = Vec::new();
        let mut source = deduplicated;
        let mut m: usize = 0;
        while source.len() > 0
            invariant
                dedup_view.len() == m + source@.len(),
                dedup_view.len() <= usize::MAX,
                source@ == dedup_view.skip(m as int),
                sorted@ == sort_by_name(dedup_view.take(m as int)),
            decreases source@.len(),
        {
            let p = source.remove(0);
            proof {
                assert(dedup_view.skip(m as int)[0] == p);
                assert(dedup_view.skip(m as int).drop_first() =~= dedup_view.skip(m + 1));
                assert(dedup_view.take(m + 1).drop_last() =~= dedup_view.take(m as int));
            }
            insert_plugin_sorted(&mut sorted, p);
            m = m + 1;
        }
        assert(dedup_view.take(m as int) =~= dedup_view);
        proof {
            assert forall|id: Seq<char>| #[trigger] id_count(sorted@, id) <= 1 by {
                lemma_id_count_sort(dedup_view, id);
                lemma_id_count_deduplicated(before, dedup_view, id, before.len() as int);
                assert(dedup_view.take(before.len() as int) =~= dedup_view);
                assert(before.take(before.len() as int) =~= before);
            }
        }
        PluginRegistry { project_root, installed: sorted }
    }

    /// The ids of the enabled plugins that loaded, in registry order.
    pub open spec fn active_ids(plugins: Seq<InstalledPlugin>) -> Seq<Seq<char>> {
        plugins.filter(|p: InstalledPlugin| active(p)).map_values(
            |p: InstalledPlugin| p.manifest.plugin_id@,
        )
    }

    /// Returns the ids of the enabled plugins that loaded, in registry order.
    pub fn enabled_ids(&self) -> (r: Vec<String>)
        ensures
            r@.map_values(|s: String| s@) == PluginRegistry::active_ids(self.installed@),
    {
        let mut r: Vec<String> = Vec::new();
        let mut i: usize = 0;
        while i < self.installed.len()
            invariant
                i <= self.installed@.len(),
                r@.map_values(|s: String| s@) == PluginRegistry::active_ids(
                    self.installed@.take(i as int),
                ),
            decreases self.installed@.len() - i,
        {
            let ghost prev = r@.map_values(|s: String| s@);
            proof {
                reveal(Seq::filter);
                assert(self.installed@.take(i + 1).drop_last() =~= self.installed@.take(i as int));
            }
            if self.installed[i].enabled && self.installed[i].load_error.is_none() {
                r.push(clone_string(&self.installed[i].manifest.plugin_id));
                assert(r@.map_values(|s: String| s@) =~= prev.push(
                    self.installed@[i as int].manifest.plugin_id@,
                ));
            }
            i = i + 1;
        }
        assert(self.installed@.take(self.installed@.len() as int) =~= self.installed@);
        r
    }

    /// Enables or disables the first loaded plugin with the given id; nothing happens when no
    /// loaded plugin has it.
    pub fn set_enabled(&mut self, plugin_id: &str, enabled: bool)
        ensures
            final(self).project_root == old(self).project_root,
            final(self).installed@.len() == old(self).installed@.len(),
            match PluginRegistry::find_loaded(old(self).installed@, plugin_id@) {
                Some(i) => final(self).installed@ == old(self).installed@.update(
                    i,
                    InstalledPlugin { enabled, ..old(self).installed@[i] },
                ),
                None => final(self).installed@ == old(self).installed@,
            },
    {
        let mut i: usize = 0;
        while i < self.installed.len()
            invariant
                i <= self.installed@.len(),
                self.installed@ == old(self).installed@,
                self.project_root == old(self).project_root,
                forall|j: int|
                    0 <= j < i ==> !PluginRegistry::loaded_with_id(
                        #[trigger] self.installed@[j],
                        plugin_id@,
                    ),
            decreases self.installed@.len() - i,
        {
            if self.installed[i].load_error.is_none() && str_eq(
                self.installed[i].manifest.plugin_id.as_str(),
                plugin_id,
            ) {
                let ghost before = self.installed@;
                let mut rest = self.installed.split_off(i);
                let mut p = rest.remove(0);
                p.enabled = enabled;
                self.installed.push(p);
                self.installed.append(&mut rest);
                proof {
                    assert(PluginRegistry::loaded_with_id(before[i as int], plugin_id@));
                    assert(PluginRegistry::find_loaded(before, plugin_id@) == Some(i as int));
                    assert(self.installed@ =~= before.update(
                        i as int,
                        InstalledPlugin { enabled, ..before[i as int] },
                    ));
                }
                return ;
            }
            i = i + 1;
        }
        assert(PluginRegistry::find_loaded(self.installed@, plugin_id@) is None);
    }

    /// Whether a plugin loaded and has the id.
    pub open spec fn loaded_with_id(p: InstalledPlugin, id: Seq<char>) -> bool {
        p.load_error is None && p.manifest.plugin_id@ == id
    }

    /// Index of the first loaded plugin with the id.
    pub open spec fn find_loaded(plugins: Seq<InstalledPlugin>, id: Seq<char>) -> Option<int> {
        if exists|i: int|
            0 <= i < plugins.len() && #[trigger] PluginRegistry::loaded_with_id(plugins[i], id) {
            Some(
                choose|i: int|
                    0 <= i < plugins.len() && #[trigger] PluginRegistry::loaded_with_id(
                        plugins[i],
                        id,
                    ) && forall|j: int|
                        0 <= j < i ==> !PluginRegistry::loaded_with_id(plugins[j], id),
            )
        } else {
            None
        }
    }
}


impl PluginNodeDefinition {
    /// A copy of the definition.
    pub fn duplicate(&self) -> (r: Self)
        ensures
            r == *self,
    {
        PluginNodeDefinition {
            node_type: self.node_type.clone(),
            display_name: self.display_name.clone(),
            description: self.description.clone(),
            category: self.category,
            behavior: self.behavior,
            variable_name: self.variable_name.clone(),
            value: self.value,
        }
    }
}

/// The behavior the last entry for a node type records.
pub open spec fn node_behavior(nodes: Seq<(Seq<char>, PluginBehavior)>, node_type: Seq<char>) -> Option<
    PluginBehavior,
>
    decreases nodes.len(),
{
    if nodes.len() == 0 {
        None
    } else if nodes.last().0 == node_type {
        Some(nodes.last().1)
    } else {
        node_behavior(nodes.drop_last(), node_type)
    }
}

/// What one enabled plugin may run: its declared capabilities and the behavior of each node
/// type its manifest declares.
pub struct PluginRuntimeAuthorization {
    capabilities: Vec<PluginBehavior>,
    nodes: Vec<(String, PluginBehavior)>,
}

impl PluginRuntimeAuthorization {
    /// The declared capabilities.
    pub closed spec fn capability_seq(&self) -> Seq<PluginBehavior> {
        self.capabilities@
    }

    /// The declared node types with their behaviors, in declaration order.
    pub closed spec fn node_seq(&self) -> Seq<(Seq<char>, PluginBehavior)> {
        self.nodes@.map_values(|n: (String, PluginBehavior)| (n.0@, n.1))
    }

    /// An authorization that allows nothing.
    pub fn new() -> (r: Self)
        ensures
            r.capability_seq().len() == 0,
            r.node_seq().len() == 0,
    {
        let r = PluginRuntimeAuthorization { capabilities: Vec::new(), nodes: Vec::new() };
        assert(r.node_seq() =~= Seq::empty());
        r
    }

    /// The authorization a manifest grants.
    pub fn from_manifest(manifest: &PluginManifest) -> (r: Self)
        ensures
            r.capability_seq() == manifest.runtime_capabilities@,
            r.node_seq() == manifest.nodes@.map_values(
                |n: PluginNodeDefinition| (n.node_type@, n.behavior),
            ),
    {
        let mut capabilities: Vec<PluginBehavior> = Vec::new();
        let mut i: usize = 0;
        while i < manifest.runtime_capabilities.len()
            invariant
                i <= manifest.runtime_capabilities@.len(),
                capabilities@ == manifest.runtime_capabilities@.take(i as int),
            decreases manifest.runtime_capabilities@.len() - i,
        {
            capabilities.push(manifest.runtime_capabilities[i]);
            assert(manifest.runtime_capabilities@.take(i + 1) =~= manifest.runtime_capabilities@.take(
                i as int,
            ).push(manifest.runtime_capabilities@[i as int]));
            i = i + 1;
        }
        assert(manifest.runtime_capabilities@.take(i as int) =~= manifest.runtime_capabilities@);
        let ghost target = manifest.nodes@.map_values(
            |n: PluginNodeDefinition| (n.node_type@, n.behavior),
        );
        let mut nodes: Vec<(String, PluginBehavior)> = Vec::new();
        let mut j: usize = 0;
        while j < manifest.nodes.len()
            invariant
                j <= manifest.nodes@.len(),
                target == manifest.nodes@.map_values(
                    |n: PluginNodeDefinition| (n.node_type@, n.behavior),
                ),
                nodes@.map_values(|n: (String, PluginBehavior)| (n.0@, n.1)) == target.take(
                    j as int,
                ),
            decreases manifest.nodes@.len() - j,
        {
            let ghost prev = nodes@.map_values(|n: (String, PluginBehavior)| (n.0@, n.1));
            let t = clone_string(&manifest.nodes[j].node_type);
            nodes.push((t, manifest.nodes[j].behavior));
            assert(target[j as int] == (t@, manifest.nodes@[j as int].behavior));
            assert(target.take(j + 1) =~= target.take(j as int).push(target[j as int]));
            assert(nodes@.map_values(|n: (String, PluginBehavior)| (n.0@, n.1)) =~= prev.push(
                target[j as int],
            ));
            j = j + 1;
        }
        assert(target.take(j as int) =~= target);
        PluginRuntimeAuthorization { capabilities, nodes }
    }

    /// Whether the plugin may run a node: the node type must be declared with exactly this
    /// behavior, and the behavior must be a declared capability.
    pub open spec fn allows_spec(&self, node_type: Seq<char>, behavior: PluginBehavior) -> bool {
        node_behavior(self.node_seq(), node_type) == Some(behavior)
            && self.capability_seq().contains(behavior)
    }

    /// The behavior recorded for a node type.
    fn lookup(&self, node_type: &str) -> (r: Option<PluginBehavior>)
        ensures
            r == node_behavior(self.node_seq(), node_type@),
    {
        let ghost all = self.node_seq();
        let mut i: usize = self.nodes.len();
        assert(all.take(i as int) =~= all);
        while i > 0
            invariant
                i <= self.nodes@.len(),
                all == self.node_seq(),
                node_behavior(all, node_type@) == node_behavior(all.take(i as int), node_type@),
            decreases i,
        {
            proof {
                assert(all.take(i as int).drop_last() =~= all.take(i - 1));
            }
            if str_eq(self.nodes[i - 1].0.as_str(), node_type) {
                return Some(self.nodes[i - 1].1);
            }
            i = i - 1;
        }
        assert(all.take(0) =~= Seq::<(Seq<char>, PluginBehavior)>::empty());
        None
    }

    /// Only a node whose type exists, whose behavior matches the manifest and whose behavior is
    /// a declared capability is authorized.
    pub fn allows(&self, node_type: &str, behavior: &PluginBehavior) -> (r: bool)
        ensures
            r == self.allows_spec(node_type@, *behavior),
    {
        match self.lookup(node_type) {
            Some(b) => {
                if b != *behavior {
                    return false;
                }
            },
            None => {
                return false;
            },
        }
        let mut k: usize = 0;
        while k < self.capabilities.len()
            invariant
                k <= self.capabilities@.len(),
                node_behavior(self.node_seq(), node_type@) == Some(*behavior),
                forall|j: int| 0 <= j < k ==> self.capabilities@[j] != *behavior,
            decreases self.capabilities@.len() - k,
        {
            if self.capabilities[k] == *behavior {
                assert(self.capability_seq()[k as int] == *behavior);
                return true;
            }
            k = k + 1;
        }
        false
    }
}

/// The authorizations of all enabled plugins, keyed by plugin id; built only from a
/// validated registry.
pub struct PluginAuthorizationMap {
    entries: Vec<(String, PluginRuntimeAuthorization)>,
}

impl PluginAuthorizationMap {
    /// The plugin ids in insertion order.
    pub closed spec fn id_seq(&self) -> Seq<Seq<char>> {
        self.entries@.map_values(|e: (String, PluginRuntimeAuthorization)| e.0@)
    }

    /// The authorization stored at a position.
    pub closed spec fn authorization_at(&self, i: int) -> PluginRuntimeAuthorization {
        self.entries@[i].1
    }

    /// Position of the last entry for a plugin id.
    pub open spec fn last_index(ids: Seq<Seq<char>>, id: Seq<char>) -> Option<int>
        decreases ids.len(),
    {
        if ids.len() == 0 {
            None
        } else if ids.last() == id {
            Some(ids.len() - 1)
        } else {
            PluginAuthorizationMap::last_index(ids.drop_last(), id)
        }
    }

    /// An empty map, which authorizes no plugin node.
    pub fn new() -> (r: Self)
        ensures
            r.id_seq().len() == 0,
    {
        let r = PluginAuthorizationMap { entries: Vec::new() };
        assert(r.id_seq() =~= Seq::empty());
        r
    }

    /// Records the authorization of a plugin; a later entry for the same id wins.
    pub fn insert(&mut self, plugin_id: String, authorization: PluginRuntimeAuthorization)
        ensures
            final(self).id_seq() == old(self).id_seq().push(plugin_id@),
            forall|i: int|
                0 <= i < old(self).id_seq().len() ==> #[trigger] final(self).authorization_at(i)
                    == old(self).authorization_at(i),
            final(self).authorization_at(old(self).id_seq().len() as int) == authorization,
    {
        let ghost before = self.id_seq();
        self.entries.push((plugin_id, authorization));
        assert(self.id_seq() =~= before.push(plugin_id@));
    }

    /// Looks the authorization of a plugin up.
    pub fn get(&self, plugin_id: &str) -> (r: Option<&PluginRuntimeAuthorization>)
        ensures
            match PluginAuthorizationMap::last_index(self.id_seq(), plugin_id@) {
                Some(i) => r == Some(&self.authorization_at(i)),
                None => r is None,
            },
    {
        let ghost all = self.id_seq();
        let mut i: usize = self.entries.len();
        assert(all.take(i as int) =~= all);
        while i > 0
            invariant
                i <= self.entries@.len(),
                all == self.id_seq(),
                PluginAuthorizationMap::last_index(all, plugin_id@)
                    == PluginAuthorizationMap::last_index(all.take(i as int), plugin_id@),
            decreases i,
        {
            proof {
                assert(all.take(i as int).drop_last() =~= all.take(i - 1));
            }
            if str_eq(self.entries[i - 1].0.as_str(), plugin_id) {
                return Some(&self.entries[i - 1].1);
            }
            i = i - 1;
        }
        assert(all.take(0) =~= Seq::<Seq<char>>::empty());
        None
    }

    /// Whether a plugin node may run: the plugin must be authorized and allow the node.
    pub open spec fn authorizes(
        &self,
        plugin_id: Seq<char>,
        node_type: Seq<char>,
        behavior: PluginBehavior,
    ) -> bool {
        match PluginAuthorizationMap::last_index(self.id_seq(), plugin_id) {
            Some(i) => self.authorization_at(i).allows_spec(node_type, behavior),
            None => false,
        }
    }
}

impl PluginRegistry {
    /// Returns every node of the enabled plugins that loaded, with the id of its plugin, in
    /// registry and declaration order.
    pub fn enabled_nodes(&self) -> (r: Vec<(String, PluginNodeDefinition)>)
        ensures
            r@.map_values(|e: (String, PluginNodeDefinition)| (e.0@, e.1))
                == PluginRegistry::active_nodes(self.installed@),
    {
        let mut r: Vec<(String, PluginNodeDefinition)> = Vec::new();
        let mut i: usize = 0;
        while i < self.installed.len()
            invariant
                i <= self.installed@.len(),
                r@.map_values(|e: (String, PluginNodeDefinition)| (e.0@, e.1))
                    == PluginRegistry::active_nodes(self.installed@.take(i as int)),
            decreases self.installed@.len() - i,
        {
            let plugin = &self.installed[i];
            proof {
                assert(self.installed@.take(i + 1).drop_last() =~= self.installed@.take(i as int));
            }
            if plugin.enabled && plugin.load_error.is_none() {
                let ghost start = r@.map_values(|e: (String, PluginNodeDefinition)| (e.0@, e.1));
                let ghost nodes = PluginRegistry::plugin_nodes(*plugin);
                let mut j: usize = 0;
                while j < plugin.manifest.nodes.len()
                    invariant
                        j <= plugin.manifest.nodes@.len(),
                        nodes == PluginRegistry::plugin_nodes(*plugin),
                        r@.map_values(|e: (String, PluginNodeDefinition)| (e.0@, e.1)) == start
                            + nodes.take(j as int),
                    decreases plugin.manifest.nodes@.len() - j,
                {
                    let ghost prev = r@.map_values(|e: (String, PluginNodeDefinition)| (e.0@, e.1));
                    r.push((clone_string(&plugin.manifest.plugin_id), plugin.manifest.nodes[j].duplicate()));
                    assert(r@.map_values(|e: (String, PluginNodeDefinition)| (e.0@, e.1)) =~= prev.push(
                        nodes[j as int],
                    ));
                    assert(nodes.take(j + 1) =~= nodes.take(j as int).push(nodes[j as int]));
                    j = j + 1;
                }
                assert(nodes.take(j as int) =~= nodes);
            } else {
            }
            i = i + 1;
        }
        assert(self.installed@.take(i as int) =~= self.installed@);
        r
    }

    /// The nodes of one plugin paired with its id.
    pub open spec fn plugin_nodes(p: InstalledPlugin) -> Seq<(Seq<char>, PluginNodeDefinition)> {
        p.manifest.nodes@.map_values(|n: PluginNodeDefinition| (p.manifest.plugin_id@, n))
    }

    /// The nodes of the enabled plugins that loaded, in order.
    pub open spec fn active_nodes(plugins: Seq<InstalledPlugin>) -> Seq<
        (Seq<char>, PluginNodeDefinition),
    >
        decreases plugins.len(),
    {
        if plugins.len() == 0 {
            Seq::empty()
        } else if active(plugins.last()) {
            PluginRegistry::active_nodes(plugins.drop_last()) + PluginRegistry::plugin_nodes(
                plugins.last(),
            )
        } else {
            PluginRegistry::active_nodes(plugins.drop_last())
        }
    }

    /// The enabled plugins that loaded, in order.
    pub open spec fn active_plugins(plugins: Seq<InstalledPlugin>) -> Seq<InstalledPlugin> {
        plugins.filter(|p: InstalledPlugin| active(p))
    }

    /// Builds the runtime's only trusted node authorizations: one entry per enabled plugin
    /// that loaded, in registry order, from its manifest's capabilities and nodes.
    pub fn runtime_authorizations(&self) -> (r: PluginAuthorizationMap)
        ensures
            r.id_seq() == PluginRegistry::active_plugins(self.installed@).map_values(
                |p: InstalledPlugin| p.manifest.plugin_id@,
            ),
            forall|i: int|
                0 <= i < r.id_seq().len() ==> {
                    let p = #[trigger] PluginRegistry::active_plugins(self.installed@)[i];
                    &&& r.authorization_at(i).capability_seq() == p.manifest.runtime_capabilities@
                    &&& r.authorization_at(i).node_seq() == p.manifest.nodes@.map_values(
                        |n: PluginNodeDefinition| (n.node_type@, n.behavior),
                    )
                },
    {
        let mut r = PluginAuthorizationMap::new();
        let mut i: usize = 0;
        while i < self.installed.len()
            invariant
                i <= self.installed@.len(),
                r.id_seq() == PluginRegistry::active_plugins(self.installed@.take(i as int)).map_values(
                    |p: InstalledPlugin| p.manifest.plugin_id@,
                ),
                forall|k: int|
                    0 <= k < r.id_seq().len() ==> {
                        let p = #[trigger] PluginRegistry::active_plugins(
                            self.installed@.take(i as int),
                        )[k];
                        &&& r.authorization_at(k).capability_seq()
                            == p.manifest.runtime_capabilities@
                        &&& r.authorization_at(k).node_seq() == p.manifest.nodes@.map_values(
                            |n: PluginNodeDefinition| (n.node_type@, n.behavior),
                        )
                    },
            decreases self.installed@.len() - i,
        {
            let plugin = &self.installed[i];
            let ghost prev_active = PluginRegistry::active_plugins(self.installed@.take(i as int));
            proof {
                reveal(Seq::filter);
                assert(self.installed@.take(i + 1).drop_last() =~= self.installed@.take(i as int));
            }
            if plugin.enabled && plugin.load_error.is_none() {
                let authorization = PluginRuntimeAuthorization::from_manifest(&plugin.manifest);
                r.insert(clone_string(&plugin.manifest.plugin_id), authorization);
                proof {
                    let now = PluginRegistry::active_plugins(self.installed@.take(i + 1));
                    assert(now == prev_active.push(*plugin));
                    assert(r.id_seq() =~= now.map_values(
                        |p: InstalledPlugin| p.manifest.plugin_id@,
                    ));
                    assert forall|k: int| 0 <= k < r.id_seq().len() implies {
                        let p = #[trigger] now[k];
                        &&& r.authorization_at(k).capability_seq()
                            == p.manifest.runtime_capabilities@
                        &&& r.authorization_at(k).node_seq() == p.manifest.nodes@.map_values(
                            |n: PluginNodeDefinition| (n.node_type@, n.behavior),
                        )
                    } by {
                        if k < prev_active.len() {
                            assert(now[k] == prev_active[k]);
                        }
                    }
                }
            }
            i = i + 1;
        }
        assert(self.installed@.take(i as int) =~= self.installed@);
        r
    }
}

/// Whether a relative path of names and `..` joined by `/` has a `..` piece, which would
/// lead out of the folder it is joined below.
pub open spec fn climbs_out(id: Seq<char>) -> bool {
    exists|i: int| 0 <= i < slash_pieces(id).len() && #[trigger] slash_pieces(id)[i] == ".."@
}

/// Checks that a plugin folder may be imported into the project's `plugins` folder: it needs
/// a valid manifest; its id names the target folder, so an id the platform judges unsafe
/// (absolute, or leading out through `..`) is refused, as the import must land inside the
/// `plugins` folder; and no plugin with the same id may be installed already
/// (`target_exists`). Returns the manifest to install. A relative id of names and `..`
/// joined by `/` (`.` pieces, repeated separators and a trailing `/` allowed) is refused as
/// unsafe exactly when one of its pieces is `..`.
pub fn import_plugin_folder(loaded: Result<PluginManifest, String>, target_exists: bool) -> (r:
    Result<PluginManifest, String>)
    ensures
        match loaded {
            Err(e) => r == Err::<PluginManifest, String>(e),
            Ok(m) => {
                &&& r is Ok ==> r == Ok::<PluginManifest, String>(m) && !target_exists
                &&& r is Err ==> r->Err_0@ == "同ID插件已经安装，请先删除旧插件"@ || r->Err_0@
                    == "插件ID会离开plugins目录："@ + m.plugin_id@
                &&& (single_name(m.plugin_id@) || relative_path(m.plugin_id@) && !climbs_out(
                    m.plugin_id@,
                )) ==> if target_exists {
                    r is Err && r->Err_0@ == "同ID插件已经安装，请先删除旧插件"@
                } else {
                    r == Ok::<PluginManifest, String>(m)
                }
                &&& relative_path(m.plugin_id@) && climbs_out(m.plugin_id@) ==> r is Err
                    && r->Err_0@ == "插件ID会离开plugins目录："@ + m.plugin_id@
                &&& loose_path(m.plugin_id@) && !is_rooted(m.plugin_id@) && !loose_climbs(
                    m.plugin_id@,
                ) ==> if target_exists {
                    r is Err && r->Err_0@ == "同ID插件已经安装，请先删除旧插件"@
                } else {
                    r == Ok::<PluginManifest, String>(m)
                }
                &&& loose_path(m.plugin_id@) && !is_rooted(m.plugin_id@) && loose_climbs(
                    m.plugin_id@,
                ) ==> r is Err && r->Err_0@ == "插件ID会离开plugins目录："@ + m.plugin_id@
            },
        },
{
    match loaded {
        Err(e) => Err(e),
        Ok(m) => {
            if crate::project::is_unsafe_path(m.plugin_id.as_str()) {
                return Err(concat2("插件ID会离开plugins目录：", m.plugin_id.as_str()));
            }
            if target_exists {
                Err(to_owned_string("同ID插件已经安装，请先删除旧插件"))
            } else {
                Ok(m)
            }
        },
    }
}

/// The manifest of the official pickup plugin that every project gets: one logic node
/// `pickup_check` with the pickup behavior, an item resource folder, a help tool, and the
/// pickup capability.
pub fn official_pickup_manifest() -> (r: PluginManifest)
    ensures
        r.slide2d_plugin_system@ == PLUGIN_MAGIC@,
        r.plugin_id@ == OFFICIAL_PICKUP_PLUGIN_ID@,
        r.name@ == "道具拾取系统"@,
        r.nodes@.len() == 1,
        r.nodes@[0].node_type@ == "pickup_check"@,
        r.nodes@[0].category == PluginNodeCategory::Logic,
        r.nodes@[0].behavior == PluginBehavior::PickupCheck,
        r.nodes@[0].variable_name@ == "picked"@,
        r.nodes@[0].value == 0x3F80_0000,
        r.resources@.len() == 1,
        r.resources@[0].folder@ == "plugins/slide2d_official_pickup/items"@,
        r.runtime_capabilities@ == seq![PluginBehavior::PickupCheck],
{
    let mut nodes: Vec<PluginNodeDefinition> = Vec::new();
    nodes.push(PluginNodeDefinition {
        node_type: to_owned_string("pickup_check"),
        display_name: to_owned_string("拾取判定"),
        description: to_owned_string("当前Actor被鼠标点击时走拾取成功端口，否则走未拾取端口。"),
        category: PluginNodeCategory::Logic,
        behavior: PluginBehavior::PickupCheck,
        variable_name: to_owned_string("picked"),
        value: 0x3F80_0000,
    });
    let mut extensions: Vec<String> = Vec::new();
    extensions.push(to_owned_string("s2item"));
    let mut resources: Vec<PluginResourceDefinition> = Vec::new();
    resources.push(PluginResourceDefinition {
        display_name: to_owned_string("拾取道具资源"),
        folder: to_owned_string("plugins/slide2d_official_pickup/items"),
        extensions,
    });
    let mut editor_tools: Vec<PluginEditorToolDefinition> = Vec::new();
    editor_tools.push(PluginEditorToolDefinition {
        tool_id: to_owned_string("pickup_help"),
        display_name: to_owned_string("拾取系统工具"),
        description: to_owned_string("查看拾取节点使用说明和已注册能力。"),
    });
    let mut runtime_capabilities: Vec<PluginBehavior> = Vec::new();
    runtime_capabilities.push(PluginBehavior::PickupCheck);
    assert(runtime_capabilities@ =~= seq![PluginBehavior::PickupCheck]);
    PluginManifest {
        slide2d_plugin_system: to_owned_string(PLUGIN_MAGIC),
        plugin_id: to_owned_string(OFFICIAL_PICKUP_PLUGIN_ID),
        name: to_owned_string("道具拾取系统"),
        version: to_owned_string("1.0.0"),
        author: to_owned_string("Slide2D Official"),
        description: to_owned_string("提供拾取判定蓝图节点，演示无脚本插件扩展。"),
        nodes,
        resources,
        editor_tools,
        runtime_capabilities,
    }
}

/// The official pickup plugin's manifest passes validation when its item folder is judged
/// safe.
pub proof fn law_official_manifest_is_valid(m: PluginManifest)
    requires
        m.slide2d_plugin_system@ == PLUGIN_MAGIC@,
        m.plugin_id@ == OFFICIAL_PICKUP_PLUGIN_ID@,
        m.name@ == "道具拾取系统"@,
        m.nodes@.len() == 1,
        m.nodes@[0].node_type@ == "pickup_check"@,
        m.nodes@[0].behavior == PluginBehavior::PickupCheck,
        m.resources@.len() == 1,
        m.runtime_capabilities@ == seq![PluginBehavior::PickupCheck],
    ensures
        manifest_error(m, seq![false]) is None,
{
    reveal_strlit("slide2d.official.pickup");
    reveal_strlit("道具拾取系统");
    reveal_strlit("pickup_check");
    assert(!crate::text::is_white_space(m.plugin_id@[0]));
    assert(!is_blank(m.plugin_id@));
    assert(!crate::text::is_white_space(m.name@[0]));
    assert(!is_blank(m.name@));
    assert(!crate::text::is_white_space(m.nodes@[0].node_type@[0]));
    assert(!is_blank(m.nodes@[0].node_type@));
    let caps = m.runtime_capabilities@;
    assert forall|i: int| !(#[trigger] repeats_at(caps, i)) by {
        if 0 <= i < caps.len() {
            assert(caps.take(i) =~= Seq::<PluginBehavior>::empty());
        }
    }
    assert(node_types(m.nodes@).take(0) =~= Seq::<Seq<char>>::empty());
    assert(caps.contains(PluginBehavior::PickupCheck)) by {
        assert(caps[0] == PluginBehavior::PickupCheck);
    }
    assert(nth_node_problem(m, 0) is None);
    assert forall|i: int| !(0 <= i < m.nodes@.len() && #[trigger] nth_node_problem(m, i) is Some) by {}
}

} // verus!
