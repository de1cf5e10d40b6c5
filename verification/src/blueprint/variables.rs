//! Blueprint variables and the runtime state kept between frames: per-owner variables,
//! timers, compiled programs and diagnostics.

use crate::blueprint::validation::validation_diagnostics;
use crate::blueprint::model::{
    diagnostic_views, Blueprint, BlueprintDiagnostic, BlueprintNode, BlueprintNodeKind, DiagnosticView, Severity,
};
use crate::blueprint::vm::{BlueprintInput, BlueprintProgram};
use crate::plugins::PluginBehavior;
use crate::text::{chars_of, is_blank, str_eq, str_is_blank, string_from_chars};
use std::collections::HashMap;
use vstd::prelude::*;

verus! {

broadcast use {vstd::string::group_string_axioms, vstd::std_specs::hash::group_hash_axioms};

/// The map a list of named values stands for; a later entry for a name wins.
pub open spec fn entries_map(entries: Seq<(String, u32)>) -> Map<Seq<char>, u32>
    decreases entries.len(),
{
    if entries.len() == 0 {
        Map::empty()
    } else {
        entries_map(entries.drop_last()).insert(entries.last().0@, entries.last().1)
    }
}

/// Named number variables, each value kept as the bits of an `f32`.
pub struct VariableStore {
    entries: Vec<(String, u32)>,
}

/// Writing over the last entry of a name updates that name only.
proof fn lemma_update_last(entries: Seq<(String, u32)>, j: int, e: (String, u32))
    requires
        0 <= j < entries.len(),
        entries[j].0@ == e.0@,
        forall|m: int| j < m < entries.len() ==> (#[trigger] entries[m]).0@ != e.0@,
    ensures
        entries_map(entries.update(j, e)) == entries_map(entries).insert(e.0@, e.1),
    decreases entries.len(),
{
    let u = entries.update(j, e);
    if j == entries.len() - 1 {
        assert(u.drop_last() =~= entries.drop_last());
        assert(entries_map(u) =~= entries_map(entries).insert(e.0@, e.1));
    } else {
        let d = entries.drop_last();
        assert(u.drop_last() =~= d.update(j, e));
        lemma_update_last(d, j, e);
        assert(entries.last().0@ != e.0@);
        assert(entries_map(u) =~= entries_map(entries).insert(e.0@, e.1));
    }
}

impl VariableStore {
    /// The variables and their values.
    pub closed spec fn view_map(&self) -> Map<Seq<char>, u32> {
        entries_map(self.entries@)
    }

    /// A store without variables.
    pub fn new() -> (r: Self)
        ensures
            r.view_map() == Map::<Seq<char>, u32>::empty(),
    {
        VariableStore { entries: Vec::new() }
    }

    /// The position of the last entry for a name.
    fn find(&self, name: &str) -> (r: Option<usize>)
        ensures
            match r {
                Some(j) => j < self.entries@.len() && self.entries@[j as int].0@ == name@ && forall|
                    m: int,
                | j < m < self.entries@.len() ==> (#[trigger] self.entries@[m]).0@ != name@,
                None => forall|m: int|
                    0 <= m < self.entries@.len() ==> (#[trigger] self.entries@[m]).0@ != name@,
            },
    {
        let mut i: usize = self.entries.len();
        while i > 0
            invariant
                i <= self.entries@.len(),
                forall|m: int| i <= m < self.entries@.len() ==> (#[trigger] self.entries@[m]).0@ != name@,
            decreases i,
        {
            if str_eq(self.entries[i - 1].0.as_str(), name) {
                return Some(i - 1);
            }
            i = i - 1;
        }
        None
    }

    /// Entries after which no entry has a name leave its value as it was.
    proof fn lemma_suffix(entries: Seq<(String, u32)>, i: int, name: Seq<char>)
        requires
            0 <= i <= entries.len(),
            forall|m: int| i <= m < entries.len() ==> (#[trigger] entries[m]).0@ != name,
        ensures
            entries_map(entries).contains_key(name) == entries_map(entries.take(i)).contains_key(name),
            entries_map(entries)[name] == entries_map(entries.take(i))[name],
        decreases entries.len() - i,
    {
        if i < entries.len() {
            let t = entries.take(i + 1);
            assert(t.drop_last() =~= entries.take(i));
            assert(t.last().0@ != name);
            VariableStore::lemma_suffix(entries, i + 1, name);
        } else {
            assert(entries.take(i) =~= entries);
        }
    }

    /// The value of a variable.
    pub fn get(&self, name: &str) -> (r: Option<u32>)
        ensures
            r == (if self.view_map().contains_key(name@) {
                Some(self.view_map()[name@])
            } else {
                None
            }),
    {
        match self.find(name) {
            Some(j) => {
                proof {
                    VariableStore::lemma_suffix(self.entries@, j + 1, name@);
                    assert(self.entries@.take(j + 1).drop_last() =~= self.entries@.take(j as int));
                }
                Some(self.entries[j].1)
            },
            None => {
                proof {
                    VariableStore::lemma_suffix(self.entries@, 0, name@);
                    assert(self.entries@.take(0) =~= Seq::<(String, u32)>::empty());
                }
                None
            },
        }
    }

    /// Sets a variable.
    pub fn insert(&mut self, name: String, value: u32)
        ensures
            final(self).view_map() == old(self).view_map().insert(name@, value),
    {
        match self.find(name.as_str()) {
            Some(j) => {
                let ghost before = self.entries@;
                let ghost key = name@;
                self.entries.set(j, (name, value));
                proof {
                    lemma_update_last(before, j as int, self.entries@[j as int]);
                    assert(self.entries@ == before.update(j as int, self.entries@[j as int]));
                }
            },
            None => {
                let ghost before = self.entries@;
                self.entries.push((name, value));
                assert(self.entries@.drop_last() =~= before);
            },
        }
    }

    /// Sets a variable unless it already has a value.
    pub fn insert_if_absent(&mut self, name: String, value: u32)
        ensures
            final(self).view_map() == or_insert(old(self).view_map(), name@, value),
    {
        if self.get(name.as_str()).is_none() {
            self.insert(name, value);
        }
    }

    /// The variables as names and values; a later entry for a name wins.
    pub fn entries(&self) -> (r: &Vec<(String, u32)>)
        ensures
            entries_map(r@) == self.view_map(),
    {
        &self.entries
    }
}

/// A map with a value for a key unless it had one.
pub open spec fn or_insert(m: Map<Seq<char>, u32>, k: Seq<char>, v: u32) -> Map<Seq<char>, u32> {
    if m.contains_key(k) {
        m
    } else {
        m.insert(k, v)
    }
}

/// The object variables after the declarations of a run of nodes created those missing:
/// number variable nodes with a name, and authorized plugin number variables with a name.
pub open spec fn initialized(
    m: Map<Seq<char>, u32>,
    nodes: Seq<BlueprintNode>,
    input: BlueprintInput,
) -> Map<Seq<char>, u32>
    decreases nodes.len(),
{
    if nodes.len() == 0 {
        m
    } else {
        let before = initialized(m, nodes.drop_last(), input);
        match nodes.last().kind {
            BlueprintNodeKind::NumberVariable { name, initial_value } => if is_blank(name@) {
                before
            } else {
                or_insert(before, name@, initial_value)
            },
            BlueprintNodeKind::PluginNode { plugin_id, node_type, behavior, variable_name, value, .. } =>
            if behavior == PluginBehavior::NumberVariable && input.plugin_authorizations.authorizes(
                plugin_id@,
                node_type@,
                PluginBehavior::NumberVariable,
            ) && !is_blank(variable_name@) {
                or_insert(before, variable_name@, value)
            } else {
                before
            },
            _ => before,
        }
    }
}

/// The global variables after the global declarations of a run of nodes created those
/// missing.
pub open spec fn globals_initialized(m: Map<Seq<char>, u32>, nodes: Seq<BlueprintNode>) -> Map<
    Seq<char>,
    u32,
>
    decreases nodes.len(),
{
    if nodes.len() == 0 {
        m
    } else {
        let before = globals_initialized(m, nodes.drop_last());
        match nodes.last().kind {
            BlueprintNodeKind::GlobalNumberVariable { name, initial_value } => if is_blank(name@) {
                before
            } else {
                or_insert(before, name@, initial_value)
            },
            _ => before,
        }
    }
}

/// Creates the object variables the nodes declare and the object does not have yet.
pub fn initialize_variables(
    variables: &mut VariableStore,
    nodes: &Vec<BlueprintNode>,
    input: &BlueprintInput,
)
    ensures
        final(variables).view_map() == initialized(old(variables).view_map(), nodes@, *input),
{
    let ghost start = variables.view_map();
    let mut i: usize = 0;
    while i < nodes.len()
        invariant
            i <= nodes@.len(),
            variables.view_map() == initialized(start, nodes@.take(i as int), *input),
        decreases nodes@.len() - i,
    {
        proof {
            assert(nodes@.take(i + 1).drop_last() =~= nodes@.take(i as int));
        }
        match &nodes[i].kind {
            BlueprintNodeKind::NumberVariable { name, initial_value } => {
                if !str_is_blank(name.as_str()) {
                    variables.insert_if_absent(name.clone(), *initial_value);
                }
            },
            BlueprintNodeKind::PluginNode { plugin_id, node_type, behavior, variable_name, value, .. } => {
                if *behavior == PluginBehavior::NumberVariable && input.plugin_node_is_authorized(
                    plugin_id.as_str(),
                    node_type.as_str(),
                    &PluginBehavior::NumberVariable,
                ) && !str_is_blank(variable_name.as_str()) {
                    variables.insert_if_absent(variable_name.clone(), *value);
                }
            },
            _ => {},
        }
        i = i + 1;
    }
    assert(nodes@.take(i as int) =~= nodes@);
}

/// Creates the global variables the nodes declare and the project does not have yet.
pub fn initialize_global_variables(variables: &mut VariableStore, nodes: &Vec<BlueprintNode>)
    ensures
        final(variables).view_map() == globals_initialized(old(variables).view_map(), nodes@),
{
    let ghost start = variables.view_map();
    let mut i: usize = 0;
    while i < nodes.len()
        invariant
            i <= nodes@.len(),
            variables.view_map() == globals_initialized(start, nodes@.take(i as int)),
        decreases nodes@.len() - i,
    {
        proof {
            assert(nodes@.take(i + 1).drop_last() =~= nodes@.take(i as int));
        }
        match &nodes[i].kind {
            BlueprintNodeKind::GlobalNumberVariable { name, initial_value } => {
                if !str_is_blank(name.as_str()) {
                    variables.insert_if_absent(name.clone(), *initial_value);
                }
            },
            _ => {},
        }
        i = i + 1;
    }
    assert(nodes@.take(i as int) =~= nodes@);
}

/// The data one actor or UI blueprint keeps between frames: its variables and the elapsed
/// time of each timer node (as `f32` bits), kept and advanced by the host.
pub struct BlueprintInstanceState {
    pub variables: VariableStore,
    pub timers: HashMap<u64, u32>,
}

impl BlueprintInstanceState {
    /// An instance with no variables and no running timer.
    pub fn new() -> (r: Self)
        ensures
            r.variables.view_map() == Map::<Seq<char>, u32>::empty(),
            r.timers@ == Map::<u64, u32>::empty(),
    {
        BlueprintInstanceState { variables: VariableStore::new(), timers: HashMap::new() }
    }
}

/// The code of the diagnostic reported when a frame runs too many nodes.
pub open spec fn limit_code() -> Seq<char> {
    "execution_limit_exceeded"@
}

/// Whether a list of diagnostics holds one with a code.
pub open spec fn has_code(diagnostics: Seq<DiagnosticView>, code: Seq<char>) -> bool {
    exists|i: int| 0 <= i < diagnostics.len() && (#[trigger] diagnostics[i]).1 == code
}

/// The runtime state of all blueprints: per-owner instances, compiled programs and the
/// diagnostics of their last compilation and execution.
pub struct BlueprintRuntimeState {
    instances: HashMap<u64, BlueprintInstanceState>,
    programs: HashMap<u64, BlueprintProgram>,
    diagnostics: HashMap<u64, Vec<BlueprintDiagnostic>>,
}

impl BlueprintRuntimeState {
    /// The instances by owner.
    pub closed spec fn instance_map(&self) -> Map<u64, BlueprintInstanceState> {
        self.instances@
    }

    /// The compiled programs by owner.
    pub closed spec fn program_map(&self) -> Map<u64, BlueprintProgram> {
        self.programs@
    }

    /// The diagnostics by owner.
    pub closed spec fn diagnostic_map(&self) -> Map<u64, Seq<DiagnosticView>> {
        self.diagnostics@.map_values(|d: Vec<BlueprintDiagnostic>| diagnostic_views(d@))
    }

    /// An empty runtime state.
    pub fn new() -> (r: Self)
        ensures
            r.instance_map() == Map::<u64, BlueprintInstanceState>::empty(),
            r.program_map() == Map::<u64, BlueprintProgram>::empty(),
            r.diagnostic_map() == Map::<u64, Seq<DiagnosticView>>::empty(),
    {
        let r = BlueprintRuntimeState {
            instances: HashMap::new(),
            programs: HashMap::new(),
            diagnostics: HashMap::new(),
        };
        assert(r.diagnostic_map() =~= Map::<u64, Seq<DiagnosticView>>::empty());
        r
    }

    /// The diagnostics of an owner's last compilation and execution; none for an unknown
    /// owner.
    pub fn diagnostics(&self, owner_id: u64) -> (r: &[BlueprintDiagnostic])
        ensures
            diagnostic_views(r@) == (if self.diagnostic_map().contains_key(owner_id) {
                self.diagnostic_map()[owner_id]
            } else {
                Seq::<DiagnosticView>::empty()
            }),
    {
        match self.diagnostics.get(&owner_id) {
            Some(d) => d.as_slice(),
            None => {
                let empty: &[BlueprintDiagnostic] = &[];
                assert(diagnostic_views(empty@) =~= Seq::<DiagnosticView>::empty());
                empty
            },
        }
    }

    /// The persistent variables of an owner; UI blueprints are read through this too.
    pub fn variables(&self, owner_id: u64) -> (r: Option<&VariableStore>)
        ensures
            match r {
                Some(v) => self.instance_map().contains_key(owner_id) && *v == self.instance_map()[owner_id].variables,
                None => !self.instance_map().contains_key(owner_id),
            },
    {
        match self.instances.get(&owner_id) {
            Some(instance) => Some(&instance.variables),
            None => None,
        }
    }

    /// Forgets everything a destroyed actor or UI element owned.
    pub fn remove_owner(&mut self, owner_id: u64)
        ensures
            final(self).instance_map() == old(self).instance_map().remove(owner_id),
            final(self).program_map() == old(self).program_map().remove(owner_id),
            final(self).diagnostic_map() == old(self).diagnostic_map().remove(owner_id),
    {
        self.instances.remove(&owner_id);
        self.programs.remove(&owner_id);
        self.diagnostics.remove(&owner_id);
        assert(self.diagnostic_map() =~= old(self).diagnostic_map().remove(owner_id));
    }

    /// The compiled program of an owner.
    pub fn program(&self, owner_id: u64) -> (r: Option<&BlueprintProgram>)
        ensures
            match r {
                Some(p) => self.program_map().contains_key(owner_id) && *p == self.program_map()[owner_id],
                None => !self.program_map().contains_key(owner_id),
            },
    {
        self.programs.get(&owner_id)
    }

    /// Stores an owner's freshly compiled program with the diagnostics of its validation.
    pub fn install_program(
        &mut self,
        owner_id: u64,
        program: BlueprintProgram,
        diagnostics: Vec<BlueprintDiagnostic>,
    )
        ensures
            final(self).program_map() == old(self).program_map().insert(owner_id, program),
            final(self).diagnostic_map() == old(self).diagnostic_map().insert(
                owner_id,
                diagnostic_views(diagnostics@),
            ),
            final(self).instance_map() == old(self).instance_map(),
    {
        self.programs.insert(owner_id, program);
        let ghost d = diagnostics@;
        self.diagnostics.insert(owner_id, diagnostics);
        assert(self.diagnostic_map() =~= old(self).diagnostic_map().insert(
            owner_id,
            diagnostic_views(d),
        ));
    }

    /// Takes an owner's instance out of the state, or a fresh one for a new owner; the host
    /// puts it back with `put_instance`.
    pub fn take_instance(&mut self, owner_id: u64) -> (r: BlueprintInstanceState)
        ensures
            old(self).instance_map().contains_key(owner_id) ==> r == old(self).instance_map()[owner_id],
            !old(self).instance_map().contains_key(owner_id) ==> r.variables.view_map() == Map::<
                Seq<char>,
                u32,
            >::empty() && r.timers@ == Map::<u64, u32>::empty(),
            final(self).instance_map() == old(self).instance_map().remove(owner_id),
            final(self).program_map() == old(self).program_map(),
            final(self).diagnostic_map() == old(self).diagnostic_map(),
    {
        match self.instances.remove(&owner_id) {
            Some(instance) => instance,
            None => BlueprintInstanceState::new(),
        }
    }

    /// Stores an owner's instance.
    pub fn put_instance(&mut self, owner_id: u64, instance: BlueprintInstanceState)
        ensures
            final(self).instance_map() == old(self).instance_map().insert(owner_id, instance),
            final(self).program_map() == old(self).program_map(),
            final(self).diagnostic_map() == old(self).diagnostic_map(),
    {
        self.instances.insert(owner_id, instance);
    }

    /// An owner's variables, empty when it has no instance yet.
    pub open spec fn owner_variables(&self, owner_id: u64) -> Map<Seq<char>, u32> {
        if self.instance_map().contains_key(owner_id) {
            self.instance_map()[owner_id].variables.view_map()
        } else {
            Map::<Seq<char>, u32>::empty()
        }
    }

    /// An owner's timers, empty when it has no instance yet.
    pub open spec fn owner_timers(&self, owner_id: u64) -> Map<u64, u32> {
        if self.instance_map().contains_key(owner_id) {
            self.instance_map()[owner_id].timers@
        } else {
            Map::<u64, u32>::empty()
        }
    }

    /// Prepares an owner's blueprint for a frame: when caching is off or the owner has no
    /// program yet, the blueprint is compiled and installed with its validation
    /// diagnostics, the owner's declared variables are created (existing values kept), and
    /// the project's declared globals likewise. Returns whether it compiled.
    pub fn prepare_owner(
        &mut self,
        owner_id: u64,
        blueprint: &Blueprint,
        input: &BlueprintInput,
        globals: &mut VariableStore,
    ) -> (compiled: bool)
        ensures
            compiled == (!input.blueprint_cache_enabled || !old(self).program_map().contains_key(
                owner_id,
            )),
            compiled ==> ({
                let after = *final(self);
                let before = *old(self);
                &&& after.program_map().contains_key(owner_id)
                &&& after.program_map()[owner_id].compiled_from(*blueprint)
                &&& after.program_map() == before.program_map().insert(
                    owner_id,
                    after.program_map()[owner_id],
                )
                &&& after.diagnostic_map() == before.diagnostic_map().insert(
                    owner_id,
                    validation_diagnostics(*blueprint),
                )
                &&& after.instance_map().contains_key(owner_id)
                &&& after.owner_variables(owner_id) == initialized(
                    before.owner_variables(owner_id),
                    blueprint.nodes@,
                    *input,
                )
                &&& after.owner_timers(owner_id) == before.owner_timers(owner_id)
                &&& after.instance_map().remove(owner_id) == before.instance_map().remove(owner_id)
                &&& final(globals).view_map() == globals_initialized(
                    old(globals).view_map(),
                    blueprint.nodes@,
                )
            }),
            !compiled ==> (*final(self) == *old(self) && final(globals).view_map() == old(
                globals,
            ).view_map()),
    {
        let is_new = !input.blueprint_cache_enabled || self.program(owner_id).is_none();
        if !is_new {
            return false;
        }
        let (program, diagnostics) = BlueprintProgram::compile(blueprint);
        self.install_program(owner_id, program, diagnostics);
        let mut instance = self.take_instance(owner_id);
        initialize_variables(&mut instance.variables, &blueprint.nodes, input);
        self.put_instance(owner_id, instance);
        initialize_global_variables(globals, &blueprint.nodes);
        proof {
            assert(self.instance_map().remove(owner_id) =~= old(self).instance_map().remove(owner_id));
        }
        true
    }

    /// Records that a frame of an owner's blueprint ran past the step limit at a node; the
    /// diagnostic is recorded once per owner, however many frames overrun.
    pub fn report_limit_exceeded(&mut self, owner_id: u64, node_id: u64)
        ensures
            ({
                let before = if old(self).diagnostic_map().contains_key(owner_id) {
                    old(self).diagnostic_map()[owner_id]
                } else {
                    Seq::<DiagnosticView>::empty()
                };
                final(self).diagnostic_map() == old(self).diagnostic_map().insert(
                    owner_id,
                    if has_code(before, limit_code()) {
                        before
                    } else {
                        before.push(
                            (
                                Severity::Error,
                                limit_code(),
                                "单帧蓝图执行超过1024步，执行已中止"@,
                                Some(node_id),
                            ),
                        )
                    },
                )
            }),
            final(self).instance_map() == old(self).instance_map(),
            final(self).program_map() == old(self).program_map(),
    {
        let mut list: Vec<BlueprintDiagnostic> = match self.diagnostics.remove(&owner_id) {
            Some(d) => d,
            None => Vec::new(),
        };
        let ghost before = diagnostic_views(list@);
        assert(before == (if old(self).diagnostic_map().contains_key(owner_id) {
            old(self).diagnostic_map()[owner_id]
        } else {
            Seq::<DiagnosticView>::empty()
        }));
        let mut found = false;
        let mut i: usize = 0;
        while i < list.len()
            invariant
                i <= list@.len(),
                before == diagnostic_views(list@),
                found == exists|j: int| 0 <= j < i && (#[trigger] before[j]).1 == limit_code(),
            decreases list@.len() - i,
        {
            if str_eq(list[i].code.as_str(), "execution_limit_exceeded") {
                found = true;
            }
            assert(before[i as int].1 == list@[i as int].code@);
            i = i + 1;
        }
        if !found {
            let message = string_from_chars(&chars_of("单帧蓝图执行超过1024步，执行已中止"));
            let d = BlueprintDiagnostic::new(
                Severity::Error,
                "execution_limit_exceeded",
                message,
                Some(node_id),
            );
            list.push(d);
            assert(diagnostic_views(list@) =~= before.push(d.view_of()));
        }
        let ghost after = diagnostic_views(list@);
        self.diagnostics.insert(owner_id, list);
        assert(self.diagnostic_map() =~= old(self).diagnostic_map().insert(owner_id, after));
    }
}

/// Initializing variables never changes a variable the object already has.
pub proof fn law_initialization_keeps_values(
    m: Map<Seq<char>, u32>,
    nodes: Seq<BlueprintNode>,
    input: BlueprintInput,
    name: Seq<char>,
)
    requires
        m.contains_key(name),
    ensures
        initialized(m, nodes, input).contains_key(name),
        initialized(m, nodes, input)[name] == m[name],
    decreases nodes.len(),
{
    if nodes.len() > 0 {
        law_initialization_keeps_values(m, nodes.drop_last(), input, name);
    }
}

/// Initializing global variables never changes a global the project already has.
pub proof fn law_global_initialization_keeps_values(
    m: Map<Seq<char>, u32>,
    nodes: Seq<BlueprintNode>,
    name: Seq<char>,
)
    requires
        m.contains_key(name),
    ensures
        globals_initialized(m, nodes).contains_key(name),
        globals_initialized(m, nodes)[name] == m[name],
    decreases nodes.len(),
{
    if nodes.len() > 0 {
        law_global_initialization_keeps_values(m, nodes.drop_last(), name);
    }
}

/// The diagnostic list after an overrun is reported.
pub open spec fn after_limit_report(before: Seq<DiagnosticView>, node_id: u64) -> Seq<DiagnosticView> {
    if has_code(before, limit_code()) {
        before
    } else {
        before.push(
            (Severity::Error, limit_code(), "单帧蓝图执行超过1024步，执行已中止"@, Some(node_id)),
        )
    }
}

/// Reporting an overrun again, at any node, changes nothing: the limit diagnostic is
/// recorded once.
pub proof fn law_limit_reported_once(before: Seq<DiagnosticView>, first: u64, second: u64)
    ensures
        after_limit_report(after_limit_report(before, first), second) == after_limit_report(
            before,
            first,
        ),
{
    let once = after_limit_report(before, first);
    if !has_code(before, limit_code()) {
        assert(once[once.len() - 1].1 == limit_code());
    }
}

} // verus!
