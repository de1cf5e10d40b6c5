//! The blueprint virtual machine's verified core: the per-frame input state, compiled
//! programs, event activation, sleeping, and the bounded execution stack of one frame.
//!
//! Number values (variables, positions, timers) are `f32` in the engine; the machine only
//! carries their IEEE-754 bits and leaves the arithmetic on them to the host.

use crate::blueprint::model::{
    canonical_key, canonical_key_name, diagnostic_views, Blueprint, BlueprintConnection,
    BlueprintDiagnostic, BlueprintNode, BlueprintNodeKind, DiagnosticView,
};
use crate::blueprint::validation::{event_ids, last_index, lemma_last_index, validation_diagnostics};
use crate::plugins::{
    PluginAuthorizationMap, PluginBehavior, PluginNodeCategory, PluginRegistry, InstalledPlugin,
    PluginNodeDefinition,
};
use crate::text::{clone_string, str_eq};
use std::collections::HashMap;
use std::collections::HashSet;
use vstd::prelude::*;

verus! {

broadcast use {vstd::string::group_string_axioms, vstd::std_specs::hash::group_hash_axioms};

/// The input state the machine reads during one frame.
pub struct BlueprintInput {
    /// The standard names of the keys held down; a name may occur more than once.
    pub pressed_keys: Vec<String>,
    pub collision_objects: HashSet<u64>,
    /// The tile id under each object.
    pub tiles_under_objects: HashMap<u64, i32>,
    pub clicked_ui_ids: HashSet<u64>,
    pub clicked_object_ids: HashSet<u64>,
    pub scene_just_loaded: bool,
    /// Plugin node authorizations, built only from a validated registry.
    pub plugin_authorizations: PluginAuthorizationMap,
    /// The actors inside the active viewport and its margin.
    pub active_object_ids: HashSet<u64>,
    /// Whether blueprints that only react to outside events may sleep outside the viewport.
    pub dormant_blueprints_enabled: bool,
    /// Whether compiled programs and variable initialization are cached.
    pub blueprint_cache_enabled: bool,
}

/// Whether a list of key names holds a name.
pub open spec fn holds_key(keys: Seq<String>, key: Seq<char>) -> bool {
    exists|i: int| 0 <= i < keys.len() && #[trigger] keys[i]@ == key
}

impl BlueprintInput {
    /// The set of keys held down.
    pub open spec fn pressed(&self) -> Set<Seq<char>> {
        Set::new(|k: Seq<char>| holds_key(self.pressed_keys@, k))
    }

    /// Creates an input state with no key held, nothing clicked or colliding, the scene
    /// just loaded, no plugin authorized, sleeping off and caching on.
    pub fn new() -> (r: Self)
        ensures
            r.pressed_keys@.len() == 0,
            r.collision_objects@ == Set::<u64>::empty(),
            r.tiles_under_objects@ == Map::<u64, i32>::empty(),
            r.clicked_ui_ids@ == Set::<u64>::empty(),
            r.clicked_object_ids@ == Set::<u64>::empty(),
            r.scene_just_loaded,
            r.plugin_authorizations.id_seq().len() == 0,
            r.active_object_ids@ == Set::<u64>::empty(),
            !r.dormant_blueprints_enabled,
            r.blueprint_cache_enabled,
    {
        BlueprintInput {
            pressed_keys: Vec::new(),
            collision_objects: HashSet::new(),
            tiles_under_objects: HashMap::new(),
            clicked_ui_ids: HashSet::new(),
            clicked_object_ids: HashSet::new(),
            scene_just_loaded: true,
            plugin_authorizations: PluginAuthorizationMap::new(),
            active_object_ids: HashSet::new(),
            dormant_blueprints_enabled: false,
            blueprint_cache_enabled: true,
        }
    }

    /// Replaces the plugin authorizations with those of a validated registry; an empty
    /// registry authorizes no plugin node.
    pub fn authorize_plugins(&mut self, registry: &PluginRegistry)
        ensures
            final(self).plugin_authorizations.id_seq() == PluginRegistry::active_plugins(
                registry.installed@,
            ).map_values(|p: InstalledPlugin| p.manifest.plugin_id@),
            forall|i: int|
                0 <= i < final(self).plugin_authorizations.id_seq().len() ==> {
                    let p = #[trigger] PluginRegistry::active_plugins(registry.installed@)[i];
                    &&& final(self).plugin_authorizations.authorization_at(i).capability_seq()
                        == p.manifest.runtime_capabilities@
                    &&& final(self).plugin_authorizations.authorization_at(i).node_seq()
                        == p.manifest.nodes@.map_values(
                        |n: PluginNodeDefinition| (n.node_type@, n.behavior),
                    )
                },
            final(self).pressed_keys == old(self).pressed_keys,
            final(self).collision_objects == old(self).collision_objects,
            final(self).tiles_under_objects == old(self).tiles_under_objects,
            final(self).clicked_ui_ids == old(self).clicked_ui_ids,
            final(self).clicked_object_ids == old(self).clicked_object_ids,
            final(self).scene_just_loaded == old(self).scene_just_loaded,
            final(self).active_object_ids == old(self).active_object_ids,
            final(self).dormant_blueprints_enabled == old(self).dormant_blueprints_enabled,
            final(self).blueprint_cache_enabled == old(self).blueprint_cache_enabled,
    {
        self.plugin_authorizations = registry.runtime_authorizations();
    }

    /// Whether a plugin node may run: its plugin is authorized and allows the node type with
    /// exactly this behavior, and the behavior is a declared capability.
    pub fn plugin_node_is_authorized(
        &self,
        plugin_id: &str,
        node_type: &str,
        behavior: &PluginBehavior,
    ) -> (r: bool)
        ensures
            r == self.plugin_authorizations.authorizes(plugin_id@, node_type@, *behavior),
    {
        match self.plugin_authorizations.get(plugin_id) {
            Some(authorization) => authorization.allows(node_type, behavior),
            None => false,
        }
    }

    /// Marks a physical key as held down or released.
    pub fn set_key_down(&mut self, key_name: String, is_down: bool)
        ensures
            final(self).pressed() == if is_down {
                old(self).pressed().insert(key_name@)
            } else {
                old(self).pressed().remove(key_name@)
            },
            final(self).collision_objects == old(self).collision_objects,
            final(self).tiles_under_objects == old(self).tiles_under_objects,
            final(self).clicked_ui_ids == old(self).clicked_ui_ids,
            final(self).clicked_object_ids == old(self).clicked_object_ids,
            final(self).scene_just_loaded == old(self).scene_just_loaded,
            final(self).plugin_authorizations == old(self).plugin_authorizations,
            final(self).active_object_ids == old(self).active_object_ids,
            final(self).dormant_blueprints_enabled == old(self).dormant_blueprints_enabled,
            final(self).blueprint_cache_enabled == old(self).blueprint_cache_enabled,
    {
        let ghost before = self.pressed_keys@;
        if is_down {
            let held = self.holds(key_name.as_str());
            if !held {
                self.pressed_keys.push(key_name);
            }
            proof {
                assert forall|k: Seq<char>| holds_key(self.pressed_keys@, k) <==> (holds_key(
                    before,
                    k,
                ) || k == key_name@) by {
                    if holds_key(before, k) {
                        let i = choose|i: int| 0 <= i < before.len() && #[trigger] before[i]@ == k;
                        assert(self.pressed_keys@[i]@ == k);
                    }
                    if k == key_name@ && !held {
                        assert(self.pressed_keys@[before.len() as int]@ == k);
                    }
                    if holds_key(self.pressed_keys@, k) && !holds_key(before, k) {
                        let i = choose|i: int|
                            0 <= i < self.pressed_keys@.len() && #[trigger] self.pressed_keys@[i]@
                                == k;
                        if i < before.len() {
                            assert(before[i]@ == k);
                        }
                    }
                }
                assert(self.pressed() =~= Set::new(|k: Seq<char>| holds_key(before, k)).insert(
                    key_name@,
                ));
            }
        } else {
            let mut kept: Vec<String> = Vec::new();
            let mut i: usize = 0;
            while i < self.pressed_keys.len()
                invariant
                    i <= self.pressed_keys@.len(),
                    self.pressed_keys@ == before,
                    forall|k: Seq<char>|
                        holds_key(kept@, k) <==> (k != key_name@ && exists|j: int|
                            0 <= j < i && #[trigger] before[j]@ == k),
                decreases self.pressed_keys@.len() - i,
            {
                if !str_eq(self.pressed_keys[i].as_str(), key_name.as_str()) {
                    let name = clone_string(&self.pressed_keys[i]);
                    let ghost prev = kept@;
                    kept.push(name);
                    proof {
                        assert(name@ == before[i as int]@);
                        assert(before[i as int]@ != key_name@);
                        assert forall|k: Seq<char>| holds_key(kept@, k) <==> (k != key_name@
                            && exists|j: int| 0 <= j < i + 1 && #[trigger] before[j]@ == k) by {
                            if holds_key(kept@, k) {
                                let m = choose|m: int| 0 <= m < kept@.len() && #[trigger] kept@[m]@ == k;
                                if m < prev.len() {
                                    assert(prev[m]@ == k);
                                    assert(holds_key(prev, k));
                                    let j = choose|j: int| 0 <= j < i && #[trigger] before[j]@ == k;
                                    assert(before[j]@ == k);
                                } else {
                                    assert(kept@[m] == name);
                                    assert(before[i as int]@ == k);
                                }
                            }
                            if k != key_name@ && exists|j: int|
                                0 <= j < i + 1 && #[trigger] before[j]@ == k {
                                let j = choose|j: int| 0 <= j < i + 1 && #[trigger] before[j]@ == k;
                                if j < i {
                                    assert(before[j]@ == k);
                                    assert(holds_key(prev, k));
                                    let m = choose|m: int| 0 <= m < prev.len() && #[trigger] prev[m]@ == k;
                                    assert(kept@[m]@ == k);
                                } else {
                                    assert(kept@[prev.len() as int]@ == k);
                                }
                            }
                        }
                    }
                } else {
                    proof {
                        assert forall|k: Seq<char>| holds_key(kept@, k) <==> (k != key_name@
                            && exists|j: int| 0 <= j < i + 1 && #[trigger] before[j]@ == k) by {
                            if k != key_name@ && exists|j: int|
                                0 <= j < i + 1 && #[trigger] before[j]@ == k {
                                let j = choose|j: int| 0 <= j < i + 1 && #[trigger] before[j]@ == k;
                                assert(j < i);
                            }
                        }
                    }
                }
                i = i + 1;
            }
            self.pressed_keys = kept;
            proof {
                assert(self.pressed() =~= Set::new(|k: Seq<char>| holds_key(before, k)).remove(
                    key_name@,
                ));
            }
        }
    }

    /// Whether a key name is in the list of held keys.
    fn holds(&self, key: &str) -> (r: bool)
        ensures
            r == holds_key(self.pressed_keys@, key@),
    {
        let mut i: usize = 0;
        while i < self.pressed_keys.len()
            invariant
                i <= self.pressed_keys@.len(),
                forall|j: int| 0 <= j < i ==> #[trigger] self.pressed_keys@[j]@ != key@,
            decreases self.pressed_keys@.len() - i,
        {
            if str_eq(self.pressed_keys[i].as_str(), key) {
                return true;
            }
            i = i + 1;
        }
        false
    }

    /// Releases every key and forgets collisions, tiles and clicks, so that no key stays
    /// stuck after the window loses focus.
    pub fn clear(&mut self)
        ensures
            final(self).pressed() == Set::<Seq<char>>::empty(),
            final(self).collision_objects@ == Set::<u64>::empty(),
            final(self).tiles_under_objects@ == Map::<u64, i32>::empty(),
            final(self).clicked_ui_ids@ == Set::<u64>::empty(),
            final(self).clicked_object_ids@ == Set::<u64>::empty(),
            final(self).scene_just_loaded == old(self).scene_just_loaded,
            final(self).plugin_authorizations == old(self).plugin_authorizations,
            final(self).active_object_ids == old(self).active_object_ids,
            final(self).dormant_blueprints_enabled == old(self).dormant_blueprints_enabled,
            final(self).blueprint_cache_enabled == old(self).blueprint_cache_enabled,
    {
        self.pressed_keys = Vec::new();
        self.collision_objects.clear();
        self.tiles_under_objects.clear();
        self.clicked_ui_ids.clear();
        self.clicked_object_ids.clear();
        assert(self.pressed() =~= Set::<Seq<char>>::empty());
    }

    /// Whether the key a blueprint names is held down; shorthand names are read as their
    /// standard form.
    pub fn is_key_down(&self, key_name: &str) -> (r: bool)
        ensures
            r == self.pressed().contains(canonical_key(key_name@)),
    {
        let canonical = canonical_key_name(key_name);
        self.holds(canonical.as_str())
    }

    /// Sets the objects that started colliding this frame.
    pub fn set_collision_objects(&mut self, objects: HashSet<u64>)
        ensures
            final(self).collision_objects@ == objects@,
            final(self).pressed_keys == old(self).pressed_keys,
            final(self).tiles_under_objects == old(self).tiles_under_objects,
            final(self).clicked_ui_ids == old(self).clicked_ui_ids,
            final(self).clicked_object_ids == old(self).clicked_object_ids,
            final(self).scene_just_loaded == old(self).scene_just_loaded,
            final(self).plugin_authorizations == old(self).plugin_authorizations,
            final(self).active_object_ids == old(self).active_object_ids,
            final(self).dormant_blueprints_enabled == old(self).dormant_blueprints_enabled,
            final(self).blueprint_cache_enabled == old(self).blueprint_cache_enabled,
    {
        self.collision_objects = objects;
    }

    /// Sets the tile id under each object; the host uses -1 where there is none.
    pub fn set_tiles_under_objects(&mut self, tiles: HashMap<u64, i32>)
        ensures
            final(self).tiles_under_objects@ == tiles@,
            final(self).pressed_keys == old(self).pressed_keys,
            final(self).collision_objects == old(self).collision_objects,
            final(self).clicked_ui_ids == old(self).clicked_ui_ids,
            final(self).clicked_object_ids == old(self).clicked_object_ids,
            final(self).scene_just_loaded == old(self).scene_just_loaded,
            final(self).plugin_authorizations == old(self).plugin_authorizations,
            final(self).active_object_ids == old(self).active_object_ids,
            final(self).dormant_blueprints_enabled == old(self).dormant_blueprints_enabled,
            final(self).blueprint_cache_enabled == old(self).blueprint_cache_enabled,
    {
        self.tiles_under_objects = tiles;
    }

    /// Sets the UI buttons clicked this frame.
    pub fn set_clicked_ui_ids(&mut self, clicked: HashSet<u64>)
        ensures
            final(self).clicked_ui_ids@ == clicked@,
            final(self).pressed_keys == old(self).pressed_keys,
            final(self).collision_objects == old(self).collision_objects,
            final(self).tiles_under_objects == old(self).tiles_under_objects,
            final(self).clicked_object_ids == old(self).clicked_object_ids,
            final(self).scene_just_loaded == old(self).scene_just_loaded,
            final(self).plugin_authorizations == old(self).plugin_authorizations,
            final(self).active_object_ids == old(self).active_object_ids,
            final(self).dormant_blueprints_enabled == old(self).dormant_blueprints_enabled,
            final(self).blueprint_cache_enabled == old(self).blueprint_cache_enabled,
    {
        self.clicked_ui_ids = clicked;
    }

    /// Sets the objects the mouse clicked this frame.
    pub fn set_clicked_object_ids(&mut self, clicked: HashSet<u64>)
        ensures
            final(self).clicked_object_ids@ == clicked@,
            final(self).pressed_keys == old(self).pressed_keys,
            final(self).collision_objects == old(self).collision_objects,
            final(self).tiles_under_objects == old(self).tiles_under_objects,
            final(self).clicked_ui_ids == old(self).clicked_ui_ids,
            final(self).scene_just_loaded == old(self).scene_just_loaded,
            final(self).plugin_authorizations == old(self).plugin_authorizations,
            final(self).active_object_ids == old(self).active_object_ids,
            final(self).dormant_blueprints_enabled == old(self).dormant_blueprints_enabled,
            final(self).blueprint_cache_enabled == old(self).blueprint_cache_enabled,
    {
        self.clicked_object_ids = clicked;
    }
}

/// Maps a scene UI element id to a blueprint owner id kept apart from actor ids.
pub fn ui_blueprint_owner_id(ui_id: u64) -> (r: u64)
    ensures
        r == u64::MAX - ui_id,
{
    u64::MAX - ui_id
}

/// The targets of the connections leaving a node's port, in connection order.
pub open spec fn port_targets(connections: Seq<BlueprintConnection>, id: u64, port: u8) -> Seq<u64>
    decreases connections.len(),
{
    if connections.len() == 0 {
        seq![]
    } else {
        let c = connections.last();
        port_targets(connections.drop_last(), id, port) + if c.from_node_id == id && c.from_port
            == port {
            seq![c.to_node_id]
        } else {
            seq![]
        }
    }
}

/// The ports and targets of the connections leaving a node, in connection order.
pub open spec fn departures(connections: Seq<BlueprintConnection>, id: u64) -> Seq<(u8, u64)>
    decreases connections.len(),
{
    if connections.len() == 0 {
        seq![]
    } else {
        let c = connections.last();
        departures(connections.drop_last(), id) + if c.from_node_id == id {
            seq![(c.from_port, c.to_node_id)]
        } else {
            seq![]
        }
    }
}

/// The targets of the pairs on a port, in order.
pub open spec fn on_port(pairs: Seq<(u8, u64)>, port: u8) -> Seq<u64>
    decreases pairs.len(),
{
    if pairs.len() == 0 {
        seq![]
    } else {
        on_port(pairs.drop_last(), port) + if pairs.last().0 == port {
            seq![pairs.last().1]
        } else {
            seq![]
        }
    }
}

/// Selecting a port from a node's departures gives the targets of that port.
proof fn lemma_departures(connections: Seq<BlueprintConnection>, id: u64, port: u8)
    ensures
        on_port(departures(connections, id), port) == port_targets(connections, id, port),
    decreases connections.len(),
{
    if connections.len() > 0 {
        let c = connections.last();
        let prev = departures(connections.drop_last(), id);
        lemma_departures(connections.drop_last(), id, port);
        if c.from_node_id == id {
            let d = departures(connections, id);
            assert(d.drop_last() =~= prev);
        } else {
            assert(departures(connections, id) =~= prev);
        }
    }
}

/// A read-only execution plan of a blueprint: its event nodes, the index of each node id,
/// and the connections leaving each node, so that no frame scans the whole graph again.
#[derive(Clone)]
pub struct BlueprintProgram {
    event_node_ids: Vec<u64>,
    node_indices: HashMap<u64, usize>,
    outgoing: HashMap<u64, Vec<(u8, u64)>>,
}

impl BlueprintProgram {
    /// The ids of the event nodes, in node order.
    pub closed spec fn events(&self) -> Seq<u64> {
        self.event_node_ids@
    }

    /// The node index of each id.
    pub closed spec fn indices(&self) -> Map<u64, usize> {
        self.node_indices@
    }

    /// The targets of a node's port, in connection order.
    pub closed spec fn successors(&self, id: u64, port: u8) -> Seq<u64> {
        if self.outgoing@.contains_key(id) {
            on_port(self.outgoing@[id]@, port)
        } else {
            seq![]
        }
    }

    /// Whether the plan was compiled from a blueprint: the events are its event nodes, each
    /// id maps to the last node carrying it, and each port leads to the targets of its
    /// connections.
    pub open spec fn compiled_from(&self, b: Blueprint) -> bool {
        &&& self.events() == event_ids(b.nodes@)
        &&& forall|id: u64| #[trigger]
            self.indices().contains_key(id) <==> last_index(b.nodes@, id) >= 0
        &&& forall|id: u64| #[trigger]
            self.indices().contains_key(id) ==> self.indices()[id] == last_index(b.nodes@, id)
        &&& forall|id: u64, port: u8| #[trigger]
            self.successors(id, port) == port_targets(b.connections@, id, port)
    }

    /// Compiles a blueprint into lookup tables, keeping the execution order, and validates it.
    pub fn compile(blueprint: &Blueprint) -> (r: (Self, Vec<BlueprintDiagnostic>))
        ensures
            r.0.compiled_from(*blueprint),
            diagnostic_views(r.1@) == validation_diagnostics(*blueprint),
    {
        let nodes = &blueprint.nodes;
        let event_node_ids = crate::blueprint::validation::collect_event_ids(nodes);
        let mut node_indices: HashMap<u64, usize> = HashMap::new();
        let mut i: usize = 0;
        while i < nodes.len()
            invariant
                i <= nodes@.len(),
                forall|id: u64| #[trigger]
                    node_indices@.contains_key(id) <==> last_index(nodes@.take(i as int), id) >= 0,
                forall|id: u64| #[trigger]
                    node_indices@.contains_key(id) ==> node_indices@[id] == last_index(
                        nodes@.take(i as int),
                        id,
                    ),
            decreases nodes@.len() - i,
        {
            proof {
                assert(nodes@.take(i + 1).drop_last() =~= nodes@.take(i as int));
            }
            node_indices.insert(nodes[i].id, i);
            i = i + 1;
        }
        assert(nodes@.take(i as int) =~= nodes@);
        let connections = &blueprint.connections;
        let mut outgoing: HashMap<u64, Vec<(u8, u64)>> = HashMap::new();
        let mut k: usize = 0;
        while k < connections.len()
            invariant
                k <= connections@.len(),
                forall|id: u64| #[trigger]
                    outgoing@.contains_key(id) <==> departures(connections@.take(k as int), id).len()
                        > 0,
                forall|id: u64| #[trigger]
                    outgoing@.contains_key(id) ==> outgoing@[id]@ == departures(
                        connections@.take(k as int),
                        id,
                    ),
            decreases connections@.len() - k,
        {
            let c = connections[k];
            proof {
                assert(connections@.take(k + 1).drop_last() =~= connections@.take(k as int));
                assert(connections@.take(k + 1).last() == c);
            }
            let ghost before = outgoing@;
            let existing = outgoing.remove(&c.from_node_id);
            match existing {
                Some(mut pairs) => {
                    pairs.push((c.from_port, c.to_node_id));
                    outgoing.insert(c.from_node_id, pairs);
                },
                None => {
                    let mut pairs: Vec<(u8, u64)> = Vec::new();
                    pairs.push((c.from_port, c.to_node_id));
                    outgoing.insert(c.from_node_id, pairs);
                },
            }
            proof {
                assert forall|id: u64| #[trigger] outgoing@.contains_key(id) <==> departures(
                    connections@.take(k + 1),
                    id,
                ).len() > 0 by {
                    if id != c.from_node_id {
                        assert(before.contains_key(id) == outgoing@.contains_key(id));
                    }
                }
                assert forall|id: u64| #[trigger] outgoing@.contains_key(id) implies outgoing@[id]@
                    == departures(connections@.take(k + 1), id) by {
                    if id == c.from_node_id {
                        if before.contains_key(id) {
                            assert(outgoing@[id]@ =~= departures(connections@.take(k + 1), id));
                        } else {
                            assert(departures(connections@.take(k as int), id).len() == 0);
                            assert(outgoing@[id]@ =~= departures(connections@.take(k + 1), id));
                        }
                    }
                }
            }
            k = k + 1;
        }
        assert(connections@.take(k as int) =~= connections@);
        let program = BlueprintProgram { event_node_ids, node_indices, outgoing };
        proof {
            assert forall|id: u64, port: u8| #[trigger]
                program.successors(id, port) == port_targets(connections@, id, port) by {
                lemma_departures(connections@, id, port);
                if !program.outgoing@.contains_key(id) {
                    assert(departures(connections@, id) =~= Seq::<(u8, u64)>::empty());
                }
            }
        }
        (program, blueprint.validate())
    }

    /// The ids of the event nodes, in node order.
    pub fn event_node_ids(&self) -> (r: &Vec<u64>)
        ensures
            r@ == self.events(),
    {
        &self.event_node_ids
    }

    /// The index of the node that carries an id.
    pub fn node_index(&self, node_id: u64) -> (r: Option<usize>)
        ensures
            match r {
                Some(i) => self.indices().contains_key(node_id) && i == self.indices()[node_id],
                None => !self.indices().contains_key(node_id),
            },
    {
        match self.node_indices.get(&node_id) {
            Some(i) => Some(*i),
            None => None,
        }
    }

    /// The successors of a node's port in the order the execution stack runs them: the
    /// last connection first.
    pub fn outgoing_nodes(&self, node_id: u64, port: u8) -> (r: Vec<u64>)
        ensures
            r@ == self.successors(node_id, port).reverse(),
    {
        let mut picked: Vec<u64> = Vec::new();
        match self.outgoing.get(&node_id) {
            Some(pairs) => {
                let mut i: usize = 0;
                while i < pairs.len()
                    invariant
                        i <= pairs@.len(),
                        picked@ == on_port(pairs@.take(i as int), port),
                    decreases pairs@.len() - i,
                {
                    assert(pairs@.take(i + 1).drop_last() =~= pairs@.take(i as int));
                    if pairs[i].0 == port {
                        picked.push(pairs[i].1);
                    }
                    i = i + 1;
                    assert(picked@ =~= on_port(pairs@.take(i as int), port));
                }
                assert(pairs@.take(i as int) =~= pairs@);
            },
            None => {
                assert(picked@ =~= self.successors(node_id, port));
            },
        }
        let mut r: Vec<u64> = Vec::new();
        let mut j: usize = picked.len();
        while j > 0
            invariant
                j <= picked@.len(),
                r@ == picked@.reverse().take(picked@.len() - j),
            decreases j,
        {
            j = j - 1;
            r.push(picked[j]);
            proof {
                let n = picked@.len() - j;
                assert(picked@.reverse().take(n) =~= picked@.reverse().take(n - 1).push(
                    picked@[j as int],
                ));
            }
        }
        assert(picked@.reverse().take(picked@.len() as int) =~= picked@.reverse());
        r
    }
}

/// The number of nodes one frame of one blueprint may run before execution stops.
pub const EXECUTION_STEP_LIMIT: u32 = 1024;

/// What the execution stack asks the host to do next.
#[derive(Clone, Copy, PartialEq, Eq, Structural, Debug)]
pub enum ExecutionStep {
    /// The stack is empty: the frame's execution is over.
    Finished,
    /// More nodes than the limit were popped; execution stopped at this node.
    LimitExceeded { node_id: u64 },
    /// Run the node with this id, found at this index of the blueprint's nodes.
    Run { node_id: u64, node_index: usize },
}

/// The outcome of popping the stack: the step, the stack left and the steps counted. Nodes
/// whose id is not in the plan, or whose index is past the node list, are counted and
/// skipped.
pub open spec fn step_result(
    stack: Seq<u64>,
    steps: nat,
    indices: Map<u64, usize>,
    node_count: nat,
) -> (ExecutionStep, Seq<u64>, nat)
    decreases stack.len(),
{
    if stack.len() == 0 {
        (ExecutionStep::Finished, stack, steps)
    } else {
        let id = stack.last();
        if steps + 1 > EXECUTION_STEP_LIMIT {
            (ExecutionStep::LimitExceeded { node_id: id }, Seq::empty(), steps + 1)
        } else if indices.contains_key(id) && indices[id] < node_count {
            (
                ExecutionStep::Run { node_id: id, node_index: indices[id] },
                stack.drop_last(),
                steps + 1,
            )
        } else {
            step_result(stack.drop_last(), steps + 1, indices, node_count)
        }
    }
}

/// The execution stack of one blueprint during one frame.
pub struct FrameExecution {
    stack: Vec<u64>,
    steps: u32,
}

impl FrameExecution {
    /// The node ids waiting to run; the last one runs first.
    pub closed spec fn pending(&self) -> Seq<u64> {
        self.stack@
    }

    /// The number of nodes popped so far.
    pub closed spec fn executed(&self) -> nat {
        self.steps as nat
    }

    /// The count never passes the limit by more than the one node that stopped execution,
    /// and nothing is pending once it did.
    pub open spec fn wf(&self) -> bool {
        &&& self.executed() <= EXECUTION_STEP_LIMIT + 1
        &&& self.executed() > EXECUTION_STEP_LIMIT ==> self.pending().len() == 0
    }

    /// An empty stack with no node run.
    pub fn new() -> (r: Self)
        ensures
            r.wf(),
            r.pending() == Seq::<u64>::empty(),
            r.executed() == 0,
    {
        FrameExecution { stack: Vec::new(), steps: 0 }
    }

    /// Pushes the successors of a node's port, so that they run first connection first;
    /// once execution stopped at the limit nothing more is scheduled.
    pub fn schedule(&mut self, program: &BlueprintProgram, node_id: u64, port: u8)
        requires
            old(self).wf(),
        ensures
            final(self).wf(),
            final(self).executed() == old(self).executed(),
            final(self).pending() == if old(self).executed() > EXECUTION_STEP_LIMIT {
                old(self).pending()
            } else {
                old(self).pending() + program.successors(node_id, port).reverse()
            },
    {
        if self.steps > EXECUTION_STEP_LIMIT {
            return ;
        }
        let next = program.outgoing_nodes(node_id, port);
        let ghost start = self.stack@;
        let ghost start_steps = self.steps;
        let mut i: usize = 0;
        while i < next.len()
            invariant
                i <= next@.len(),
                self.steps == start_steps,
                self.steps <= EXECUTION_STEP_LIMIT,
                self.stack@ == start + next@.take(i as int),
            decreases next@.len() - i,
        {
            self.stack.push(next[i]);
            assert(next@.take(i + 1) =~= next@.take(i as int).push(next@[i as int]));
            i = i + 1;
        }
        assert(next@.take(i as int) =~= next@);
    }

    /// Pops the next node to run, skipping ids the plan does not know; stops with
    /// `LimitExceeded` when the node popped would pass the step limit.
    pub fn next(&mut self, program: &BlueprintProgram, node_count: usize) -> (r: ExecutionStep)
        requires
            old(self).wf(),
        ensures
            final(self).wf(),
            (r, final(self).pending(), final(self).executed()) == step_result(
                old(self).pending(),
                old(self).executed(),
                program.indices(),
                node_count as nat,
            ),
    {
        loop
            invariant
                self.wf(),
                step_result(self.pending(), self.executed(), program.indices(), node_count as nat)
                    == step_result(
                    old(self).pending(),
                    old(self).executed(),
                    program.indices(),
                    node_count as nat,
                ),
            decreases self.stack@.len(),
        {
            if self.stack.len() == 0 {
                return ExecutionStep::Finished;
            }
            let node_id = self.stack.pop().unwrap();
            self.steps = self.steps + 1;
            if self.steps > EXECUTION_STEP_LIMIT {
                self.stack = Vec::new();
                return ExecutionStep::LimitExceeded { node_id };
            }
            match program.node_index(node_id) {
                Some(index) => {
                    if index < node_count {
                        return ExecutionStep::Run { node_id, node_index: index };
                    }
                },
                None => {},
            }
        }
    }
}

/// Whether an event node fires this frame; `None` for a timer, whose clock the host keeps.
/// A plugin event fires only when its plugin is authorized for it.
pub open spec fn event_fires_spec(kind: BlueprintNodeKind, input: BlueprintInput, object_id: u64) -> Option<
    bool,
> {
    match kind {
        BlueprintNodeKind::FrameUpdated => Some(true),
        BlueprintNodeKind::KeyPressed { key } => Some(input.pressed().contains(canonical_key(key@))),
        BlueprintNodeKind::CollisionTriggered => Some(input.collision_objects@.contains(object_id)),
        BlueprintNodeKind::ButtonClicked { ui_id } => Some(input.clicked_ui_ids@.contains(ui_id)),
        BlueprintNodeKind::ObjectClicked => Some(input.clicked_object_ids@.contains(object_id)),
        BlueprintNodeKind::SceneLoaded => Some(input.scene_just_loaded),
        BlueprintNodeKind::Timer { .. } => None,
        BlueprintNodeKind::PluginNode { plugin_id, node_type, category, behavior, .. } => Some(
            input.plugin_authorizations.authorizes(plugin_id@, node_type@, behavior) && category
                == PluginNodeCategory::Event && match behavior {
                PluginBehavior::SceneLoadedEvent => input.scene_just_loaded,
                PluginBehavior::ObjectClickedEvent => input.clicked_object_ids@.contains(object_id),
                _ => false,
            },
        ),
        _ => Some(false),
    }
}

/// Decides whether an event node fires this frame for an object; timers are left to the
/// host.
pub fn event_fires(kind: &BlueprintNodeKind, input: &BlueprintInput, object_id: u64) -> (r: Option<
    bool,
>)
    ensures
        r == event_fires_spec(*kind, *input, object_id),
{
    match kind {
        BlueprintNodeKind::FrameUpdated => Some(true),
        BlueprintNodeKind::KeyPressed { key } => Some(input.is_key_down(key.as_str())),
        BlueprintNodeKind::CollisionTriggered => Some(input.collision_objects.contains(&object_id)),
        BlueprintNodeKind::ButtonClicked { ui_id } => Some(input.clicked_ui_ids.contains(ui_id)),
        BlueprintNodeKind::ObjectClicked => Some(input.clicked_object_ids.contains(&object_id)),
        BlueprintNodeKind::SceneLoaded => Some(input.scene_just_loaded),
        BlueprintNodeKind::Timer { .. } => None,
        BlueprintNodeKind::PluginNode { plugin_id, node_type, category, behavior, .. } => {
            if !input.plugin_node_is_authorized(plugin_id.as_str(), node_type.as_str(), behavior)
                || *category != PluginNodeCategory::Event {
                return Some(false);
            }
            match behavior {
                PluginBehavior::SceneLoadedEvent => Some(input.scene_just_loaded),
                PluginBehavior::ObjectClickedEvent => Some(
                    input.clicked_object_ids.contains(&object_id),
                ),
                _ => Some(false),
            }
        },
        _ => Some(false),
    }
}

/// Whether a node keeps its blueprint awake: frame updates, timers, keys, scene loading and
/// plugin events.
pub open spec fn keeps_awake(kind: BlueprintNodeKind) -> bool {
    match kind {
        BlueprintNodeKind::FrameUpdated | BlueprintNodeKind::Timer { .. }
        | BlueprintNodeKind::KeyPressed { .. } | BlueprintNodeKind::SceneLoaded => true,
        BlueprintNodeKind::PluginNode { category, .. } => category == PluginNodeCategory::Event,
        _ => false,
    }
}

/// Whether a blueprint sleeps this frame: sleeping is on, the object is outside the active
/// area, was neither clicked nor hit, and no node keeps the blueprint awake.
pub open spec fn sleeps(object_id: u64, b: Blueprint, input: BlueprintInput) -> bool {
    &&& input.dormant_blueprints_enabled
    &&& !input.active_object_ids@.contains(object_id)
    &&& !input.clicked_object_ids@.contains(object_id)
    &&& !input.collision_objects@.contains(object_id)
    &&& forall|i: int| 0 <= i < b.nodes@.len() ==> !keeps_awake(#[trigger] b.nodes@[i].kind)
}

/// Lets only blueprints driven purely by clicks or collisions sleep outside the viewport.
pub fn should_sleep_blueprint(object_id: u64, blueprint: &Blueprint, input: &BlueprintInput) -> (r: bool)
    ensures
        r == sleeps(object_id, *blueprint, *input),
{
    if !input.dormant_blueprints_enabled || input.active_object_ids.contains(&object_id)
        || input.clicked_object_ids.contains(&object_id) || input.collision_objects.contains(
        &object_id,
    ) {
        return false;
    }
    let mut i: usize = 0;
    while i < blueprint.nodes.len()
        invariant
            i <= blueprint.nodes@.len(),
            forall|j: int| 0 <= j < i ==> !keeps_awake(#[trigger] blueprint.nodes@[j].kind),
        decreases blueprint.nodes@.len() - i,
    {
        let awake = match &blueprint.nodes[i].kind {
            BlueprintNodeKind::FrameUpdated | BlueprintNodeKind::Timer { .. }
            | BlueprintNodeKind::KeyPressed { .. } | BlueprintNodeKind::SceneLoaded => true,
            BlueprintNodeKind::PluginNode { category, .. } => *category == PluginNodeCategory::Event,
            _ => false,
        };
        if awake {
            return false;
        }
        i = i + 1;
    }
    true
}

/// One pop of the execution stack never counts past the limit by more than the node that
/// stops execution; a node is run only within the limit, and nothing is left pending once
/// the limit stopped execution.
pub proof fn law_step_limit(stack: Seq<u64>, steps: nat, indices: Map<u64, usize>, node_count: nat)
    requires
        steps <= EXECUTION_STEP_LIMIT,
    ensures
        ({
            let (step, rest, count) = step_result(stack, steps, indices, node_count);
            &&& count <= EXECUTION_STEP_LIMIT + 1
            &&& step is Run ==> count <= EXECUTION_STEP_LIMIT && step->node_index < node_count
            &&& step is LimitExceeded ==> count == EXECUTION_STEP_LIMIT + 1 && rest.len() == 0
            &&& step is Finished ==> rest.len() == 0
            &&& rest.len() <= stack.len()
        }),
    decreases stack.len(),
{
    if stack.len() > 0 && steps + 1 <= EXECUTION_STEP_LIMIT {
        let id = stack.last();
        if !(indices.contains_key(id) && indices[id] < node_count) {
            law_step_limit(stack.drop_last(), steps + 1, indices, node_count);
        }
    }
}

/// Once execution stopped at the limit, popping gives `Finished` and changes nothing.
pub proof fn law_stopped_execution_stays_finished(
    steps: nat,
    indices: Map<u64, usize>,
    node_count: nat,
)
    ensures
        step_result(Seq::<u64>::empty(), steps, indices, node_count) == (
            ExecutionStep::Finished,
            Seq::<u64>::empty(),
            steps,
        ),
{
}

/// A plugin node that its plugin is not authorized for neither runs (its action is `Halt`,
/// so its successors do not run either) nor fires as an event.
pub proof fn law_forged_plugin_node_is_rejected(
    kind: BlueprintNodeKind,
    input: BlueprintInput,
    owner_id: u64,
    animation: Seq<char>,
)
    requires
        kind matches BlueprintNodeKind::PluginNode { plugin_id, node_type, behavior, .. }
            && !input.plugin_authorizations.authorizes(plugin_id@, node_type@, behavior),
    ensures
        crate::blueprint::actions::node_action_spec(kind, input, owner_id, animation)
            == crate::blueprint::actions::NodeAction::Halt,
        event_fires_spec(kind, input, owner_id) == Some(false),
{
}

/// A blueprint with a frame update event never sleeps.
pub proof fn law_frame_updated_never_sleeps(object_id: u64, b: Blueprint, input: BlueprintInput, i: int)
    requires
        0 <= i < b.nodes@.len(),
        b.nodes@[i].kind matches BlueprintNodeKind::FrameUpdated,
    ensures
        !sleeps(object_id, b, input),
{
    assert(keeps_awake(b.nodes@[i].kind));
}

/// After a key is pressed, a blueprint naming it, or its shorthand, sees it held; after it
/// is released, not.
pub proof fn law_key_press_and_release(before: Set<Seq<char>>, key: Seq<char>, name: Seq<char>)
    requires
        canonical_key(name) == key,
    ensures
        before.insert(key).contains(canonical_key(name)),
        !before.remove(key).contains(canonical_key(name)),
{
}

/// Distinct UI elements get distinct blueprint owners, and an owner gives back its element.
pub proof fn law_ui_owner_ids(a: u64, b: u64)
    ensures
        a != b ==> u64::MAX - a != u64::MAX - b,
        u64::MAX - ((u64::MAX - a) as u64) == a,
{
}

} // verus!
