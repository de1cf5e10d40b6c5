//! What running one blueprint node asks of its host: commands for the runtime and changes
//! to the owning object.

use crate::blueprint::model::{BlueprintNodeKind, ComparisonOperator};
use crate::blueprint::vm::BlueprintInput;
use crate::plugins::PluginBehavior;
use crate::text::{is_blank, str_is_blank};
use vstd::prelude::*;

verus! {

broadcast use {vstd::string::group_string_axioms, vstd::std_specs::hash::group_hash_axioms};

/// The bits of the `f32` value 1.0.
pub const ONE_BITS: u32 = 0x3F80_0000;

/// The bits of the `f32` value 0.0.
pub const ZERO_BITS: u32 = 0;

/// A UI change a blueprint asks the runtime to apply; numbers are `f32` bits.
pub enum UiCommand {
    SetText { ui_id: u64, content: String },
    SetProgress { ui_id: u64, value: u32 },
    SetVisible { ui_id: u64, visible: bool },
}

/// A scene or object operation a blueprint asks the runtime to perform after the logic
/// frame; numbers are `f32` bits.
pub enum RuntimeCommand {
    Ui(UiCommand),
    SwitchScene(String),
    SpawnObject { template_object_id: u64, x: u32, y: u32 },
    DestroyObject(u64),
    PlaySound { owner_id: u64, path: String, volume: u32 },
    StopSound { owner_id: u64 },
}

/// What the host does for one node before its successors run.
pub enum NodeAction {
    /// A plugin node its plugin is not authorized for: neither it nor its successors run.
    Halt,
    /// Nothing to change; continue on the port.
    Continue { port: u8 },
    /// Store a number in an object variable, then continue on the port.
    SetObjectVariable { name: String, value: u32, port: u8 },
    /// Store a number in a global variable, then continue on port 0.
    SetGlobalVariable { name: String, value: u32 },
    /// Move the object by a per-second delta, then continue on port 0.
    Move { delta_x: u32, delta_y: u32 },
    /// Move the object horizontally at a per-second speed, then continue on port 0.
    MoveHorizontal { speed: u32 },
    /// Queue a runtime command, then continue on port 0.
    Emit(RuntimeCommand),
    /// Show another animation and play it, then continue on port 0.
    SwitchAnimation { path: String },
    /// Play or pause the animation, then continue on port 0.
    SetAnimationPlaying(bool),
    /// Store the tile id under the object (as a number) in an object variable, then continue
    /// on port 0.
    StoreTile { name: String, tile_id: i32 },
    /// Compare a variable (0 when missing) with a value; continue on port 1 when the
    /// comparison holds and on port 2 otherwise.
    CompareWithValue { name: String, comparison: ComparisonOperator, value: u32, use_global: bool },
    /// Compare two variables (0 when missing); continue on port 1 when the comparison holds
    /// and on port 2 otherwise.
    CompareVariables {
        left: String,
        right: String,
        comparison: ComparisonOperator,
        use_global: bool,
    },
}

/// The tile id under an object, -1 where the host found none.
pub open spec fn tile_under(input: BlueprintInput, object_id: u64) -> i32 {
    if input.tiles_under_objects@.contains_key(object_id) {
        input.tiles_under_objects@[object_id]
    } else {
        -1i32
    }
}

/// The action of a node run for an owner whose current animation is `animation`.
pub open spec fn node_action_spec(
    kind: BlueprintNodeKind,
    input: BlueprintInput,
    owner_id: u64,
    animation: Seq<char>,
) -> NodeAction {
    match kind {
        BlueprintNodeKind::PluginNode { plugin_id, node_type, behavior, variable_name, value, .. } => {
            if !input.plugin_authorizations.authorizes(plugin_id@, node_type@, behavior) {
                NodeAction::Halt
            } else {
                match behavior {
                    PluginBehavior::PickupCheck => {
                        let picked = input.clicked_object_ids@.contains(owner_id);
                        let port: u8 = if picked {
                            1
                        } else {
                            2
                        };
                        if is_blank(variable_name@) {
                            NodeAction::Continue { port }
                        } else {
                            NodeAction::SetObjectVariable {
                                name: variable_name,
                                value: if picked {
                                    ONE_BITS
                                } else {
                                    ZERO_BITS
                                },
                                port,
                            }
                        }
                    },
                    PluginBehavior::SetObjectVariable => if is_blank(variable_name@) {
                        NodeAction::Continue { port: 0 }
                    } else {
                        NodeAction::SetObjectVariable { name: variable_name, value, port: 0 }
                    },
                    PluginBehavior::SetGlobalVariable => if is_blank(variable_name@) {
                        NodeAction::Continue { port: 0 }
                    } else {
                        NodeAction::SetGlobalVariable { name: variable_name, value }
                    },
                    PluginBehavior::MoveHorizontal => NodeAction::MoveHorizontal { speed: value },
                    _ => NodeAction::Continue { port: 0 },
                }
            }
        },
        BlueprintNodeKind::ModifyPosition { delta_x, delta_y } => NodeAction::Move { delta_x, delta_y },
        BlueprintNodeKind::SetVariable { name, value } => if is_blank(name@) {
            NodeAction::Continue { port: 0 }
        } else {
            NodeAction::SetObjectVariable { name, value, port: 0 }
        },
        BlueprintNodeKind::PlaySound { path, volume } => if is_blank(path@) {
            NodeAction::Continue { port: 0 }
        } else {
            NodeAction::Emit(RuntimeCommand::PlaySound { owner_id, path, volume })
        },
        BlueprintNodeKind::StopSound => NodeAction::Emit(RuntimeCommand::StopSound { owner_id }),
        BlueprintNodeKind::SwitchAnimation { animation_path } => if is_blank(animation_path@)
            || animation_path@ == animation {
            NodeAction::Continue { port: 0 }
        } else {
            NodeAction::SwitchAnimation { path: animation_path }
        },
        BlueprintNodeKind::PauseAnimation => NodeAction::SetAnimationPlaying(false),
        BlueprintNodeKind::PlayAnimation => NodeAction::SetAnimationPlaying(true),
        BlueprintNodeKind::DetectTile { variable_name } => if is_blank(variable_name@) {
            NodeAction::Continue { port: 0 }
        } else {
            NodeAction::StoreTile { name: variable_name, tile_id: tile_under(input, owner_id) }
        },
        BlueprintNodeKind::SetUiText { ui_id, content } => NodeAction::Emit(
            RuntimeCommand::Ui(UiCommand::SetText { ui_id, content }),
        ),
        BlueprintNodeKind::SetUiProgress { ui_id, value } => NodeAction::Emit(
            RuntimeCommand::Ui(UiCommand::SetProgress { ui_id, value }),
        ),
        BlueprintNodeKind::SetUiVisible { ui_id, visible } => NodeAction::Emit(
            RuntimeCommand::Ui(UiCommand::SetVisible { ui_id, visible }),
        ),
        BlueprintNodeKind::IfCondition { variable_name, comparison, compare_value, use_global } =>
        NodeAction::CompareWithValue {
            name: variable_name,
            comparison,
            value: compare_value,
            use_global,
        },
        BlueprintNodeKind::CompareVariables { left_name, right_name, comparison, use_global } =>
        NodeAction::CompareVariables { left: left_name, right: right_name, comparison, use_global },
        BlueprintNodeKind::SwitchScene { scene_name } => if is_blank(scene_name@) {
            NodeAction::Continue { port: 0 }
        } else {
            NodeAction::Emit(RuntimeCommand::SwitchScene(scene_name))
        },
        BlueprintNodeKind::SpawnObject { template_object_id, x, y } => NodeAction::Emit(
            RuntimeCommand::SpawnObject { template_object_id, x, y },
        ),
        BlueprintNodeKind::DestroyObject { object_id } => NodeAction::Emit(
            RuntimeCommand::DestroyObject(
                if object_id == 0 {
                    owner_id
                } else {
                    object_id
                },
            ),
        ),
        BlueprintNodeKind::SetGlobalVariable { name, value } => if is_blank(name@) {
            NodeAction::Continue { port: 0 }
        } else {
            NodeAction::SetGlobalVariable { name, value }
        },
        _ => NodeAction::Continue { port: 0 },
    }
}

/// Decides what running a node does for its owner, whose current animation is
/// `animation_path`.
pub fn node_action(
    kind: &BlueprintNodeKind,
    input: &BlueprintInput,
    owner_id: u64,
    animation_path: &str,
) -> (r: NodeAction)
    ensures
        r == node_action_spec(*kind, *input, owner_id, animation_path@),
{
    match kind {
        BlueprintNodeKind::PluginNode { plugin_id, node_type, behavior, variable_name, value, .. } => {
            if !input.plugin_node_is_authorized(plugin_id.as_str(), node_type.as_str(), behavior) {
                return NodeAction::Halt;
            }
            match behavior {
                PluginBehavior::PickupCheck => {
                    let picked = input.clicked_object_ids.contains(&owner_id);
                    let port: u8 = if picked {
                        1
                    } else {
                        2
                    };
                    if str_is_blank(variable_name.as_str()) {
                        NodeAction::Continue { port }
                    } else {
                        NodeAction::SetObjectVariable {
                            name: variable_name.clone(),
                            value: if picked {
                                ONE_BITS
                            } else {
                                ZERO_BITS
                            },
                            port,
                        }
                    }
                },
                PluginBehavior::SetObjectVariable => if str_is_blank(variable_name.as_str()) {
                    NodeAction::Continue { port: 0 }
                } else {
                    NodeAction::SetObjectVariable { name: variable_name.clone(), value: *value, port: 0 }
                },
                PluginBehavior::SetGlobalVariable => if str_is_blank(variable_name.as_str()) {
                    NodeAction::Continue { port: 0 }
                } else {
                    NodeAction::SetGlobalVariable { name: variable_name.clone(), value: *value }
                },
                PluginBehavior::MoveHorizontal => NodeAction::MoveHorizontal { speed: *value },
                _ => NodeAction::Continue { port: 0 },
            }
        },
        BlueprintNodeKind::ModifyPosition { delta_x, delta_y } => NodeAction::Move {
            delta_x: *delta_x,
            delta_y: *delta_y,
        },
        BlueprintNodeKind::SetVariable { name, value } => if str_is_blank(name.as_str()) {
            NodeAction::Continue { port: 0 }
        } else {
            NodeAction::SetObjectVariable { name: name.clone(), value: *value, port: 0 }
        },
        BlueprintNodeKind::PlaySound { path, volume } => if str_is_blank(path.as_str()) {
            NodeAction::Continue { port: 0 }
        } else {
            NodeAction::Emit(RuntimeCommand::PlaySound { owner_id, path: path.clone(), volume: *volume })
        },
        BlueprintNodeKind::StopSound => NodeAction::Emit(RuntimeCommand::StopSound { owner_id }),
        BlueprintNodeKind::SwitchAnimation { animation_path: path } => {
            if str_is_blank(path.as_str()) || crate::text::str_eq(path.as_str(), animation_path) {
                NodeAction::Continue { port: 0 }
            } else {
                NodeAction::SwitchAnimation { path: path.clone() }
            }
        },
        BlueprintNodeKind::PauseAnimation => NodeAction::SetAnimationPlaying(false),
        BlueprintNodeKind::PlayAnimation => NodeAction::SetAnimationPlaying(true),
        BlueprintNodeKind::DetectTile { variable_name } => if str_is_blank(variable_name.as_str()) {
            NodeAction::Continue { port: 0 }
        } else {
            let tile_id: i32 = match input.tiles_under_objects.get(&owner_id) {
                Some(t) => *t,
                None => -1,
            };
            NodeAction::StoreTile { name: variable_name.clone(), tile_id }
        },
        BlueprintNodeKind::SetUiText { ui_id, content } => NodeAction::Emit(
            RuntimeCommand::Ui(UiCommand::SetText { ui_id: *ui_id, content: content.clone() }),
        ),
        BlueprintNodeKind::SetUiProgress { ui_id, value } => NodeAction::Emit(
            RuntimeCommand::Ui(UiCommand::SetProgress { ui_id: *ui_id, value: *value }),
        ),
        BlueprintNodeKind::SetUiVisible { ui_id, visible } => NodeAction::Emit(
            RuntimeCommand::Ui(UiCommand::SetVisible { ui_id: *ui_id, visible: *visible }),
        ),
        BlueprintNodeKind::IfCondition { variable_name, comparison, compare_value, use_global } =>
        NodeAction::CompareWithValue {
            name: variable_name.clone(),
            comparison: *comparison,
            value: *compare_value,
            use_global: *use_global,
        },
        BlueprintNodeKind::CompareVariables { left_name, right_name, comparison, use_global } =>
        NodeAction::CompareVariables {
            left: left_name.clone(),
            right: right_name.clone(),
            comparison: *comparison,
            use_global: *use_global,
        },
        BlueprintNodeKind::SwitchScene { scene_name } => if str_is_blank(scene_name.as_str()) {
            NodeAction::Continue { port: 0 }
        } else {
            NodeAction::Emit(RuntimeCommand::SwitchScene(scene_name.clone()))
        },
        BlueprintNodeKind::SpawnObject { template_object_id, x, y } => NodeAction::Emit(
            RuntimeCommand::SpawnObject { template_object_id: *template_object_id, x: *x, y: *y },
        ),
        BlueprintNodeKind::DestroyObject { object_id } => NodeAction::Emit(
            RuntimeCommand::DestroyObject(
                if *object_id == 0 {
                    owner_id
                } else {
                    *object_id
                },
            ),
        ),
        BlueprintNodeKind::SetGlobalVariable { name, value } => if str_is_blank(name.as_str()) {
            NodeAction::Continue { port: 0 }
        } else {
            NodeAction::SetGlobalVariable { name: name.clone(), value: *value }
        },
        _ => NodeAction::Continue { port: 0 },
    }
}

/// The port execution continues on after an action, when the action decides it; compare
/// actions leave it to the host's comparison and `Halt` continues nowhere.
pub open spec fn continuation(action: NodeAction) -> Option<u8> {
    match action {
        NodeAction::Halt => None,
        NodeAction::Continue { port } => Some(port),
        NodeAction::SetObjectVariable { port, .. } => Some(port),
        NodeAction::CompareWithValue { .. } | NodeAction::CompareVariables { .. } => None,
        _ => Some(0),
    }
}

impl NodeAction {
    /// The port execution continues on after the action, when the action decides it.
    pub fn next_port(&self) -> (r: Option<u8>)
        ensures
            r == continuation(*self),
    {
        match self {
            NodeAction::Halt => None,
            NodeAction::Continue { port } => Some(*port),
            NodeAction::SetObjectVariable { port, .. } => Some(*port),
            NodeAction::CompareWithValue { .. } | NodeAction::CompareVariables { .. } => None,
            _ => Some(0),
        }
    }
}

/// A Destroy Object node with a non-zero target destroys exactly that object, whichever
/// object runs it; only the target 0 means the running object itself.
pub proof fn law_destroy_object_target(
    object_id: u64,
    input: BlueprintInput,
    owner_id: u64,
    other_owner: u64,
    animation: Seq<char>,
)
    ensures
        object_id != 0 ==> node_action_spec(
            BlueprintNodeKind::DestroyObject { object_id },
            input,
            owner_id,
            animation,
        ) == NodeAction::Emit(RuntimeCommand::DestroyObject(object_id)),
        object_id != 0 ==> node_action_spec(
            BlueprintNodeKind::DestroyObject { object_id },
            input,
            owner_id,
            animation,
        ) == node_action_spec(
            BlueprintNodeKind::DestroyObject { object_id },
            input,
            other_owner,
            animation,
        ),
        node_action_spec(
            BlueprintNodeKind::DestroyObject { object_id: 0 },
            input,
            owner_id,
            animation,
        ) == NodeAction::Emit(RuntimeCommand::DestroyObject(owner_id)),
{
}

/// UI nodes ask for their own command on their own element: the text, progress or
/// visibility they hold, for the UI id they name, whichever object runs them.
pub proof fn law_ui_nodes_command_their_element(
    ui_id: u64,
    content: String,
    value: u32,
    visible: bool,
    input: BlueprintInput,
    owner_id: u64,
    animation: Seq<char>,
)
    ensures
        node_action_spec(
            BlueprintNodeKind::SetUiText { ui_id, content },
            input,
            owner_id,
            animation,
        ) == NodeAction::Emit(RuntimeCommand::Ui(UiCommand::SetText { ui_id, content })),
        node_action_spec(
            BlueprintNodeKind::SetUiProgress { ui_id, value },
            input,
            owner_id,
            animation,
        ) == NodeAction::Emit(RuntimeCommand::Ui(UiCommand::SetProgress { ui_id, value })),
        node_action_spec(
            BlueprintNodeKind::SetUiVisible { ui_id, visible },
            input,
            owner_id,
            animation,
        ) == NodeAction::Emit(RuntimeCommand::Ui(UiCommand::SetVisible { ui_id, visible })),
{
}

/// Sound nodes speak for the object that runs them: a sound with a path plays for that
/// object at the node's volume, and stopping stops that object's sounds.
pub proof fn law_sounds_belong_to_their_owner(
    path: String,
    volume: u32,
    input: BlueprintInput,
    owner_id: u64,
    animation: Seq<char>,
)
    ensures
        !is_blank(path@) ==> node_action_spec(
            BlueprintNodeKind::PlaySound { path, volume },
            input,
            owner_id,
            animation,
        ) == NodeAction::Emit(RuntimeCommand::PlaySound { owner_id, path, volume }),
        node_action_spec(BlueprintNodeKind::StopSound, input, owner_id, animation)
            == NodeAction::Emit(RuntimeCommand::StopSound { owner_id }),
{
}

/// Spawning copies the named template at the node's position, and a scene switch with a
/// name goes to that scene, whichever object runs the node.
pub proof fn law_spawn_and_scene_commands(
    template_object_id: u64,
    x: u32,
    y: u32,
    scene_name: String,
    input: BlueprintInput,
    owner_id: u64,
    animation: Seq<char>,
)
    ensures
        node_action_spec(
            BlueprintNodeKind::SpawnObject { template_object_id, x, y },
            input,
            owner_id,
            animation,
        ) == NodeAction::Emit(RuntimeCommand::SpawnObject { template_object_id, x, y }),
        !is_blank(scene_name@) ==> node_action_spec(
            BlueprintNodeKind::SwitchScene { scene_name },
            input,
            owner_id,
            animation,
        ) == NodeAction::Emit(RuntimeCommand::SwitchScene(scene_name)),
{
}

/// Variable nodes write the value they hold under the name they hold (a blank name writes
/// nothing and continues): object variables for Set Variable, global ones for Set Global
/// Variable, whichever object runs them.
pub proof fn law_variable_nodes_write_their_value(
    name: String,
    value: u32,
    input: BlueprintInput,
    owner_id: u64,
    animation: Seq<char>,
)
    ensures
        !is_blank(name@) ==> node_action_spec(
            BlueprintNodeKind::SetVariable { name, value },
            input,
            owner_id,
            animation,
        ) == (NodeAction::SetObjectVariable { name, value, port: 0 }),
        !is_blank(name@) ==> node_action_spec(
            BlueprintNodeKind::SetGlobalVariable { name, value },
            input,
            owner_id,
            animation,
        ) == (NodeAction::SetGlobalVariable { name, value }),
        is_blank(name@) ==> node_action_spec(
            BlueprintNodeKind::SetVariable { name, value },
            input,
            owner_id,
            animation,
        ) == (NodeAction::Continue { port: 0 }) && node_action_spec(
            BlueprintNodeKind::SetGlobalVariable { name, value },
            input,
            owner_id,
            animation,
        ) == (NodeAction::Continue { port: 0 }),
{
}

/// Conditions compare the variable they name, in the scope (object or global) they name,
/// against the value they hold, with their own comparison.
pub proof fn law_conditions_compare_what_they_name(
    variable_name: String,
    left_name: String,
    right_name: String,
    comparison: ComparisonOperator,
    compare_value: u32,
    use_global: bool,
    input: BlueprintInput,
    owner_id: u64,
    animation: Seq<char>,
)
    ensures
        node_action_spec(
            BlueprintNodeKind::IfCondition { variable_name, comparison, compare_value, use_global },
            input,
            owner_id,
            animation,
        ) == (NodeAction::CompareWithValue {
            name: variable_name,
            comparison,
            value: compare_value,
            use_global,
        }),
        node_action_spec(
            BlueprintNodeKind::CompareVariables { left_name, right_name, comparison, use_global },
            input,
            owner_id,
            animation,
        ) == (NodeAction::CompareVariables {
            left: left_name,
            right: right_name,
            comparison,
            use_global,
        }),
{
}

/// Movement and tile detection act on the running object: a move node moves it by its
/// deltas, and a tile detection stores the tile under that object (-1 where there is none)
/// in the named variable.
pub proof fn law_movement_and_tiles_concern_the_owner(
    delta_x: u32,
    delta_y: u32,
    variable_name: String,
    input: BlueprintInput,
    owner_id: u64,
    animation: Seq<char>,
)
    ensures
        node_action_spec(
            BlueprintNodeKind::ModifyPosition { delta_x, delta_y },
            input,
            owner_id,
            animation,
        ) == (NodeAction::Move { delta_x, delta_y }),
        !is_blank(variable_name@) ==> node_action_spec(
            BlueprintNodeKind::DetectTile { variable_name },
            input,
            owner_id,
            animation,
        ) == (NodeAction::StoreTile {
            name: variable_name,
            tile_id: if input.tiles_under_objects@.contains_key(owner_id) {
                input.tiles_under_objects@[owner_id]
            } else {
                -1i32
            },
        }),
{
}

/// An animation switch shows the named animation only when it has a path and differs from
/// the one showing; pausing and playing set the playing flag.
pub proof fn law_animation_nodes(
    animation_path: String,
    input: BlueprintInput,
    owner_id: u64,
    animation: Seq<char>,
)
    ensures
        !is_blank(animation_path@) && animation_path@ != animation ==> node_action_spec(
            BlueprintNodeKind::SwitchAnimation { animation_path },
            input,
            owner_id,
            animation,
        ) == (NodeAction::SwitchAnimation { path: animation_path }),
        animation_path@ == animation ==> node_action_spec(
            BlueprintNodeKind::SwitchAnimation { animation_path },
            input,
            owner_id,
            animation,
        ) == (NodeAction::Continue { port: 0 }),
        node_action_spec(BlueprintNodeKind::PauseAnimation, input, owner_id, animation)
            == NodeAction::SetAnimationPlaying(false),
        node_action_spec(BlueprintNodeKind::PlayAnimation, input, owner_id, animation)
            == NodeAction::SetAnimationPlaying(true),
{
}

/// A plugin node its plugin is not authorized for halts, whatever it would do.
pub proof fn law_unauthorized_plugin_nodes_halt(
    kind: BlueprintNodeKind,
    input: BlueprintInput,
    owner_id: u64,
    animation: Seq<char>,
)
    requires
        kind matches BlueprintNodeKind::PluginNode { plugin_id, node_type, behavior, .. }
            && !input.plugin_authorizations.authorizes(plugin_id@, node_type@, behavior),
    ensures
        node_action_spec(kind, input, owner_id, animation) == NodeAction::Halt,
{
}

} // verus!
