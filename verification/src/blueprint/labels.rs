//! What the blueprint editor shows about nodes and their owners, and the editor's small
//! node edits.

use crate::blueprint::model::{Blueprint, BlueprintNodeKind};
use crate::localization::{tr, translate, LocalizationState};
use crate::plugins::PluginBehavior;
use crate::text::{append_str, chars_of, string_from_chars};
use vstd::prelude::*;

verus! {

broadcast use vstd::string::group_string_axioms;

/// The kind of object a blueprint belongs to, which decides which nodes the editor offers.
#[derive(Clone, Copy, PartialEq, Eq, Structural, Debug)]
pub enum BlueprintOwnerKind {
    WorldObject,
    ImageObject,
    AudioObject,
    UiText,
    UiButton,
    UiProgressBar,
    UiImagePanel,
}

impl BlueprintOwnerKind {
    /// The translation key of the owner kind's name.
    pub open spec fn name_key(self) -> Seq<char> {
        match self {
            BlueprintOwnerKind::WorldObject => "owner.world"@,
            BlueprintOwnerKind::ImageObject => "owner.image"@,
            BlueprintOwnerKind::AudioObject => "owner.audio"@,
            BlueprintOwnerKind::UiText => "owner.ui_text"@,
            BlueprintOwnerKind::UiButton => "owner.ui_button"@,
            BlueprintOwnerKind::UiProgressBar => "owner.ui_progress"@,
            BlueprintOwnerKind::UiImagePanel => "owner.ui_image"@,
        }
    }

    /// The owner kind's name shown in the blueprint toolbar.
    pub fn display_name(self, localization: &LocalizationState) -> (r: String)
        ensures
            r@ == translate(
                localization.language,
                localization.chinese@,
                localization.english@,
                self.name_key(),
            ),
    {
        match self {
            BlueprintOwnerKind::WorldObject => tr(localization, "owner.world"),
            BlueprintOwnerKind::ImageObject => tr(localization, "owner.image"),
            BlueprintOwnerKind::AudioObject => tr(localization, "owner.audio"),
            BlueprintOwnerKind::UiText => tr(localization, "owner.ui_text"),
            BlueprintOwnerKind::UiButton => tr(localization, "owner.ui_button"),
            BlueprintOwnerKind::UiProgressBar => tr(localization, "owner.ui_progress"),
            BlueprintOwnerKind::UiImagePanel => tr(localization, "owner.ui_image"),
        }
    }

    /// Whether the owner is a UI element.
    pub fn is_ui(self) -> (r: bool)
        ensures
            r == (self == BlueprintOwnerKind::UiText || self == BlueprintOwnerKind::UiButton
                || self == BlueprintOwnerKind::UiProgressBar || self
                == BlueprintOwnerKind::UiImagePanel),
    {
        match self {
            BlueprintOwnerKind::UiText | BlueprintOwnerKind::UiButton
            | BlueprintOwnerKind::UiProgressBar | BlueprintOwnerKind::UiImagePanel => true,
            _ => false,
        }
    }

    /// The owner kind of a scene object: an audio object when it has a sound, else an image
    /// object when it has an image or an animation, else a plain world object.
    pub fn for_object(audio_path: &str, image_path: &str, animation_path: &str) -> (r: Self)
        ensures
            r == if audio_path@.len() > 0 {
                BlueprintOwnerKind::AudioObject
            } else if image_path@.len() > 0 || animation_path@.len() > 0 {
                BlueprintOwnerKind::ImageObject
            } else {
                BlueprintOwnerKind::WorldObject
            },
    {
        if chars_of(audio_path).len() > 0 {
            BlueprintOwnerKind::AudioObject
        } else if chars_of(image_path).len() > 0 || chars_of(animation_path).len() > 0 {
            BlueprintOwnerKind::ImageObject
        } else {
            BlueprintOwnerKind::WorldObject
        }
    }
}

/// The translation keys of a node's category and name.
pub open spec fn title_keys(kind: BlueprintNodeKind) -> (Seq<char>, Seq<char>) {
    match kind {
        BlueprintNodeKind::PluginNode { .. } => ("blueprint.plugin_nodes"@, "node.plugin_declarative"@),
        BlueprintNodeKind::FrameUpdated => ("category.event"@, "node.frame_updated"@),
        BlueprintNodeKind::KeyPressed { .. } => ("category.event"@, "node.key_pressed"@),
        BlueprintNodeKind::CollisionTriggered => ("category.event"@, "node.collision"@),
        BlueprintNodeKind::ButtonClicked { .. } => ("category.event"@, "node.button_clicked"@),
        BlueprintNodeKind::Timer { .. } => ("category.event"@, "node.timer"@),
        BlueprintNodeKind::ObjectClicked => ("category.event"@, "node.object_clicked"@),
        BlueprintNodeKind::SceneLoaded => ("category.event"@, "node.scene_loaded"@),
        BlueprintNodeKind::IfCondition { .. } => ("category.logic"@, "node.if"@),
        BlueprintNodeKind::CompareVariables { .. } => ("category.logic"@, "node.compare_variables"@),
        BlueprintNodeKind::ModifyPosition { .. } => ("category.action"@, "node.move"@),
        BlueprintNodeKind::SetVariable { .. } => ("category.action"@, "node.set_variable"@),
        BlueprintNodeKind::PlaySound { .. } => ("category.action"@, "node.play_sound"@),
        BlueprintNodeKind::StopSound => ("category.action"@, "node.stop_sound"@),
        BlueprintNodeKind::SwitchAnimation { .. } => ("category.action"@, "node.switch_animation"@),
        BlueprintNodeKind::PauseAnimation => ("category.action"@, "node.pause_animation"@),
        BlueprintNodeKind::PlayAnimation => ("category.action"@, "node.play_animation"@),
        BlueprintNodeKind::DetectTile { .. } => ("category.action"@, "node.detect_tile"@),
        BlueprintNodeKind::SetUiText { .. } => ("category.action"@, "node.set_text"@),
        BlueprintNodeKind::SetUiProgress { .. } => ("category.action"@, "node.set_progress"@),
        BlueprintNodeKind::SetUiVisible { .. } => ("category.action"@, "node.set_visible"@),
        BlueprintNodeKind::SwitchScene { .. } => ("category.action"@, "node.switch_scene"@),
        BlueprintNodeKind::SpawnObject { .. } => ("category.action"@, "node.spawn"@),
        BlueprintNodeKind::DestroyObject { .. } => ("category.action"@, "node.destroy"@),
        BlueprintNodeKind::SetGlobalVariable { .. } => ("category.action"@, "node.set_global"@),
        BlueprintNodeKind::NumberVariable { .. } => ("category.variable"@, "node.number_variable"@),
        BlueprintNodeKind::GlobalNumberVariable { .. } => (
            "category.variable"@,
            "node.global_variable"@,
        ),
        BlueprintNodeKind::NodeGroup { .. } => ("category.group"@, "blueprint.group"@),
    }
}

/// The translation keys of a node's category and name.
fn title_key_strs(kind: &BlueprintNodeKind) -> (r: (&'static str, &'static str))
    ensures
        (r.0@, r.1@) == title_keys(*kind),
{
    match kind {
        BlueprintNodeKind::PluginNode { .. } => ("blueprint.plugin_nodes", "node.plugin_declarative"),
        BlueprintNodeKind::FrameUpdated => ("category.event", "node.frame_updated"),
        BlueprintNodeKind::KeyPressed { .. } => ("category.event", "node.key_pressed"),
        BlueprintNodeKind::CollisionTriggered => ("category.event", "node.collision"),
        BlueprintNodeKind::ButtonClicked { .. } => ("category.event", "node.button_clicked"),
        BlueprintNodeKind::Timer { .. } => ("category.event", "node.timer"),
        BlueprintNodeKind::ObjectClicked => ("category.event", "node.object_clicked"),
        BlueprintNodeKind::SceneLoaded => ("category.event", "node.scene_loaded"),
        BlueprintNodeKind::IfCondition { .. } => ("category.logic", "node.if"),
        BlueprintNodeKind::CompareVariables { .. } => ("category.logic", "node.compare_variables"),
        BlueprintNodeKind::ModifyPosition { .. } => ("category.action", "node.move"),
        BlueprintNodeKind::SetVariable { .. } => ("category.action", "node.set_variable"),
        BlueprintNodeKind::PlaySound { .. } => ("category.action", "node.play_sound"),
        BlueprintNodeKind::StopSound => ("category.action", "node.stop_sound"),
        BlueprintNodeKind::SwitchAnimation { .. } => ("category.action", "node.switch_animation"),
        BlueprintNodeKind::PauseAnimation => ("category.action", "node.pause_animation"),
        BlueprintNodeKind::PlayAnimation => ("category.action", "node.play_animation"),
        BlueprintNodeKind::DetectTile { .. } => ("category.action", "node.detect_tile"),
        BlueprintNodeKind::SetUiText { .. } => ("category.action", "node.set_text"),
        BlueprintNodeKind::SetUiProgress { .. } => ("category.action", "node.set_progress"),
        BlueprintNodeKind::SetUiVisible { .. } => ("category.action", "node.set_visible"),
        BlueprintNodeKind::SwitchScene { .. } => ("category.action", "node.switch_scene"),
        BlueprintNodeKind::SpawnObject { .. } => ("category.action", "node.spawn"),
        BlueprintNodeKind::DestroyObject { .. } => ("category.action", "node.destroy"),
        BlueprintNodeKind::SetGlobalVariable { .. } => ("category.action", "node.set_global"),
        BlueprintNodeKind::NumberVariable { .. } => ("category.variable", "node.number_variable"),
        BlueprintNodeKind::GlobalNumberVariable { .. } => ("category.variable", "node.global_variable"),
        BlueprintNodeKind::NodeGroup { .. } => ("category.group", "blueprint.group"),
    }
}

/// The title of a node: its translated category, `: ` and its translated name.
pub fn node_title(kind: &BlueprintNodeKind, localization: &LocalizationState) -> (r: String)
    ensures
        r@ == translate(
            localization.language,
            localization.chinese@,
            localization.english@,
            title_keys(*kind).0,
        ) + ": "@ + translate(
            localization.language,
            localization.chinese@,
            localization.english@,
            title_keys(*kind).1,
        ),
{
    let (category, name) = title_key_strs(kind);
    let category_text = tr(localization, category);
    let name_text = tr(localization, name);
    let mut v = chars_of(category_text.as_str());
    append_str(&mut v, ": ");
    append_str(&mut v, name_text.as_str());
    string_from_chars(&v)
}

/// Whether a node kind addresses a UI element.
pub open spec fn targets_ui(kind: BlueprintNodeKind) -> bool {
    match kind {
        BlueprintNodeKind::ButtonClicked { .. } | BlueprintNodeKind::SetUiText { .. }
        | BlueprintNodeKind::SetUiProgress { .. } | BlueprintNodeKind::SetUiVisible { .. } => true,
        _ => false,
    }
}

/// A node kind pointed at another UI element.
pub open spec fn retargeted(kind: BlueprintNodeKind, ui_id: u64) -> BlueprintNodeKind {
    match kind {
        BlueprintNodeKind::ButtonClicked { .. } => BlueprintNodeKind::ButtonClicked { ui_id },
        BlueprintNodeKind::SetUiText { content, .. } => BlueprintNodeKind::SetUiText { ui_id, content },
        BlueprintNodeKind::SetUiProgress { value, .. } => BlueprintNodeKind::SetUiProgress {
            ui_id,
            value,
        },
        BlueprintNodeKind::SetUiVisible { visible, .. } => BlueprintNodeKind::SetUiVisible {
            ui_id,
            visible,
        },
        _ => kind,
    }
}

/// Points the node just added at the UI element that owns the blueprint, when the node
/// addresses a UI element and the owner is one.
pub fn set_last_ui_node_target(blueprint: &mut Blueprint, owner_ui_id: Option<u64>)
    ensures
        final(blueprint).nodes@.len() == old(blueprint).nodes@.len(),
        match owner_ui_id {
            Some(ui_id) => old(blueprint).nodes@.len() > 0 ==> {
                let last = old(blueprint).nodes@.len() - 1;
                &&& final(blueprint).nodes@.take(last) == old(blueprint).nodes@.take(last)
                &&& final(blueprint).nodes@[last].id == old(blueprint).nodes@[last].id
                &&& final(blueprint).nodes@[last].position == old(blueprint).nodes@[last].position
                &&& (targets_ui(old(blueprint).nodes@[last].kind) ==> final(blueprint).nodes@[last].kind
                    == retargeted(old(blueprint).nodes@[last].kind, ui_id))
                &&& (!targets_ui(old(blueprint).nodes@[last].kind) ==> final(blueprint).nodes@[last]
                    == old(blueprint).nodes@[last])
            },
            None => final(blueprint).nodes == old(blueprint).nodes,
        },
        final(blueprint).connections == old(blueprint).connections,
        final(blueprint).next_node_id == old(blueprint).next_node_id,
        final(blueprint).slide2d_engine == old(blueprint).slide2d_engine,
{
    let ui_id = match owner_ui_id {
        Some(id) => id,
        None => return ,
    };
    if blueprint.nodes.len() == 0 {
        return ;
    }
    let mut node = blueprint.nodes.pop().unwrap();
    let kind = node.kind;
    node.kind = match kind {
        BlueprintNodeKind::ButtonClicked { .. } => BlueprintNodeKind::ButtonClicked { ui_id },
        BlueprintNodeKind::SetUiText { content, .. } => BlueprintNodeKind::SetUiText { ui_id, content },
        BlueprintNodeKind::SetUiProgress { value, .. } => BlueprintNodeKind::SetUiProgress {
            ui_id,
            value,
        },
        BlueprintNodeKind::SetUiVisible { visible, .. } => BlueprintNodeKind::SetUiVisible {
            ui_id,
            visible,
        },
        other => other,
    };
    blueprint.nodes.push(node);
    proof {
        let last = old(blueprint).nodes@.len() - 1;
        assert(blueprint.nodes@.take(last) =~= old(blueprint).nodes@.take(last));
    }
}

/// Whether a blueprint moves its owner: it has a move node or a plugin node that moves
/// horizontally.
pub open spec fn moves_owner(b: Blueprint) -> bool {
    exists|i: int|
        0 <= i < b.nodes@.len() && match (#[trigger] b.nodes@[i]).kind {
            BlueprintNodeKind::ModifyPosition { .. } => true,
            BlueprintNodeKind::PluginNode { behavior, .. } => behavior == PluginBehavior::MoveHorizontal,
            _ => false,
        }
}

/// Whether a blueprint moves its owner, so that the physics engine must carry the move.
pub fn uses_blueprint_movement(blueprint: &Blueprint) -> (r: bool)
    ensures
        r == moves_owner(*blueprint),
{
    let mut i: usize = 0;
    while i < blueprint.nodes.len()
        invariant
            i <= blueprint.nodes@.len(),
            forall|j: int|
                0 <= j < i ==> match (#[trigger] blueprint.nodes@[j]).kind {
                    BlueprintNodeKind::ModifyPosition { .. } => false,
                    BlueprintNodeKind::PluginNode { behavior, .. } => behavior
                        != PluginBehavior::MoveHorizontal,
                    _ => true,
                },
        decreases blueprint.nodes@.len() - i,
    {
        let moves = match &blueprint.nodes[i].kind {
            BlueprintNodeKind::ModifyPosition { .. } => true,
            BlueprintNodeKind::PluginNode { behavior, .. } => *behavior == PluginBehavior::MoveHorizontal,
            _ => false,
        };
        if moves {
            return true;
        }
        i = i + 1;
    }
    false
}

/// The Chinese label of a runtime behavior: the blueprint editor's wording (`for_node`) or
/// the plugin manager's, which differ only for the pickup check.
pub open spec fn behavior_label_text(behavior: PluginBehavior, for_node: bool) -> Seq<char> {
    match behavior {
        PluginBehavior::SceneLoadedEvent => "场景加载事件"@,
        PluginBehavior::ObjectClickedEvent => "物体点击事件"@,
        PluginBehavior::PickupCheck => if for_node {
            "拾取判定"@
        } else {
            "道具拾取判定"@
        },
        PluginBehavior::SetObjectVariable => "物体变量赋值"@,
        PluginBehavior::SetGlobalVariable => "全局变量赋值"@,
        PluginBehavior::MoveHorizontal => "物理横向移动"@,
        PluginBehavior::NumberVariable => "数值变量"@,
    }
}

/// The label the blueprint editor shows for a plugin node's behavior.
pub fn plugin_behavior_name(behavior: PluginBehavior) -> (r: &'static str)
    ensures
        r@ == behavior_label_text(behavior, true),
{
    match behavior {
        PluginBehavior::SceneLoadedEvent => "场景加载事件",
        PluginBehavior::ObjectClickedEvent => "物体点击事件",
        PluginBehavior::PickupCheck => "拾取判定",
        PluginBehavior::SetObjectVariable => "物体变量赋值",
        PluginBehavior::SetGlobalVariable => "全局变量赋值",
        PluginBehavior::MoveHorizontal => "物理横向移动",
        PluginBehavior::NumberVariable => "数值变量",
    }
}

/// The label the plugin manager shows for a declared runtime capability.
pub fn plugin_behavior_label(behavior: PluginBehavior) -> (r: &'static str)
    ensures
        r@ == behavior_label_text(behavior, false),
{
    match behavior {
        PluginBehavior::SceneLoadedEvent => "场景加载事件",
        PluginBehavior::ObjectClickedEvent => "物体点击事件",
        PluginBehavior::PickupCheck => "道具拾取判定",
        PluginBehavior::SetObjectVariable => "物体变量赋值",
        PluginBehavior::SetGlobalVariable => "全局变量赋值",
        PluginBehavior::MoveHorizontal => "物理横向移动",
        PluginBehavior::NumberVariable => "数值变量",
    }
}

} // verus!
