//! In-game UI: the element templates the editor offers and the elements a scene holds.
//!
//! Sizes, positions and progress values are `f32` numbers in the scene files; here they are
//! kept as their IEEE-754 bit patterns.

use crate::blueprint::actions::UiCommand;
use crate::blueprint::model::{blueprint_format_text, Blueprint};
use vstd::prelude::*;

verus! {

broadcast use vstd::string::group_string_axioms;

/// The UI element templates the editor can drop onto a scene.
#[derive(Clone, Copy, PartialEq, Eq, Structural, Debug)]
pub enum UiTemplate {
    Text,
    Button,
    ProgressBar,
    ImagePanel,
}

/// The template carried while a UI element is dragged from the palette.
#[derive(Clone, Copy, PartialEq, Eq, Structural, Debug)]
pub struct UiDragPayload {
    pub template: UiTemplate,
}

/// What a UI element shows; numbers are `f32` bit patterns, colors RGBA.
pub enum UiElementKind {
    Text { content: String, font_size: u32, color: [u8; 4] },
    Button { text: String },
    ProgressBar { maximum: u32, value: u32, background_color: [u8; 4], fill_color: [u8; 4] },
    ImagePanel { image_path: String },
}

/// One UI element of a scene, with its own blueprint; position and size are `f32` bit
/// patterns.
pub struct UiElement {
    pub id: u64,
    pub x: u32,
    pub y: u32,
    pub width: u32,
    pub height: u32,
    pub layer_index: u32,
    pub visible: bool,
    pub kind: UiElementKind,
    pub blueprint: Blueprint,
}

/// The bit pattern of the `f32` 220.0.
pub const F32_220: u32 = 0x435c_0000;
/// The bit pattern of the `f32` 40.0.
pub const F32_40: u32 = 0x4220_0000;
/// The bit pattern of the `f32` 24.0.
pub const F32_24: u32 = 0x41c0_0000;
/// The bit pattern of the `f32` 160.0.
pub const F32_160: u32 = 0x4320_0000;
/// The bit pattern of the `f32` 48.0.
pub const F32_48: u32 = 0x4240_0000;
/// The bit pattern of the `f32` 240.0.
pub const F32_240: u32 = 0x4370_0000;
/// The bit pattern of the `f32` 28.0.
pub const F32_28: u32 = 0x41e0_0000;
/// The bit pattern of the `f32` 100.0.
pub const F32_100: u32 = 0x42c8_0000;
/// The bit pattern of the `f32` 120.0.
pub const F32_120: u32 = 0x42f0_0000;

/// The default size of each template, as `f32` bit patterns (width, height).
pub open spec fn template_size(template: UiTemplate) -> (u32, u32) {
    match template {
        UiTemplate::Text => (F32_220, F32_40),
        UiTemplate::Button => (F32_160, F32_48),
        UiTemplate::ProgressBar => (F32_240, F32_28),
        UiTemplate::ImagePanel => (F32_160, F32_120),
    }
}

/// Whether an element's content is the default of its template: white 24-point "文本", a
/// "按钮" button, a full bar of 100 on dark grey filled green, or an image panel without an
/// image.
pub open spec fn default_content(kind: UiElementKind, template: UiTemplate) -> bool {
    match template {
        UiTemplate::Text => kind matches UiElementKind::Text { content, font_size, color }
            && content@ == "文本"@ && font_size == F32_24 && color == [255u8, 255u8, 255u8, 255u8],
        UiTemplate::Button => kind matches UiElementKind::Button { text } && text@ == "按钮"@,
        UiTemplate::ProgressBar => kind matches UiElementKind::ProgressBar {
            maximum,
            value,
            background_color,
            fill_color,
        } && maximum == F32_100 && value == F32_100 && background_color == [60u8, 60u8, 60u8, 255u8]
            && fill_color == [70u8, 190u8, 90u8, 255u8],
        UiTemplate::ImagePanel => kind matches UiElementKind::ImagePanel { image_path }
            && image_path@.len() == 0,
    }
}

impl UiElement {
    /// Creates a visible UI element from a template at a position, with the template's
    /// default size and content and an empty blueprint.
    pub fn from_template(id: u64, layer_index: u32, template: UiTemplate, x: u32, y: u32) -> (r:
        Self)
        ensures
            r.id == id,
            r.layer_index == layer_index,
            r.x == x,
            r.y == y,
            (r.width, r.height) == template_size(template),
            r.visible,
            default_content(r.kind, template),
            r.blueprint.slide2d_engine@ == blueprint_format_text(),
            r.blueprint.nodes@.len() == 0,
            r.blueprint.connections@.len() == 0,
            r.blueprint.next_node_id == 1,
    {
        let (width, height, kind) = match template {
            UiTemplate::Text => (
                F32_220,
                F32_40,
                UiElementKind::Text {
                    content: "文本".to_string(),
                    font_size: F32_24,
                    color: [255, 255, 255, 255],
                },
            ),
            UiTemplate::Button => (F32_160, F32_48, UiElementKind::Button { text: "按钮".to_string() }),
            UiTemplate::ProgressBar => (
                F32_240,
                F32_28,
                UiElementKind::ProgressBar {
                    maximum: F32_100,
                    value: F32_100,
                    background_color: [60, 60, 60, 255],
                    fill_color: [70, 190, 90, 255],
                },
            ),
            UiTemplate::ImagePanel => (
                F32_160,
                F32_120,
                UiElementKind::ImagePanel { image_path: String::new() },
            ),
        };
        UiElement {
            id,
            x,
            y,
            width,
            height,
            layer_index,
            visible: true,
            kind,
            blueprint: Blueprint::new(),
        }
    }
}

/// Whether the element at `i` is the first one with an id.
pub open spec fn first_with_id(elements: Seq<UiElement>, i: int, id: u64) -> bool {
    0 <= i < elements.len() && elements[i].id == id && forall|j: int|
        0 <= j < i ==> elements[j].id != id
}

/// The content a text command gives an element: the text of a text element or the label of
/// a button; other elements keep theirs.
pub open spec fn with_text(kind: UiElementKind, content: String) -> UiElementKind {
    match kind {
        UiElementKind::Text { font_size, color, .. } => UiElementKind::Text { content, font_size, color },
        UiElementKind::Button { .. } => UiElementKind::Button { text: content },
        other => other,
    }
}

/// The id a UI command is for.
pub open spec fn command_target(command: UiCommand) -> u64 {
    match command {
        UiCommand::SetText { ui_id, .. } => ui_id,
        UiCommand::SetProgress { ui_id, .. } => ui_id,
        UiCommand::SetVisible { ui_id, .. } => ui_id,
    }
}

/// What a UI command does to the element it is for. A progress value is clamped in `f32`
/// arithmetic by the host, so here it leaves the element as it is.
pub open spec fn commanded(element: UiElement, command: UiCommand) -> UiElement {
    match command {
        UiCommand::SetText { content, .. } => UiElement { kind: with_text(element.kind, content), ..element },
        UiCommand::SetProgress { .. } => element,
        UiCommand::SetVisible { visible, .. } => UiElement { visible, ..element },
    }
}

/// A text command shows its content on the element it reaches: a text element gets it as
/// its text, keeping its size and colour; a button gets it as its label; progress bars and
/// image panels are left alone. The element keeps its id, place, size, layer, visibility and
/// blueprint.
pub proof fn law_set_text_shows_content(e: UiElement, ui_id: u64, content: String)
    ensures
        ({
            let after = commanded(e, UiCommand::SetText { ui_id, content });
            &&& after.id == e.id && after.x == e.x && after.y == e.y && after.width == e.width
                && after.height == e.height && after.layer_index == e.layer_index && after.visible
                == e.visible && after.blueprint == e.blueprint
            &&& e.kind matches UiElementKind::Text { font_size, color, .. } ==> after.kind
                == (UiElementKind::Text { content, font_size, color })
            &&& e.kind is Button ==> after.kind == (UiElementKind::Button { text: content })
            &&& (e.kind is ProgressBar || e.kind is ImagePanel) ==> after.kind == e.kind
        }),
{
}

/// A visibility command shows or hides the element it reaches and changes nothing else.
pub proof fn law_set_visible_changes_only_visibility(e: UiElement, ui_id: u64, visible: bool)
    ensures
        commanded(e, UiCommand::SetVisible { ui_id, visible }) == (UiElement { visible, ..e }),
{
}

/// Commands reach the first element with their id and no other: every other element is
/// left as it was, and the element reached is changed as the command says.
pub proof fn law_commands_reach_their_element(elements: Seq<UiElement>, command: UiCommand, i: int)
    requires
        0 <= i < elements.len(),
    ensures
        elements[i].id != command_target(command) ==> !first_with_id(elements, i, command_target(command)),
        (forall|j: int| 0 <= j < i ==> elements[j].id != elements[i].id) ==> first_with_id(
            elements,
            i,
            elements[i].id,
        ),
        commanded(elements[i], command).id == elements[i].id,
{
}

/// The position of the first element with an id, if any.
pub fn find_ui_element(elements: &Vec<UiElement>, id: u64) -> (r: Option<usize>)
    ensures
        match r {
            Some(i) => first_with_id(elements@, i as int, id),
            None => forall|j: int| 0 <= j < elements@.len() ==> elements@[j].id != id,
        },
{
    let mut i: usize = 0;
    while i < elements.len()
        invariant
            i <= elements@.len(),
            forall|j: int| 0 <= j < i ==> elements@[j].id != id,
        decreases elements@.len() - i,
    {
        if elements[i].id == id {
            return Some(i);
        }
        i = i + 1;
    }
    None
}

/// Applies a UI command from a blueprint to the first element with its id: a text command
/// sets the text of a text element or the label of a button, a visibility command shows or
/// hides the element; a command for an id no element has changes nothing. Progress values
/// are left to the host, which clamps them in `f32`.
pub fn apply_ui_command(elements: &mut Vec<UiElement>, command: UiCommand)
    ensures
        final(elements)@.len() == old(elements)@.len(),
        forall|i: int|
            0 <= i < old(elements)@.len() ==> #[trigger] final(elements)@[i] == if first_with_id(
                old(elements)@,
                i,
                command_target(command),
            ) {
                commanded(old(elements)@[i], command)
            } else {
                old(elements)@[i]
            },
{
    let ghost before = elements@;
    let id = match &command {
        UiCommand::SetText { ui_id, .. } => *ui_id,
        UiCommand::SetProgress { ui_id, .. } => *ui_id,
        UiCommand::SetVisible { ui_id, .. } => *ui_id,
    };
    match find_ui_element(elements, id) {
        None => {},
        Some(i) => {
            match command {
                UiCommand::SetProgress { .. } => {},
                UiCommand::SetVisible { visible, .. } => {
                    let mut e = elements.remove(i);
                    e.visible = visible;
                    elements.insert(i, e);
                },
                UiCommand::SetText { content, .. } => {
                    let mut e = elements.remove(i);
                    let kind = match e.kind {
                        UiElementKind::Text { font_size, color, .. } => UiElementKind::Text {
                            content,
                            font_size,
                            color,
                        },
                        UiElementKind::Button { .. } => UiElementKind::Button { text: content },
                        other => other,
                    };
                    e.kind = kind;
                    elements.insert(i, e);
                },
            }
            proof {
                assert forall|j: int| 0 <= j < before.len() && j != i implies !first_with_id(
                    before,
                    j,
                    id,
                ) by {
                    if j > i {
                        assert(before[i as int].id == id);
                    }
                }
            }
        },
    }
}

} // verus!
