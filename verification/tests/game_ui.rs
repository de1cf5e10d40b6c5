use slide2d_engine::blueprint::actions::UiCommand;
use slide2d_engine::game_ui::{apply_ui_command, UiElement, UiElementKind, UiTemplate};

#[test]
fn ui_templates_get_their_default_size_and_content() {
    let bar = UiElement::from_template(1, 0, UiTemplate::ProgressBar, 20.0f32.to_bits(), 30.0f32.to_bits());
    assert_eq!(bar.id, 1);
    assert_eq!(f32::from_bits(bar.x), 20.0);
    assert_eq!(f32::from_bits(bar.y), 30.0);
    assert_eq!(f32::from_bits(bar.width), 240.0);
    assert_eq!(f32::from_bits(bar.height), 28.0);
    assert!(bar.visible);
    match bar.kind {
        UiElementKind::ProgressBar { maximum, value, background_color, fill_color } => {
            assert_eq!(f32::from_bits(maximum), 100.0);
            assert_eq!(f32::from_bits(value), 100.0);
            assert_eq!(background_color, [60, 60, 60, 255]);
            assert_eq!(fill_color, [70, 190, 90, 255]);
        }
        _ => panic!("a progress bar template makes a progress bar"),
    }
    assert!(bar.blueprint.nodes.is_empty());
    assert_eq!(bar.blueprint.next_node_id, 1);

    let text = UiElement::from_template(2, 5, UiTemplate::Text, 0, 0);
    assert_eq!((f32::from_bits(text.width), f32::from_bits(text.height)), (220.0, 40.0));
    assert_eq!(text.layer_index, 5);
    match text.kind {
        UiElementKind::Text { content, font_size, color } => {
            assert_eq!(content, "文本");
            assert_eq!(f32::from_bits(font_size), 24.0);
            assert_eq!(color, [255, 255, 255, 255]);
        }
        _ => panic!("a text template makes text"),
    }

    let button = UiElement::from_template(3, 0, UiTemplate::Button, 0, 0);
    assert_eq!((f32::from_bits(button.width), f32::from_bits(button.height)), (160.0, 48.0));
    assert!(matches!(button.kind, UiElementKind::Button { ref text } if text == "按钮"));

    let panel = UiElement::from_template(4, 0, UiTemplate::ImagePanel, 0, 0);
    assert_eq!((f32::from_bits(panel.width), f32::from_bits(panel.height)), (160.0, 120.0));
    assert!(matches!(panel.kind, UiElementKind::ImagePanel { ref image_path } if image_path.is_empty()));
}

#[test]
fn ui_commands_change_the_first_element_with_their_id() {
    let mut elements = vec![
        UiElement::from_template(7, 0, UiTemplate::Text, 0, 0),
        UiElement::from_template(8, 1, UiTemplate::Button, 0, 0),
        UiElement::from_template(8, 2, UiTemplate::Text, 0, 0),
    ];
    apply_ui_command(&mut elements, UiCommand::SetText { ui_id: 8, content: "开始".to_owned() });
    assert!(matches!(&elements[1].kind, UiElementKind::Button { text } if text == "开始"));
    assert!(matches!(&elements[2].kind, UiElementKind::Text { content, .. } if content == "文本"));
    apply_ui_command(&mut elements, UiCommand::SetVisible { ui_id: 7, visible: false });
    assert!(!elements[0].visible);
    assert!(elements[1].visible);
    apply_ui_command(&mut elements, UiCommand::SetVisible { ui_id: 99, visible: false });
    assert!(elements[1].visible && elements[2].visible);
}
