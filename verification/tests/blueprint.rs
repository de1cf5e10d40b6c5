use slide2d_engine::blueprint::actions::{node_action, NodeAction, RuntimeCommand, UiCommand};
use slide2d_engine::blueprint::model::{
    canonical_key_name, key_display_name, Blueprint, BlueprintConnection, BlueprintNode,
    BlueprintNodeCategory, BlueprintNodeKind, ComparisonOperator, NodePosition, Severity,
};
use slide2d_engine::blueprint::variables::{
    initialize_global_variables, initialize_variables, BlueprintRuntimeState, VariableStore,
};
use slide2d_engine::blueprint::vm::{
    event_fires, should_sleep_blueprint, ui_blueprint_owner_id, BlueprintInput, BlueprintProgram,
    ExecutionStep, FrameExecution,
};
use slide2d_engine::plugins::{PluginBehavior, PluginNodeCategory};
use std::collections::HashSet;

fn at(x: f32, y: f32) -> NodePosition {
    NodePosition { x: x.to_bits(), y: y.to_bits() }
}

fn node(id: u64, kind: BlueprintNodeKind) -> BlueprintNode {
    BlueprintNode { id, position: at(0.0, 0.0), kind }
}

fn key_w_moves_up() -> Blueprint {
    Blueprint {
        slide2d_engine: "SLIDE2D_BLUEPRINT".to_owned(),
        nodes: vec![
            node(1, BlueprintNodeKind::KeyPressed { key: "KeyW".to_owned() }),
            node(
                2,
                BlueprintNodeKind::ModifyPosition { delta_x: 0.0f32.to_bits(), delta_y: (-200.0f32).to_bits() },
            ),
        ],
        connections: vec![BlueprintConnection { from_node_id: 1, to_node_id: 2, from_port: 0 }],
        next_node_id: 3,
    }
}

#[test]
fn default_blueprint_starts_node_ids_at_one() {
    assert_eq!(Blueprint::new().next_node_id, 1);
}

#[test]
fn invalid_connection_direction_is_rejected() {
    let mut blueprint = Blueprint::new();
    blueprint.add_key_pressed_node(at(50.0, 80.0));
    blueprint.add_modify_position_node(at(350.0, 185.0));
    blueprint.connect(2, 1);
    assert!(blueprint.connections.is_empty());

    blueprint.connect(1, 2);
    assert_eq!(blueprint.connections.len(), 1);
}

#[test]
fn removing_node_removes_its_connections() {
    let mut blueprint = Blueprint::new();
    blueprint.add_key_pressed_node(at(50.0, 80.0));
    blueprint.add_modify_position_node(at(350.0, 185.0));
    blueprint.connect(1, 2);

    blueprint.remove_node(1);

    assert_eq!(blueprint.nodes.len(), 1);
    assert!(blueprint.connections.is_empty());
}

#[test]
fn node_categories_have_correct_execution_ports() {
    let event = BlueprintNodeKind::FrameUpdated;
    let action = BlueprintNodeKind::SetVariable { name: "score".to_owned(), value: 1.0f32.to_bits() };
    let variable =
        BlueprintNodeKind::NumberVariable { name: "score".to_owned(), initial_value: 0.0f32.to_bits() };

    assert_eq!(event.category(), BlueprintNodeCategory::Event);
    assert!(event.has_execution_output());
    assert!(!event.has_execution_input());
    assert_eq!(action.category(), BlueprintNodeCategory::Action);
    assert!(action.has_execution_input());
    assert!(action.has_execution_output());
    assert_eq!(variable.category(), BlueprintNodeCategory::Variable);
    assert!(!variable.has_execution_input());
    assert!(!variable.has_execution_output());
}

#[test]
fn pasted_nodes_receive_new_ids() {
    let mut clipboard = Blueprint::new();
    clipboard.add_frame_updated_node(at(50.0, 80.0));
    clipboard.add_modify_position_node(at(350.0, 185.0));
    clipboard.connect(1, 2);
    let mut target = Blueprint::new();
    target.add_frame_updated_node(at(50.0, 80.0));
    let ids = target.paste_blueprint(&clipboard);
    assert_eq!(ids, vec![2, 3]);
    assert!(target
        .connections
        .iter()
        .any(|connection| connection.from_node_id == 2 && connection.to_node_id == 3));
}

#[test]
fn validation_reports_structure_and_variable_errors() {
    let blueprint = Blueprint {
        slide2d_engine: "WRONG".to_owned(),
        nodes: vec![
            node(1, BlueprintNodeKind::FrameUpdated),
            node(1, BlueprintNodeKind::SetVariable { name: "missing".to_owned(), value: 1.0f32.to_bits() }),
            node(2, BlueprintNodeKind::ModifyPosition { delta_x: 0, delta_y: 0 }),
        ],
        connections: vec![BlueprintConnection { from_node_id: 99, to_node_id: 1, from_port: 3 }],
        next_node_id: 3,
    };

    let codes: HashSet<_> =
        blueprint.validate().into_iter().map(|diagnostic| diagnostic.code).collect();
    assert!(codes.contains("invalid_magic"));
    assert!(codes.contains("duplicate_node_id"));
    assert!(codes.contains("invalid_connection_node"));
    assert!(codes.contains("undeclared_local_variable"));
    assert!(codes.contains("unreachable_from_event"));
}

#[test]
fn validation_warns_about_execution_cycles() {
    let mut blueprint = Blueprint::new();
    blueprint.add_frame_updated_node(at(50.0, 80.0));
    blueprint.add_kind(
        BlueprintNodeKind::ModifyPosition { delta_x: 1.0f32.to_bits(), delta_y: 0.0f32.to_bits() },
        at(350.0, 185.0),
    );
    blueprint.add_kind(
        BlueprintNodeKind::ModifyPosition { delta_x: 1.0f32.to_bits(), delta_y: 0.0f32.to_bits() },
        at(350.0, 290.0),
    );
    blueprint.connect(1, 2);
    blueprint.connect(2, 3);
    blueprint.connect(3, 2);

    assert!(blueprint.validate().iter().any(|diagnostic| diagnostic.code == "execution_cycle"));
}

#[test]
fn validation_messages_name_the_nodes() {
    let blueprint = Blueprint {
        slide2d_engine: "WRONG".to_owned(),
        nodes: vec![
            node(1, BlueprintNodeKind::FrameUpdated),
            node(1, BlueprintNodeKind::SetVariable { name: "missing".to_owned(), value: 0 }),
            node(2, BlueprintNodeKind::ModifyPosition { delta_x: 0, delta_y: 0 }),
        ],
        connections: vec![BlueprintConnection { from_node_id: 99, to_node_id: 1, from_port: 3 }],
        next_node_id: 3,
    };
    let report: Vec<(Severity, String, String, Option<u64>)> = blueprint
        .validate()
        .into_iter()
        .map(|d| (d.severity, d.code, d.message, d.node_id))
        .collect();
    assert_eq!(
        report,
        vec![
            (Severity::Error, "invalid_magic".to_owned(), "无效蓝图格式标识: WRONG".to_owned(), None),
            (Severity::Error, "duplicate_node_id".to_owned(), "节点ID 1 重复".to_owned(), Some(1)),
            (
                Severity::Error,
                "undeclared_local_variable".to_owned(),
                "局部变量 missing 未声明".to_owned(),
                Some(1)
            ),
            (
                Severity::Error,
                "invalid_connection_node".to_owned(),
                "连线 99 -> 1 引用了不存在的节点".to_owned(),
                Some(1)
            ),
            (
                Severity::Warning,
                "unreachable_from_event".to_owned(),
                "执行节点 2 无法从任何事件到达".to_owned(),
                Some(2)
            ),
        ]
    );
}

#[test]
fn validation_reports_bad_direction_port_and_missing_entry() {
    let blueprint = Blueprint {
        slide2d_engine: "SLIDE2D_BLUEPRINT".to_owned(),
        nodes: vec![
            node(5, BlueprintNodeKind::ModifyPosition { delta_x: 0, delta_y: 0 }),
            node(
                6,
                BlueprintNodeKind::IfCondition {
                    variable_name: "   ".to_owned(),
                    comparison: ComparisonOperator::Greater,
                    compare_value: 0,
                    use_global: true,
                },
            ),
            node(7, BlueprintNodeKind::NumberVariable { name: "hp".to_owned(), initial_value: 0 }),
        ],
        connections: vec![
            BlueprintConnection { from_node_id: 7, to_node_id: 5, from_port: 0 },
            BlueprintConnection { from_node_id: 6, to_node_id: 5, from_port: 0 },
            BlueprintConnection { from_node_id: 6, to_node_id: 5, from_port: 1 },
        ],
        next_node_id: 8,
    };
    let report: Vec<(String, String)> =
        blueprint.validate().into_iter().map(|d| (d.code, d.message)).collect();
    assert_eq!(
        report,
        vec![
            ("empty_variable_name".to_owned(), "变量名不能为空".to_owned()),
            ("invalid_connection_direction".to_owned(), "连线 7 -> 5 的执行方向无效".to_owned()),
            ("invalid_connection_port".to_owned(), "节点 6 的输出端口 0 无效".to_owned()),
            ("no_event_entry".to_owned(), "执行图没有事件入口".to_owned()),
            ("unreachable_from_event".to_owned(), "执行节点 5 无法从任何事件到达".to_owned()),
            ("unreachable_from_event".to_owned(), "执行节点 6 无法从任何事件到达".to_owned()),
        ]
    );
}

#[test]
fn connected_event_graph_validates_cleanly() {
    let mut blueprint = Blueprint::new();
    blueprint.add_key_pressed_node(at(50.0, 80.0));
    blueprint.add_modify_position_node(at(350.0, 185.0));
    blueprint.connect(1, 2);
    assert!(blueprint.validate().is_empty());
}

#[test]
fn connecting_twice_adds_one_connection() {
    let mut blueprint = Blueprint::new();
    blueprint.add_frame_updated_node(at(50.0, 80.0));
    blueprint.add_modify_position_node(at(350.0, 185.0));
    blueprint.connect(1, 2);
    blueprint.connect(1, 2);
    blueprint.connect(2, 2);
    assert_eq!(blueprint.connections.len(), 1);
}

#[test]
fn shorthand_keys_are_read_as_standard_names() {
    assert_eq!(canonical_key_name(" w "), "KeyW");
    assert_eq!(canonical_key_name("7"), "Digit7");
    assert_eq!(canonical_key_name("Space"), "Space");
    assert_eq!(key_display_name("a"), "A");
}

#[test]
fn key_press_is_seen_through_shorthand_names() {
    let mut input = BlueprintInput::new();
    input.set_key_down("KeyW".to_owned(), true);
    assert!(input.is_key_down("w"));
    assert!(input.is_key_down("KeyW"));
    assert!(!input.is_key_down("KeyS"));
    input.set_key_down("KeyW".to_owned(), false);
    assert!(!input.is_key_down("KeyW"));
    input.set_key_down("Space".to_owned(), true);
    input.clear();
    assert!(!input.is_key_down("Space"));
}

#[test]
fn configured_key_controls_event() {
    let mut input = BlueprintInput::new();
    input.set_key_down("Space".to_owned(), true);
    let space = BlueprintNodeKind::KeyPressed { key: "Space".to_owned() };
    let w = BlueprintNodeKind::KeyPressed { key: "KeyW".to_owned() };
    assert_eq!(event_fires(&space, &input, 1), Some(true));
    assert_eq!(event_fires(&w, &input, 1), Some(false));
    assert_eq!(event_fires(&BlueprintNodeKind::Timer { delay_seconds: 0, repeat: true }, &input, 1), None);
}

#[test]
fn compiled_program_runs_successors_in_connection_order() {
    let mut blueprint = key_w_moves_up();
    blueprint.nodes.push(node(3, BlueprintNodeKind::StopSound));
    blueprint.connections.push(BlueprintConnection { from_node_id: 1, to_node_id: 3, from_port: 0 });
    let (program, diagnostics) = BlueprintProgram::compile(&blueprint);
    assert!(diagnostics.is_empty());
    assert_eq!(program.event_node_ids(), &vec![1]);
    assert_eq!(program.node_index(3), Some(2));
    assert_eq!(program.outgoing_nodes(1, 0), vec![3, 2]);

    let mut execution = FrameExecution::new();
    execution.schedule(&program, 1, 0);
    assert_eq!(
        execution.next(&program, blueprint.nodes.len()),
        ExecutionStep::Run { node_id: 2, node_index: 1 }
    );
    assert_eq!(
        execution.next(&program, blueprint.nodes.len()),
        ExecutionStep::Run { node_id: 3, node_index: 2 }
    );
    assert_eq!(execution.next(&program, blueprint.nodes.len()), ExecutionStep::Finished);
}

#[test]
fn execution_stops_after_the_step_limit() {
    let mut blueprint = Blueprint::new();
    blueprint.add_frame_updated_node(at(0.0, 0.0));
    blueprint.add_modify_position_node(at(0.0, 0.0));
    blueprint.add_modify_position_node(at(0.0, 0.0));
    blueprint.connect(1, 2);
    blueprint.connect(2, 3);
    blueprint.connect(3, 2);
    let (program, _) = BlueprintProgram::compile(&blueprint);
    let mut execution = FrameExecution::new();
    execution.schedule(&program, 1, 0);
    let mut runs = 0;
    loop {
        match execution.next(&program, blueprint.nodes.len()) {
            ExecutionStep::Run { node_id, .. } => {
                runs += 1;
                execution.schedule(&program, node_id, 0);
            }
            ExecutionStep::LimitExceeded { node_id } => {
                assert_eq!(node_id, 2);
                break;
            }
            ExecutionStep::Finished => panic!("the cycle never finishes"),
        }
    }
    assert_eq!(runs, 1024);
    assert_eq!(execution.next(&program, blueprint.nodes.len()), ExecutionStep::Finished);

    let mut state = BlueprintRuntimeState::new();
    state.report_limit_exceeded(7, 2);
    state.report_limit_exceeded(7, 3);
    let diagnostics = state.diagnostics(7);
    assert_eq!(diagnostics.len(), 1);
    assert_eq!(diagnostics[0].code, "execution_limit_exceeded");
    assert_eq!(diagnostics[0].node_id, Some(2));
    assert!(state.diagnostics(8).is_empty());
}

#[test]
fn unauthorized_plugin_nodes_do_nothing() {
    let input = BlueprintInput::new();
    let pickup = BlueprintNodeKind::PluginNode {
        plugin_id: "forged".to_owned(),
        node_type: "pickup".to_owned(),
        display_name: "Pickup".to_owned(),
        description: String::new(),
        category: PluginNodeCategory::Logic,
        behavior: PluginBehavior::PickupCheck,
        variable_name: "picked".to_owned(),
        value: 0,
    };
    assert!(matches!(node_action(&pickup, &input, 1, ""), NodeAction::Halt));
    let event = BlueprintNodeKind::PluginNode {
        plugin_id: "forged".to_owned(),
        node_type: "loaded".to_owned(),
        display_name: "Loaded".to_owned(),
        description: String::new(),
        category: PluginNodeCategory::Event,
        behavior: PluginBehavior::SceneLoadedEvent,
        variable_name: String::new(),
        value: 0,
    };
    assert_eq!(event_fires(&event, &input, 1), Some(false));
}

#[test]
fn node_actions_follow_the_node_kind() {
    let mut input = BlueprintInput::new();
    let mut tiles = std::collections::HashMap::new();
    tiles.insert(4u64, 12i32);
    input.set_tiles_under_objects(tiles);
    match node_action(&BlueprintNodeKind::DestroyObject { object_id: 0 }, &input, 4, "") {
        NodeAction::Emit(RuntimeCommand::DestroyObject(id)) => assert_eq!(id, 4),
        _ => panic!("expected a destroy command"),
    }
    match node_action(
        &BlueprintNodeKind::PlaySound { path: "jump.wav".to_owned(), volume: 1.0f32.to_bits() },
        &input,
        4,
        "",
    ) {
        NodeAction::Emit(RuntimeCommand::PlaySound { owner_id, path, .. }) => {
            assert_eq!(owner_id, 4);
            assert_eq!(path, "jump.wav");
        }
        _ => panic!("expected a sound command"),
    }
    assert!(matches!(
        node_action(&BlueprintNodeKind::PlaySound { path: " ".to_owned(), volume: 0 }, &input, 4, ""),
        NodeAction::Continue { port: 0 }
    ));
    match node_action(&BlueprintNodeKind::DetectTile { variable_name: "tile".to_owned() }, &input, 4, "") {
        NodeAction::StoreTile { name, tile_id } => {
            assert_eq!(name, "tile");
            assert_eq!(tile_id, 12);
        }
        _ => panic!("expected a tile read"),
    }
    match node_action(&BlueprintNodeKind::DetectTile { variable_name: "tile".to_owned() }, &input, 5, "") {
        NodeAction::StoreTile { tile_id, .. } => assert_eq!(tile_id, -1),
        _ => panic!("expected a tile read"),
    }
    assert!(matches!(
        node_action(&BlueprintNodeKind::SwitchAnimation { animation_path: "walk.s2anim".to_owned() }, &input, 4, "walk.s2anim"),
        NodeAction::Continue { port: 0 }
    ));
    match node_action(&BlueprintNodeKind::SetUiText { ui_id: 9, content: "hi".to_owned() }, &input, 4, "") {
        NodeAction::Emit(RuntimeCommand::Ui(UiCommand::SetText { ui_id, content })) => {
            assert_eq!(ui_id, 9);
            assert_eq!(content, "hi");
        }
        _ => panic!("expected a UI command"),
    }
}

#[test]
fn frame_updated_blueprint_never_sleeps() {
    let mut input = BlueprintInput::new();
    input.dormant_blueprints_enabled = true;
    let mut blueprint = Blueprint::new();
    blueprint.add_collision_triggered_node(at(0.0, 0.0));
    assert!(should_sleep_blueprint(1, &blueprint, &input));
    blueprint.add_frame_updated_node(at(0.0, 0.0));
    assert!(!should_sleep_blueprint(1, &blueprint, &input));
}

#[test]
fn declared_variables_are_created_once() {
    let nodes = vec![
        node(1, BlueprintNodeKind::NumberVariable { name: "hp".to_owned(), initial_value: 10 }),
        node(2, BlueprintNodeKind::NumberVariable { name: "hp".to_owned(), initial_value: 20 }),
        node(3, BlueprintNodeKind::NumberVariable { name: " ".to_owned(), initial_value: 30 }),
        node(4, BlueprintNodeKind::GlobalNumberVariable { name: "score".to_owned(), initial_value: 5 }),
    ];
    let input = BlueprintInput::new();
    let mut variables = VariableStore::new();
    variables.insert("mana".to_owned(), 1);
    initialize_variables(&mut variables, &nodes, &input);
    assert_eq!(variables.get("hp"), Some(10));
    assert_eq!(variables.get("mana"), Some(1));
    assert_eq!(variables.get(" "), None);
    assert_eq!(variables.get("score"), None);
    variables.insert("hp".to_owned(), 3);
    initialize_variables(&mut variables, &nodes, &input);
    assert_eq!(variables.get("hp"), Some(3));

    let mut globals = VariableStore::new();
    initialize_global_variables(&mut globals, &nodes);
    assert_eq!(globals.get("score"), Some(5));
    assert_eq!(globals.get("hp"), None);
}

#[test]
fn ui_owner_ids_do_not_meet_actor_ids() {
    assert_eq!(ui_blueprint_owner_id(0), u64::MAX);
    assert_eq!(ui_blueprint_owner_id(5), u64::MAX - 5);
}

#[test]
fn audio_nodes_emit_owner_scoped_commands() {
    let mut blueprint = Blueprint::new();
    blueprint.add_frame_updated_node(at(0.0, 0.0));
    blueprint.add_play_sound_node(at(0.0, 0.0));
    blueprint.add_stop_sound_node(at(0.0, 0.0));
    blueprint.nodes[1].kind =
        BlueprintNodeKind::PlaySound { path: "audio/jump.wav".to_owned(), volume: 0.5f32.to_bits() };
    blueprint.connect(1, 2);
    blueprint.connect(2, 3);
    let (program, _) = BlueprintProgram::compile(&blueprint);
    let mut execution = FrameExecution::new();
    execution.schedule(&program, 1, 0);
    let input = BlueprintInput::new();
    let mut commands = Vec::new();
    while let ExecutionStep::Run { node_id, node_index: index } = execution.next(&program, blueprint.nodes.len()) {
        if let NodeAction::Emit(command) = node_action(&blueprint.nodes[index].kind, &input, 1, "") {
            commands.push(command);
        }
        execution.schedule(&program, node_id, 0);
    }
    assert!(commands.iter().any(|command| matches!(
        command,
        RuntimeCommand::PlaySound { owner_id: 1, path, volume }
            if path == "audio/jump.wav" && f32::from_bits(*volume) == 0.5
    )));
    assert!(commands.iter().any(|command| matches!(command, RuntimeCommand::StopSound { owner_id: 1 })));
}

#[test]
fn execution_limit_is_queryable_as_diagnostic() {
    let mut blueprint = Blueprint::new();
    blueprint.add_frame_updated_node(at(0.0, 0.0));
    blueprint.add_modify_position_node(at(0.0, 0.0));
    blueprint.add_modify_position_node(at(0.0, 0.0));
    blueprint.connect(1, 2);
    blueprint.connect(2, 3);
    blueprint.connect(3, 2);
    let (program, _) = BlueprintProgram::compile(&blueprint);
    let mut execution = FrameExecution::new();
    execution.schedule(&program, 1, 0);
    let mut state = BlueprintRuntimeState::new();
    loop {
        match execution.next(&program, blueprint.nodes.len()) {
            ExecutionStep::Run { node_id, .. } => execution.schedule(&program, node_id, 0),
            ExecutionStep::LimitExceeded { node_id } => {
                state.report_limit_exceeded(1, node_id);
                break;
            }
            ExecutionStep::Finished => break,
        }
    }
    assert!(state.diagnostics(1).iter().any(|diagnostic| diagnostic.code == "execution_limit_exceeded"));
}

#[test]
fn copying_a_selection_keeps_its_inner_connections() {
    let mut blueprint = Blueprint::new();
    blueprint.add_frame_updated_node(at(0.0, 0.0));
    blueprint.add_modify_position_node(at(10.0, 0.0));
    blueprint.add_stop_sound_node(at(20.0, 0.0));
    blueprint.connect(1, 2);
    blueprint.connect(2, 3);
    let clipboard = blueprint.copy_selection(&[2, 3]);
    assert_eq!(clipboard.slide2d_engine, "SLIDE2D_BLUEPRINT");
    assert_eq!(clipboard.nodes.iter().map(|n| n.id).collect::<Vec<_>>(), vec![2, 3]);
    assert_eq!(clipboard.connections, vec![BlueprintConnection { from_node_id: 2, to_node_id: 3, from_port: 0 }]);
    let pasted = blueprint.paste_blueprint(&clipboard);
    assert_eq!(pasted, vec![4, 5]);
    assert_eq!(blueprint.connections.last(), Some(&BlueprintConnection { from_node_id: 4, to_node_id: 5, from_port: 0 }));
}

#[test]
fn cached_programs_are_compiled_once_per_owner() {
    let nodes = vec![
        node(1, BlueprintNodeKind::NumberVariable { name: "hp".to_owned(), initial_value: 10 }),
        node(2, BlueprintNodeKind::GlobalNumberVariable { name: "score".to_owned(), initial_value: 5 }),
    ];
    let blueprint = Blueprint {
        slide2d_engine: "SLIDE2D_BLUEPRINT".to_owned(),
        nodes,
        connections: Vec::new(),
        next_node_id: 3,
    };
    let mut input = BlueprintInput::new();
    let mut state = BlueprintRuntimeState::new();
    let mut globals = VariableStore::new();
    assert!(state.prepare_owner(7, &blueprint, &input, &mut globals));
    assert!(state.program(7).is_some());
    assert_eq!(state.variables(7).and_then(|v| v.get("hp")), Some(10));
    assert_eq!(globals.get("score"), Some(5));
    assert!(state.diagnostics(7).is_empty());

    globals.insert("score".to_owned(), 9);
    assert!(!state.prepare_owner(7, &blueprint, &input, &mut globals));
    assert_eq!(globals.get("score"), Some(9));

    input.blueprint_cache_enabled = false;
    assert!(state.prepare_owner(7, &blueprint, &input, &mut globals));
    assert_eq!(globals.get("score"), Some(9));
    assert_eq!(state.variables(7).and_then(|v| v.get("hp")), Some(10));
}

#[test]
fn two_cycles_raise_one_cycle_warning() {
    let mut blueprint = Blueprint::new();
    blueprint.add_frame_updated_node(at(0.0, 0.0));
    for _ in 0..4 {
        blueprint.add_kind(
            BlueprintNodeKind::ModifyPosition { delta_x: 1.0f32.to_bits(), delta_y: 0.0f32.to_bits() },
            at(0.0, 0.0),
        );
    }
    blueprint.connect(1, 2);
    blueprint.connect(2, 3);
    blueprint.connect(3, 2);
    blueprint.connect(4, 5);
    blueprint.connect(5, 4);
    let warnings = blueprint.validate().iter().filter(|d| d.code == "execution_cycle").count();
    assert_eq!(warnings, 1);
}
