use slide2d_engine::animation::{preview_frame_index, SpriteAnimation};
use slide2d_engine::app_state::{
    active_scene_name, added_scene_name, may_switch_scene, plan_spawns, store_active_scene,
    unsaved_changes,
};
use slide2d_engine::assets::{batch_base_name, batch_file_name};
use slide2d_engine::blueprint::labels::{plugin_behavior_label, plugin_behavior_name};
use slide2d_engine::plugins::PluginBehavior;
use slide2d_engine::launch::{
    argument_after, runtime_arguments, runtime_locale, runtime_package, scene_to_run,
};
use slide2d_engine::localization::Language;

fn strings(values: &[&str]) -> Vec<String> {
    values.iter().map(|v| (*v).to_owned()).collect()
}

#[test]
fn runtime_arguments_carry_package_scene_language_and_globals() {
    let args = runtime_arguments("game.slide2d", Some("Level 2"), Language::English, Some("{\"hp\":3.0}"));
    assert_eq!(
        args,
        strings(&["--runtime", "game.slide2d", "--scene", "Level 2", "--locale", "en-US", "--globals", "{\"hp\":3.0}"])
    );
    let plain = runtime_arguments("game.slide2d", None, Language::SimplifiedChinese, None);
    assert_eq!(plain, strings(&["--runtime", "game.slide2d", "--locale", "zh-CN"]));
}

#[test]
fn runtime_reads_back_what_the_editor_passes() {
    let mut line = strings(&["slide2d"]);
    line.extend(runtime_arguments("game.slide2d", Some("Boss"), Language::English, None));
    assert_eq!(runtime_package(&line), Some("game.slide2d".to_owned()));
    assert_eq!(argument_after(&line, "--scene"), Some("Boss".to_owned()));
    assert_eq!(runtime_locale(&line), Some(Language::English));
    assert_eq!(argument_after(&line, "--globals"), None);
}

#[test]
fn flag_values_take_the_first_occurrence_with_a_value() {
    let line = strings(&["exe", "--scene", "A", "--scene", "B"]);
    assert_eq!(argument_after(&line, "--scene"), Some("A".to_owned()));
    let dangling = strings(&["exe", "--locale"]);
    assert_eq!(argument_after(&dangling, "--locale"), None);
    assert_eq!(runtime_locale(&dangling), None);
    let unknown = strings(&["exe", "--locale", "fr-FR"]);
    assert_eq!(runtime_locale(&unknown), Some(Language::SimplifiedChinese));
    assert_eq!(runtime_package(&strings(&["exe", "--editor", "x"])), None);
    assert_eq!(runtime_package(&strings(&["exe", "--runtime"])), None);
}

#[test]
fn runtime_starts_the_requested_scene_or_the_first() {
    let names = strings(&["Menu", "Level", "Level"]);
    assert_eq!(scene_to_run(&names, "Level"), Some(1));
    assert_eq!(scene_to_run(&names, "Missing"), Some(0));
    assert_eq!(scene_to_run(&Vec::new(), "Level"), None);
}

#[test]
fn active_scene_name_falls_back_to_the_first_scene_name() {
    let names = strings(&["Intro", "Forest"]);
    assert_eq!(active_scene_name(&names, 1), "Forest");
    assert_eq!(active_scene_name(&names, 2), "场景1");
}

#[test]
fn storing_the_active_scene_replaces_or_appends_it() {
    let mut scenes = vec![10, 20];
    let mut active = 1;
    store_active_scene(&mut scenes, &mut active, 25);
    assert_eq!((scenes.clone(), active), (vec![10, 25], 1));
    let mut active = 7;
    store_active_scene(&mut scenes, &mut active, 30);
    assert_eq!((scenes, active), (vec![10, 25, 30], 2));
}

#[test]
fn new_scenes_get_a_trimmed_or_numbered_name() {
    assert_eq!(added_scene_name("  Cave  ", 3), "Cave");
    assert_eq!(added_scene_name("   ", 3), "场景4");
    assert_eq!(added_scene_name("", 0), "场景1");
    assert!(may_switch_scene(3, 0, 2));
    assert!(!may_switch_scene(3, 2, 2));
    assert!(!may_switch_scene(3, 0, 3));
}

#[test]
fn unsaved_changes_compare_against_the_saved_snapshot() {
    assert!(!unsaved_changes("", "anything"));
    assert!(!unsaved_changes("[1]", "[1]"));
    assert!(unsaved_changes("[1]", "[2]"));
}

#[test]
fn preview_frame_follows_time_selection_and_looping() {
    assert_eq!(preview_frame_index(0, true, None, true, 5), None);
    assert_eq!(preview_frame_index(4, false, Some(2), true, 99), Some(2));
    assert_eq!(preview_frame_index(4, false, Some(9), true, 99), Some(3));
    assert_eq!(preview_frame_index(4, false, None, false, 99), Some(0));
    assert_eq!(preview_frame_index(4, true, Some(1), true, 10), Some(2));
    assert_eq!(preview_frame_index(4, true, Some(1), false, 10), Some(3));
    assert_eq!(preview_frame_index(4, true, None, false, 2), Some(2));
}

#[test]
fn batch_rename_names_are_numbered_with_three_digits() {
    assert_eq!(batch_base_name("  hero  "), Ok("hero".to_owned()));
    assert_eq!(
        batch_base_name(" \t "),
        Err("Slide2D Assistant Toolkit: empty batch name".to_owned())
    );
    assert_eq!(batch_file_name("hero", 1, "png"), "hero_001.png");
    assert_eq!(batch_file_name("hero", 42, "wav"), "hero_042.wav");
    assert_eq!(batch_file_name("hero", 1234, ""), "hero_1234.");
}

#[test]
fn new_animations_loop_at_twelve_frames_per_second() {
    let animation = SpriteAnimation::new();
    assert_eq!(animation.slide2d_engine, "SLIDE2D_ANIMATION");
    assert_eq!(animation.name, "新动画");
    assert!(animation.frames.is_empty());
    assert_eq!(f32::from_bits(animation.frames_per_second), 12.0);
    assert!(animation.looping);
}

#[test]
fn behavior_labels_differ_only_for_the_pickup_check() {
    assert_eq!(plugin_behavior_name(PluginBehavior::PickupCheck), "拾取判定");
    assert_eq!(plugin_behavior_label(PluginBehavior::PickupCheck), "道具拾取判定");
    assert_eq!(plugin_behavior_label(PluginBehavior::MoveHorizontal), "物理横向移动");
    assert_eq!(plugin_behavior_name(PluginBehavior::NumberVariable), "数值变量");
}

#[test]
fn project_snapshot_detects_unsaved_changes() {
    let saved = "[[{\"name\":\"场景1\",\"game_objects\":[]}],\"场景1\",{},[]]";
    assert!(!unsaved_changes(saved, saved));
    let after_adding_an_object = "[[{\"name\":\"场景1\",\"game_objects\":[{\"id\":1}]}],\"场景1\",{},[]]";
    assert!(unsaved_changes(saved, after_adding_an_object));
}

#[test]
fn spawns_copy_surviving_templates_with_fresh_ids() {
    let ids = vec![3, 9, 5];
    let destroyed = vec![9];
    let templates = vec![5, 9, 3, 42];
    assert_eq!(plan_spawns(&ids, &destroyed, &templates), vec![(0, 2, 6), (2, 0, 7)]);
    assert_eq!(plan_spawns(&vec![], &vec![], &vec![1]), vec![]);
    assert_eq!(plan_spawns(&vec![4], &vec![4], &vec![]), vec![]);
}
