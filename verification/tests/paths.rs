use slide2d_engine::animation::{relative_to_project, resolve_asset_path};
use slide2d_engine::assets::{classify_file, AssetKind};
use slide2d_engine::project::{ensure_project_extension, workspace_path};
use slide2d_engine::paths::{has_parent_part, path_component_count, path_has_parent_component, PathPart};

#[test]
fn parent_components_are_found() {
    assert!(path_has_parent_component("../outside"));
    assert!(path_has_parent_component("items/../../escape"));
    assert!(!path_has_parent_component("items/level1"));
    assert!(!path_has_parent_component("..hidden"));
    assert!(has_parent_part(&vec![PathPart::CurDir, PathPart::ParentDir]));
    assert!(!has_parent_part(&vec![PathPart::RootDir, PathPart::Normal("a".to_owned())]));
}

#[test]
fn paths_split_into_components() {
    assert_eq!(path_component_count("game.slide2d"), 1);
    assert_eq!(path_component_count("scenes/level.json"), 2);
    assert_eq!(path_component_count("a/./b"), 2);
}

#[test]
fn relative_paths_are_unsafe_exactly_with_a_parent_piece() {
    use_unsafe_checks();
}

fn use_unsafe_checks() {
    assert!(slide2d_engine::project::is_unsafe_path("assets/../../secret"));
    assert!(slide2d_engine::project::is_unsafe_path(".."));
    assert!(!slide2d_engine::project::is_unsafe_path("assets/images/a.png"));
    assert!(!slide2d_engine::project::is_unsafe_path("a..b/c"));
}

#[test]
fn paths_with_folders_follow_their_last_piece() {
    use_folder_paths();
}

fn use_folder_paths() {
    assert_eq!(classify_file("assets/images/hero.png"), Some(AssetKind::Image));
    assert_eq!(classify_file("/music/theme.ogg"), Some(AssetKind::Audio));
    assert_eq!(classify_file("assets/notes.txt"), None);
    assert_eq!(ensure_project_extension("games/demo"), "games/demo.slide2d");
    assert_eq!(ensure_project_extension("games/demo.txt"), "games/demo.slide2d");
    assert_eq!(ensure_project_extension("games/demo.slide2d"), "games/demo.slide2d");
    let once = ensure_project_extension("/saves/world.v1");
    assert_eq!(once, "/saves/world.slide2d");
    assert_eq!(ensure_project_extension(&once), once);
    assert_eq!(workspace_path("games/demo.slide2d"), "games/.demo_slide2d");
    assert_eq!(relative_to_project("/home/u/proj", "/home/u/proj/assets/a.png"), "assets/a.png");
    assert_eq!(relative_to_project("/home/u/proj", "/elsewhere/a.png"), "/elsewhere/a.png");
    assert_eq!(resolve_asset_path("/home/u/proj", "assets/a.png"), "/home/u/proj/assets/a.png");
    let stored = relative_to_project("/home/u/proj", "/home/u/proj/anim/walk/1.png");
    assert_eq!(resolve_asset_path("/home/u/proj", &stored), "/home/u/proj/anim/walk/1.png");
}

#[test]
fn names_whose_stem_is_a_dot_lose_their_extension() {
    assert_eq!(ensure_project_extension("..x"), "..");
    assert_eq!(ensure_project_extension("games/..x"), "games/..");
    assert_eq!(ensure_project_extension("games/.."), "games/..");
    assert_eq!(ensure_project_extension("games/.."), ensure_project_extension(&ensure_project_extension("games/..x")));
}

#[test]
fn a_workspace_beside_a_parent_piece_uses_the_default_stem() {
    assert_eq!(workspace_path("games/.."), "games/.project_slide2d");
}

#[test]
fn root_packages_are_single_unrooted_pieces() {
    assert!(slide2d_engine::project::is_root_package("game.slide2d"));
    assert!(!slide2d_engine::project::is_root_package("saves/game.slide2d"));
    assert!(!slide2d_engine::project::is_root_package("/game.slide2d"));
    assert!(!slide2d_engine::project::is_root_package(".."));
}

#[test]
fn dot_pieces_and_repeated_separators_are_normalized_away() {
    assert_eq!(classify_file("./hero.png"), Some(AssetKind::Image));
    assert_eq!(classify_file("art//hero.PNG"), Some(AssetKind::Image));
    assert_eq!(classify_file("art/sounds/./jump.wav/"), Some(AssetKind::Audio));
    assert_eq!(classify_file("art/.."), None);
    assert!(!slide2d_engine::project::is_unsafe_path("./items//icons/"));
    assert!(slide2d_engine::project::is_unsafe_path("items/./../../escape"));
    assert_eq!(path_component_count("./a//b/."), 3);
}

#[test]
fn stored_paths_with_dot_pieces_resolve_to_the_same_file() {
    let root = "/home/u/proj/";
    let original = "/home/u/proj//assets/./a.png";
    let stored = relative_to_project(root, original);
    assert_eq!(stored, "assets/./a.png");
    let resolved = resolve_asset_path(root, &stored);
    assert_eq!(resolved, "/home/u/proj/assets/./a.png");
    assert_eq!(std::path::Path::new(&resolved), std::path::Path::new(original));
    assert_eq!(relative_to_project("./proj", "proj/a.png"), "proj/a.png");
}

#[test]
fn project_paths_with_dot_pieces_keep_their_folders() {
    assert_eq!(ensure_project_extension("games//demo"), "games//demo.slide2d");
    assert_eq!(ensure_project_extension("./demo.txt"), "./demo.slide2d");
    let once = ensure_project_extension("./saves/./world.v1");
    assert_eq!(once, "./saves/./world.slide2d");
    assert_eq!(ensure_project_extension(&once), once);
    assert_eq!(workspace_path("games/./demo.slide2d"), "games/.demo_slide2d");
    assert_eq!(workspace_path("games/demo.slide2d/"), "games/.demo_slide2d");
    assert_eq!(workspace_path("./demo.slide2d"), "./.demo_slide2d");
}
