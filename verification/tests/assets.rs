use slide2d_engine::assets::{
    arrange_directory, asset_file_paths, classify_file, has_extension, join_path, kind_for_extension, merge_scans,
    numbered_file_name, rename_target_name, AssetCategory, AssetEntry, AssetGroup, AssetKind,
    AssetLibrary, ScannedItem,
};

fn file(name: &str) -> AssetEntry {
    AssetEntry::File { name: name.to_owned(), path: format!("root/{name}") }
}

fn names(entries: &[AssetEntry]) -> Vec<String> {
    entries
        .iter()
        .map(|e| match e {
            AssetEntry::Folder { name, .. } | AssetEntry::File { name, .. } => name.clone(),
        })
        .collect()
}

#[test]
fn files_are_classified_by_extension() {
    assert!(matches!(classify_file("hero.PNG"), Some(AssetKind::Image)));
    assert!(matches!(classify_file("jump.wav"), Some(AssetKind::Audio)));
    assert!(matches!(classify_file("music.OGG"), Some(AssetKind::Audio)));
    assert!(matches!(classify_file("terrain.s2tileset"), Some(AssetKind::Tileset)));
    assert!(classify_file("notes.txt").is_none());
}

#[test]
fn extension_kinds_ignore_ascii_case() {
    assert_eq!(kind_for_extension("Mp3"), Some(AssetKind::Audio));
    assert_eq!(kind_for_extension("FLAC"), Some(AssetKind::Audio));
    assert_eq!(kind_for_extension("s2ANIM"), Some(AssetKind::Animation));
    assert_eq!(kind_for_extension("jpg"), None);
    assert!(classify_file("README").is_none());
    assert!(classify_file(".png").is_none());
}

#[test]
fn allowed_extensions_are_matched_without_case() {
    let allowed = vec!["wav".to_owned(), "ogg".to_owned()];
    assert!(has_extension(Some("WAV"), &allowed));
    assert!(!has_extension(Some("mp3"), &allowed));
    assert!(!has_extension(None, &allowed));
}

#[test]
fn directory_level_keeps_folders_and_allowed_files_sorted() {
    let items = vec![
        ScannedItem::File { name: "b.png".to_owned(), path: "d/b.png".to_owned(), extension: Some("png".to_owned()) },
        ScannedItem::File { name: "a.txt".to_owned(), path: "d/a.txt".to_owned(), extension: Some("txt".to_owned()) },
        ScannedItem::Folder { name: "c".to_owned(), path: "d/c".to_owned(), children: vec![] },
        ScannedItem::File { name: "a.PNG".to_owned(), path: "d/a.PNG".to_owned(), extension: Some("PNG".to_owned()) },
        ScannedItem::File { name: "noext".to_owned(), path: "d/noext".to_owned(), extension: None },
    ];
    let arranged = arrange_directory(items, &vec!["png".to_owned()]);
    assert_eq!(names(&arranged), vec!["a.PNG", "b.png", "c"]);
}

#[test]
fn merged_scans_are_sorted_and_stable() {
    let first = vec![file("b"), file("d")];
    let second = vec![
        AssetEntry::File { name: "b".to_owned(), path: "other/b".to_owned() },
        file("a"),
    ];
    let merged = merge_scans(vec![first, second]);
    assert_eq!(names(&merged), vec!["a", "b", "b", "d"]);
    match &merged[1] {
        AssetEntry::File { path, .. } => assert_eq!(path, "root/b"),
        _ => panic!("expected a file"),
    }
}

#[test]
fn library_roots_lie_below_content() {
    let library = AssetLibrary::for_project("/games/demo", 0);
    assert_eq!(library.content_root, "/games/demo/Content");
    assert_eq!(library.root, "/games/demo/assets");
    assert_eq!(library.image_root(), "/games/demo/Content/Assets/Textures");
    assert_eq!(library.audio_root(), "/games/demo/Content/Assets/Audio");
    assert_eq!(library.animation_root(), "/games/demo/Content/Animation");
    assert_eq!(library.tileset_root(), "/games/demo/Content/Assets/TileSets");
    assert_eq!(library.texture_root(), "/games/demo/Content/Assets/Textures");
    assert_eq!(library.ui_root(), "/games/demo/Content/Assets/UI");
    assert_eq!(library.blueprint_root(), "/games/demo/Content/Blueprint");
    assert_eq!(library.actor_root(), "/games/demo/Content/Actor");
    assert_eq!(library.required_folders().len(), 11);
    assert!(library.scan_images().is_empty());
}

#[test]
fn library_refresh_is_due_after_two_minutes() {
    let mut library = AssetLibrary::for_project("demo", 1_000);
    assert!(!library.refresh_if_due(1_000));
    assert!(!library.refresh_if_due(120_999));
    assert!(library.refresh_if_due(121_000));
    assert!(!library.refresh_if_due(500));
    library.store_scan(AssetGroup::Audio, vec![vec![file("z.wav")], vec![file("a.wav")]]);
    library.mark_scanned(121_000);
    assert!(!library.refresh_if_due(121_000));
    assert_eq!(names(library.scan_audio()), vec!["a.wav", "z.wav"]);
    assert!(library.scan_images().is_empty());
}

#[test]
fn scan_sources_list_every_compatible_folder() {
    let library = AssetLibrary::for_project("p", 0);
    let (folders, extensions) = library.scan_sources(AssetGroup::Images);
    assert_eq!(folders, vec!["p/Content/Assets/Textures", "p/Content/Sprites", "p/Content/Textures", "p/assets/images"]);
    assert_eq!(extensions, vec!["png"]);
    let (folders, extensions) = library.scan_sources(AssetGroup::Blueprints);
    assert_eq!(folders, vec!["p/Content/Blueprint", "p/Content/Blueprints"]);
    assert_eq!(extensions, vec!["json", "s2blueprint"]);
}

#[test]
fn new_folder_names_are_checked() {
    let mut library = AssetLibrary::for_project("p", 0);
    library.new_folder_name = "  ".to_owned();
    assert_eq!(library.new_folder_path(), Err("文件夹名称不能为空".to_owned()));
    library.new_folder_name = "bad:name".to_owned();
    assert_eq!(library.new_folder_path(), Err("文件夹名称包含Windows不允许的字符".to_owned()));
    library.new_folder_name = " Enemies ".to_owned();
    library.new_folder_category = AssetCategory::AssetsAudio;
    assert_eq!(library.new_folder_path(), Ok("p/Content/Assets/Audio/Enemies".to_owned()));
    library.new_folder_parent = Some("p/Content/Actor/Heroes".to_owned());
    assert_eq!(library.new_folder_path(), Ok("p/Content/Actor/Heroes/Enemies".to_owned()));
}

#[test]
fn renamed_files_keep_their_extension() {
    assert_eq!(rename_target_name(" hero ", true, Some("png")), Ok("hero.png".to_owned()));
    assert_eq!(rename_target_name("hero.jpg", true, Some("png")), Ok("hero.jpg".to_owned()));
    assert_eq!(rename_target_name("folder", false, Some("png")), Ok("folder".to_owned()));
    assert_eq!(rename_target_name("notes", true, None), Ok("notes".to_owned()));
    assert_eq!(
        rename_target_name("a|b", true, None),
        Err("资源新名称为空或包含Windows非法字符".to_owned())
    );
    assert_eq!(rename_target_name("", true, None), Err("资源新名称为空或包含Windows非法字符".to_owned()));
}

#[test]
fn taken_file_names_get_numbers() {
    assert_eq!(numbered_file_name("image", "png", 3), "image_3.png");
    assert_eq!(join_path("", "a"), "a");
    assert_eq!(join_path("x/", "a"), "x/a");
}

#[test]
fn import_destinations_follow_the_kind() {
    let library = AssetLibrary::for_project("p", 0);
    assert_eq!(library.destination_directory(AssetKind::Tileset), "p/Content/Assets/TileSets");
    assert_eq!(library.category_root(AssetCategory::Blueprint), "p/Content/Blueprint");
}

#[test]
fn tree_file_paths_come_depth_first() {
    let tree = vec![
        AssetEntry::Folder {
            name: "a".to_owned(),
            path: "root/a".to_owned(),
            children: vec![
                AssetEntry::File { name: "x.png".to_owned(), path: "root/a/x.png".to_owned() },
                AssetEntry::Folder { name: "empty".to_owned(), path: "root/a/empty".to_owned(), children: vec![] },
            ],
        },
        AssetEntry::File { name: "b.png".to_owned(), path: "root/b.png".to_owned() },
    ];
    assert_eq!(asset_file_paths(&tree), vec!["root/a/x.png".to_owned(), "root/b.png".to_owned()]);
    assert!(asset_file_paths(&Vec::new()).is_empty());
}
