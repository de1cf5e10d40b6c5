use slide2d_engine::animation::{project_relative, resolve_asset_path, resolved_path, with_forward_slashes};
use slide2d_engine::project::{
    check_package, checksum_hex, ensure_project_extension, legacy_migration, migrate_scene_ids,
    package_name, recent_projects, remember_recent_project, safe_relative_path,
    sanitize_file_name, validate_project_identity, verification_for, verify_header,
    workspace_path, LegacyVersion, ProjectVerification, PROJECT_FORMAT_VERSION, PROJECT_MAGIC,
};

#[test]
fn checksum_is_fnv1a_in_hex() {
    assert_eq!(checksum_hex(&vec![]), "cbf29ce484222325");
    assert_eq!(checksum_hex(&b"a".to_vec()), "af63dc4c8601ec8c");
    assert_eq!(checksum_hex(&b"foobar".to_vec()), "85944171f73967e8");
}

#[test]
fn verification_accepts_its_package_and_rejects_tampering() {
    let bytes = b"{\"scenes\":[]}".to_vec();
    let verification = verification_for("demo.slide2d", &bytes);
    assert_eq!(verification.magic, "SLIDE2D_PROJECT");
    assert_eq!(verification.format_version, 1);
    assert_eq!(verification.file_size, bytes.len() as u64);
    assert_eq!(check_package(&verification, &bytes), Ok(()));
    assert_eq!(verify_header(&verification), Ok(()));

    let mut longer = bytes.clone();
    longer.push(b' ');
    assert_eq!(
        check_package(&verification, &longer),
        Err("工程验证失败：主工程文件大小不一致，文件可能已损坏".to_owned())
    );
    let mut tampered = bytes.clone();
    tampered[0] = b'[';
    assert_eq!(
        check_package(&verification, &tampered),
        Err("工程验证失败：主工程文件校验值不一致，文件可能已损坏".to_owned())
    );
}

#[test]
fn verification_header_is_strict() {
    let good = ProjectVerification {
        magic: "SLIDE2D_PROJECT".to_owned(),
        format_version: 1,
        project_file: "demo.slide2d".to_owned(),
        file_size: 0,
        checksum: String::new(),
    };
    let wrong_magic = ProjectVerification { magic: "OTHER".to_owned(), ..good_copy(&good) };
    assert_eq!(verify_header(&wrong_magic), Err("工程验证失败：标识不是SLIDE2D_PROJECT".to_owned()));
    let wrong_version = ProjectVerification { format_version: 2, ..good_copy(&good) };
    assert_eq!(
        verify_header(&wrong_version),
        Err("工程验证失败：格式版本2不受支持，当前版本为1".to_owned())
    );
    let wrong_file = ProjectVerification { project_file: "demo.json".to_owned(), ..good_copy(&good) };
    assert_eq!(
        verify_header(&wrong_file),
        Err("工程验证失败：主工程文件必须是文件夹根目录中的.slide2d文件".to_owned())
    );
    let escaping = ProjectVerification { project_file: "../demo.slide2d".to_owned(), ..good_copy(&good) };
    assert_eq!(
        verify_header(&escaping),
        Err("工程包含不安全素材路径：../demo.slide2d".to_owned())
    );
}

fn good_copy(v: &ProjectVerification) -> ProjectVerification {
    ProjectVerification {
        magic: v.magic.clone(),
        format_version: v.format_version,
        project_file: v.project_file.clone(),
        file_size: v.file_size,
        checksum: v.checksum.clone(),
    }
}

#[test]
fn project_identity_is_strict() {
    assert_eq!(validate_project_identity("SLIDE2D_PROJECT", 1), Ok(()));
    assert_eq!(
        validate_project_identity("OTHER", 1),
        Err("工程文件缺少有效的Slide2D引擎标识".to_owned())
    );
    assert_eq!(
        validate_project_identity("SLIDE2D_PROJECT", 0),
        Err("工程格式版本0不受支持，当前版本为1".to_owned())
    );
}

#[test]
fn only_version_zero_is_migrated() {
    assert_eq!(legacy_migration(true, LegacyVersion::Integer(7)), Ok(false));
    assert_eq!(legacy_migration(false, LegacyVersion::Missing), Ok(true));
    assert_eq!(legacy_migration(false, LegacyVersion::Integer(0)), Ok(true));
    assert_eq!(
        legacy_migration(false, LegacyVersion::Integer(1)),
        Err("缺少Slide2D标识的工程仅允许使用legacy version 0".to_owned())
    );
    assert_eq!(
        legacy_migration(false, LegacyVersion::Other),
        Err("legacy工程格式版本必须是整数0".to_owned())
    );
}

/// A project document as the library judges it: the legacy decision first, then the strict
/// identity check of the (possibly migrated) marker and version.
fn judge_document(marker: Option<&str>, version: LegacyVersion) -> Result<(String, u32), String> {
    let number = match version {
        LegacyVersion::Integer(n) => n as u32,
        _ => 0,
    };
    let migrate = legacy_migration(marker.is_some(), version)?;
    let (magic, format_version) = if migrate {
        (PROJECT_MAGIC.to_owned(), PROJECT_FORMAT_VERSION)
    } else {
        (marker.unwrap_or("").to_owned(), number)
    };
    validate_project_identity(&magic, format_version)?;
    Ok((magic, format_version))
}

#[test]
fn project_identity_is_strict_and_version_zero_is_migrated_explicitly() {
    assert!(judge_document(None, LegacyVersion::Integer(1)).is_err());
    let migrated = judge_document(None, LegacyVersion::Integer(0)).expect("version 0 migrates");
    assert_eq!(migrated.0, PROJECT_MAGIC);
    assert_eq!(migrated.1, PROJECT_FORMAT_VERSION);
    assert!(judge_document(Some("WRONG"), LegacyVersion::Integer(0)).is_err());
    assert_eq!(
        judge_document(Some(PROJECT_MAGIC), LegacyVersion::Integer(1)),
        Ok((PROJECT_MAGIC.to_owned(), 1))
    );
}

#[test]
fn duplicate_and_empty_scene_ids_are_migrated() {
    let mut ids = vec![
        "main".to_owned(),
        "main".to_owned(),
        String::new(),
        "bad id".to_owned(),
        "scene_000002".to_owned(),
        "level-2".to_owned(),
    ];
    migrate_scene_ids(&mut ids);
    assert_eq!(
        ids,
        vec!["main", "scene_000001", "scene_000002", "scene_000003", "scene_000004", "level-2"]
    );
}

#[test]
fn scene_names_become_file_names() {
    assert_eq!(sanitize_file_name("关卡:1/2", 0), "关卡_1_2");
    assert_eq!(sanitize_file_name("   ", 4), "scene_5");
    assert_eq!(package_name(Some("My Game")), "My Game.slide2d");
    assert_eq!(package_name(Some("  ")), "Slide2DProject.slide2d");
    assert_eq!(package_name(None), "Slide2DProject.slide2d");
}

#[test]
fn project_paths_get_the_slide2d_extension() {
    assert_eq!(ensure_project_extension("demo.slide2d"), "demo.slide2d");
    assert_eq!(ensure_project_extension("demo"), "demo.slide2d");
    assert_eq!(ensure_project_extension("demo.json"), "demo.slide2d");
    assert_eq!(workspace_path("demo.slide2d"), ".demo_slide2d");
    assert_eq!(workspace_path("games/demo.slide2d"), "games/.demo_slide2d");
}

#[test]
fn recent_projects_move_to_the_front() {
    let mut projects: Vec<String> = (1..=5).map(|i| format!("p{i}")).collect();
    remember_recent_project(&mut projects, "p3");
    assert_eq!(projects, vec!["p3", "p1", "p2", "p4", "p5"]);
    remember_recent_project(&mut projects, "new");
    assert_eq!(projects, vec!["new", "p3", "p1", "p2", "p4"]);

    let stored: Vec<String> = (1..=7).map(|i| format!("q{i}")).collect();
    let exists = vec![true, false, true, true, true, true, true];
    assert_eq!(
        recent_projects("SLIDE2D_RECENT_PROJECTS", &stored, &exists),
        vec!["q1", "q3", "q4", "q5", "q6"]
    );
    assert!(recent_projects("OTHER", &stored, &exists).is_empty());
}

#[test]
fn stored_paths_must_stay_inside_the_project() {
    assert_eq!(safe_relative_path("Content/a.png"), Ok("Content/a.png".to_owned()));
    assert!(safe_relative_path("../a.png").is_err());
}

#[test]
fn frame_paths_are_stored_relative_with_slashes() {
    assert_eq!(with_forward_slashes("a\\b\\c.png"), "a/b/c.png");
    assert_eq!(project_relative(Some("Content\\x.png"), "/p/Content/x.png"), "Content/x.png");
    assert_eq!(project_relative(None, "C:\\other\\x.png"), "C:/other/x.png");
    assert_eq!(resolved_path(true, "/p", "/abs/x.png"), "/abs/x.png");
    assert_eq!(resolved_path(false, "/p", "Content/x.png"), "/p/Content/x.png");
    assert_eq!(resolve_asset_path("/p", "x.png"), "/p/x.png");
}

#[test]
fn a_package_inside_a_folder_is_refused() {
    let nested = ProjectVerification {
        magic: "SLIDE2D_PROJECT".to_owned(),
        format_version: 1,
        project_file: "saves/demo.slide2d".to_owned(),
        file_size: 0,
        checksum: String::new(),
    };
    assert_eq!(
        verify_header(&nested),
        Err("工程验证失败：主工程文件必须是文件夹根目录中的.slide2d文件".to_owned())
    );
}
