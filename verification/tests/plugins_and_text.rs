use slide2d_engine::localization::{
    configured_language, current_language, initialize, localize_message, revision, set_language, tr, tr_args,
    Dictionary, Language,
};
use slide2d_engine::plugins::{
    check_manifest, import_plugin_folder, invalid_manifest, validate_manifest,
    PluginAuthorizationMap, PluginBehavior, PluginManifest, PluginNodeCategory,
    PluginNodeDefinition, PluginRegistry, PluginResourceDefinition, PluginRuntimeAuthorization, ScannedPlugin,
    OFFICIAL_PICKUP_PLUGIN_ID, PLUGIN_MAGIC, official_pickup_manifest,
};
use slide2d_engine::text::{decimal_string, trim_str};

fn valid_manifest() -> PluginManifest {
    PluginManifest {
        slide2d_plugin_system: PLUGIN_MAGIC.to_owned(),
        plugin_id: "test.plugin".to_owned(),
        name: "Test".to_owned(),
        version: "1".to_owned(),
        author: "Test".to_owned(),
        description: "Test".to_owned(),
        nodes: vec![PluginNodeDefinition {
            node_type: "set_value".to_owned(),
            display_name: "Set value".to_owned(),
            description: "Test".to_owned(),
            category: PluginNodeCategory::Action,
            behavior: PluginBehavior::SetObjectVariable,
            variable_name: "value".to_owned(),
            value: 1.0f32.to_bits(),
        }],
        resources: Vec::new(),
        editor_tools: Vec::new(),
        runtime_capabilities: vec![PluginBehavior::SetObjectVariable],
    }
}

fn dictionary(entries: &[(&str, &str)]) -> Dictionary {
    let mut d = Dictionary::new();
    for (k, v) in entries {
        d.insert((*k).to_owned(), (*v).to_owned());
    }
    d
}

#[test]
fn valid_plugin_manifest_is_accepted() {
    assert_eq!(validate_manifest(&valid_manifest()), Ok(()));
}

#[test]
fn invalid_plugin_magic_is_rejected() {
    let manifest = PluginManifest {
        slide2d_plugin_system: "WRONG".to_owned(),
        plugin_id: "bad".to_owned(),
        name: "bad".to_owned(),
        version: "1".to_owned(),
        author: "x".to_owned(),
        description: "x".to_owned(),
        nodes: Vec::new(),
        resources: Vec::new(),
        editor_tools: Vec::new(),
        runtime_capabilities: Vec::new(),
    };
    assert!(validate_manifest(&manifest).is_err());
}

#[test]
fn invalid_node_and_capability_declarations_are_rejected() {
    let mut unnamed_node = valid_manifest();
    unnamed_node.nodes[0].node_type.clear();
    assert!(validate_manifest(&unnamed_node).is_err());

    let mut repeated_node = valid_manifest();
    let copy = repeated_node.nodes[0].duplicate();
    repeated_node.nodes.push(copy);
    assert!(validate_manifest(&repeated_node).is_err());

    let mut no_capability = valid_manifest();
    no_capability.runtime_capabilities.clear();
    assert!(validate_manifest(&no_capability).is_err());

    let mut repeated_capability = valid_manifest();
    repeated_capability.runtime_capabilities.push(PluginBehavior::SetObjectVariable);
    assert!(validate_manifest(&repeated_capability).is_err());

    assert!(check_manifest(&valid_manifest(), &vec![]).is_ok());
}

#[test]
fn noncompliant_installed_plugin_has_load_error() {
    let mut manifest = valid_manifest();
    manifest.runtime_capabilities.clear();
    let id = manifest.plugin_id.clone();
    let outcome = match validate_manifest(&manifest) {
        Ok(()) => Ok(manifest),
        Err(error) => Err(error),
    };
    let scanned = vec![ScannedPlugin {
        directory: "project/plugins/bad_plugin".to_owned(),
        outcome,
        placeholder: invalid_manifest("project/plugins/bad_plugin", Some("bad_plugin")),
    }];
    let enabled = vec![id];
    let registry = PluginRegistry::from_scan("project".to_owned(), scanned, Some(&enabled));
    let plugin = registry
        .installed
        .iter()
        .find(|plugin| plugin.directory == "project/plugins/bad_plugin")
        .expect("the folder is still listed");
    assert!(!plugin.enabled);
    assert!(plugin.load_error.is_some());
}

#[test]
fn official_pickup_plugin_is_installed() {
    let manifest = official_pickup_manifest();
    assert!(validate_manifest(&manifest).is_ok());
    let scanned = vec![ScannedPlugin {
        directory: "project/plugins/slide2d_official_pickup".to_owned(),
        outcome: Ok(manifest),
        placeholder: invalid_manifest("project/plugins/slide2d_official_pickup", None),
    }];
    let enabled = vec![OFFICIAL_PICKUP_PLUGIN_ID.to_owned()];
    let registry = PluginRegistry::from_scan("project".to_owned(), scanned, Some(&enabled));
    let plugin = registry
        .installed
        .iter()
        .find(|plugin| plugin.manifest.plugin_id == OFFICIAL_PICKUP_PLUGIN_ID)
        .expect("the official pickup plugin is listed");
    assert!(plugin.enabled);
    assert!(plugin.manifest.nodes.iter().any(|node| node.behavior == PluginBehavior::PickupCheck));
}

#[test]
fn plugin_import_stays_inside_the_plugins_folder() {
    let mut escaping = valid_manifest();
    escaping.plugin_id = "../outside".to_owned();
    assert_eq!(
        import_plugin_folder(Ok(escaping), false).err(),
        Some("插件ID会离开plugins目录：../outside".to_owned())
    );
    let mut nested = valid_manifest();
    nested.plugin_id = "vendor/tool".to_owned();
    assert!(import_plugin_folder(Ok(nested), false).is_ok());
}

#[test]
fn plugin_import_refuses_installed_ids() {
    assert!(import_plugin_folder(Ok(valid_manifest()), true).is_err());
    assert!(import_plugin_folder(Ok(valid_manifest()), false).is_ok());
    assert_eq!(
        import_plugin_folder(Err("broken".to_owned()), false).err(),
        Some("broken".to_owned())
    );
}

#[test]
fn authorization_needs_declared_node_and_capability() {
    let manifest = valid_manifest();
    let authorization = PluginRuntimeAuthorization::from_manifest(&manifest);
    assert!(authorization.allows("set_value", &PluginBehavior::SetObjectVariable));
    assert!(!authorization.allows("set_value", &PluginBehavior::SetGlobalVariable));
    assert!(!authorization.allows("other", &PluginBehavior::SetObjectVariable));

    let mut map = PluginAuthorizationMap::new();
    assert!(map.get("test.plugin").is_none());
    map.insert("test.plugin".to_owned(), authorization);
    assert!(map.get("test.plugin").is_some());
    assert!(map.get("other.plugin").is_none());
}

#[test]
fn translation_falls_back_to_chinese_then_key() {
    let chinese = dictionary(&[("menu.file", "文件"), ("menu.edit", "编辑")]);
    let english = dictionary(&[("menu.file", "File"), ("greeting", "Hello {name}")]);
    let mut state = initialize(chinese, english, Language::English);
    assert_eq!(tr(&state, "menu.file"), "File");
    assert_eq!(tr(&state, "menu.edit"), "编辑");
    assert_eq!(tr(&state, "missing.key"), "missing.key");
    assert_eq!(tr_args(&state, "greeting", &[("name", "Ada".to_owned())]), "Hello Ada");

    let before = revision(&state);
    assert!(!set_language(&mut state, Language::English));
    assert_eq!(revision(&state), before);
    assert!(set_language(&mut state, Language::SimplifiedChinese));
    assert_eq!(revision(&state), before + 1);
    assert_eq!(current_language(&state), Language::SimplifiedChinese);
    assert_eq!(tr(&state, "menu.file"), "文件");
}

#[test]
fn language_codes_round_trip() {
    assert_eq!(Language::from_code(Language::English.code()), Language::English);
    assert_eq!(Language::from_code(Language::SimplifiedChinese.code()), Language::SimplifiedChinese);
    assert_eq!(Language::from_code("fr-FR"), Language::SimplifiedChinese);
}

#[test]
fn english_messages_use_longest_replacements_first() {
    let english = dictionary(&[
        ("replace.保存", "Save"),
        ("replace.保存工程", "Save project"),
        ("title", "Title"),
    ]);
    let state = initialize(Dictionary::new(), english, Language::English);
    assert_eq!(localize_message(&state, "保存工程失败"), "Save project失败");
    let chinese_state = initialize(Dictionary::new(), Dictionary::new(), Language::SimplifiedChinese);
    assert_eq!(localize_message(&chinese_state, "保存工程失败"), "保存工程失败");
}

#[test]
fn numbers_are_written_in_decimal() {
    assert_eq!(decimal_string(0), "0");
    assert_eq!(decimal_string(1024), "1024");
    assert_eq!(decimal_string(u64::MAX), "18446744073709551615");
    let trimmed: String = trim_str("  a b \n").into_iter().collect();
    assert_eq!(trimmed, "a b");
}

fn manifest_named(id: &str, name: &str) -> PluginManifest {
    let mut m = valid_manifest();
    m.plugin_id = id.to_owned();
    m.name = name.to_owned();
    m
}

#[test]
fn scanned_plugins_are_sorted_and_duplicate_ids_are_rejected() {
    let scanned = vec![
        ScannedPlugin {
            directory: "plugins/d".to_owned(),
            outcome: Ok(manifest_named("dup", "D")),
            placeholder: invalid_manifest("plugins/d", Some("d")),
        },
        ScannedPlugin {
            directory: "plugins/broken".to_owned(),
            outcome: Err("解析失败".to_owned()),
            placeholder: invalid_manifest("plugins/broken", Some("broken")),
        },
        ScannedPlugin {
            directory: "plugins/u".to_owned(),
            outcome: Ok(manifest_named("unique", "U")),
            placeholder: invalid_manifest("plugins/u", Some("u")),
        },
        ScannedPlugin {
            directory: "plugins/a".to_owned(),
            outcome: Ok(manifest_named("dup", "A")),
            placeholder: invalid_manifest("plugins/a", Some("a")),
        },
        ScannedPlugin {
            directory: "plugins/o".to_owned(),
            outcome: Ok(manifest_named("other", "O")),
            placeholder: invalid_manifest("plugins/o", Some("o")),
        },
    ];
    let enabled = vec!["unique".to_owned(), "dup".to_owned()];
    let registry = PluginRegistry::from_scan("project".to_owned(), scanned, Some(&enabled));
    assert_eq!(registry.project_root, "project");
    let names: Vec<&str> = registry.installed.iter().map(|p| p.manifest.name.as_str()).collect();
    assert_eq!(names, vec!["A", "D", "O", "U", "broken"]);
    for plugin in &registry.installed[0..2] {
        assert!(!plugin.enabled);
        assert_eq!(plugin.load_error.as_deref(), Some("发现重复插件ID：dup"));
    }
    assert_eq!(registry.installed[0].directory, "plugins/a");
    assert!(!registry.installed[2].enabled);
    assert_eq!(registry.installed[2].load_error, None);
    assert!(registry.installed[3].enabled);
    assert_eq!(registry.installed[3].load_error, None);
    assert_eq!(registry.installed[4].manifest.plugin_id, "invalid:plugins/broken");
    assert_eq!(registry.installed[4].load_error.as_deref(), Some("解析失败"));
    assert!(!registry.installed[4].enabled);
    assert_eq!(registry.enabled_ids(), vec!["unique".to_owned()]);
}

#[test]
fn every_loaded_plugin_is_enabled_without_a_saved_list() {
    let scanned = vec![
        ScannedPlugin {
            directory: "plugins/x".to_owned(),
            outcome: Ok(manifest_named("x", "X")),
            placeholder: invalid_manifest("plugins/x", Some("x")),
        },
        ScannedPlugin {
            directory: "plugins/y".to_owned(),
            outcome: Ok(manifest_named("y", "Y")),
            placeholder: invalid_manifest("plugins/y", None),
        },
    ];
    let mut registry = PluginRegistry::from_scan("p".to_owned(), scanned, None);
    assert!(registry.installed.iter().all(|p| p.enabled && p.load_error.is_none()));
    registry.set_enabled("x", false);
    assert_eq!(registry.enabled_ids(), vec!["y".to_owned()]);
    assert_eq!(invalid_manifest("plugins/y", None).name, "无效插件");
}

#[test]
fn saved_language_needs_the_marker() {
    assert_eq!(configured_language("SLIDE2D_LOCALIZATION_SYSTEM", "en-US"), Language::English);
    assert_eq!(configured_language("SLIDE2D_LOCALIZATION_SYSTEM", "zh-CN"), Language::SimplifiedChinese);
    assert_eq!(configured_language("OTHER", "en-US"), Language::SimplifiedChinese);
}

#[test]
fn a_replaced_dictionary_entry_is_not_applied() {
    let english = dictionary(&[
        ("replace.失败", "broke"),
        ("replace.失败", "failed"),
        ("replace.工程", "project"),
    ]);
    let state = initialize(Dictionary::new(), english, Language::English);
    assert_eq!(localize_message(&state, "工程失败"), "projectfailed");
}

#[test]
fn nested_resource_folders_are_accepted_unless_they_climb_out() {
    let mut manifest = valid_manifest();
    manifest.resources.push(PluginResourceDefinition {
        display_name: "Icons".to_owned(),
        folder: "items/icons".to_owned(),
        extensions: vec!["png".to_owned()],
    });
    assert_eq!(validate_manifest(&manifest), Ok(()));
    manifest.resources[0].folder = "items/../../escape".to_owned();
    assert!(validate_manifest(&manifest).is_err());
}

#[test]
fn plugin_ids_with_dot_pieces_are_judged_by_their_named_pieces() {
    let mut here = valid_manifest();
    here.plugin_id = "./tools//mine".to_owned();
    assert!(import_plugin_folder(Ok(here), false).is_ok());
    let mut escaping = valid_manifest();
    escaping.plugin_id = "./tools/./../..".to_owned();
    assert!(import_plugin_folder(Ok(escaping), false).is_err());
}
