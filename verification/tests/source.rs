use mdbook_icons::source::{
    collection_file_name, collection_url_path, join_path, json_collection_prefix,
    normalize_local_dir, prefixes_from_index, remote_url, select_iconify_version,
    supports_renderer, trim_text, SourceError,
};

#[test]
fn local_dir_uses_json_subdir_when_present() {
    assert_eq!(normalize_local_dir("/data/iconify", true), "/data/iconify/json");
    assert_eq!(normalize_local_dir("/data/iconify/", true), "/data/iconify/json");
    assert_eq!(normalize_local_dir("", true), "json");
    assert_eq!(normalize_local_dir("/data/iconify", false), "/data/iconify");
    assert_eq!(join_path("a", "b"), std::path::Path::new("a").join("b").to_str().unwrap());
    assert_eq!(join_path("a/", "b"), std::path::Path::new("a/").join("b").to_str().unwrap());
}

#[test]
fn version_comes_from_env_then_file_then_bundle() {
    assert_eq!(select_iconify_version(Some(" 2.2.1\n"), Some("1"), "0"), "2.2.1");
    assert_eq!(select_iconify_version(None, Some("2.2.2\n"), "0"), "2.2.2");
    assert_eq!(select_iconify_version(None, None, " 2.2.3 "), "2.2.3");
    assert_eq!(trim_text("\t x \n"), "x");
}

#[test]
fn collection_files_are_json_files_with_a_stem() {
    assert_eq!(json_collection_prefix("mdi.json"), Some("mdi".to_string()));
    assert_eq!(json_collection_prefix("a.b.json"), Some("a.b".to_string()));
    assert_eq!(json_collection_prefix(".json"), None);
    assert_eq!(json_collection_prefix("mdi.jsonx"), None);
    assert_eq!(json_collection_prefix("json"), None);
    for name in ["mdi.json", "a.b.json", ".json", "x.txt", "..", "json"] {
        let p = std::path::Path::new(name);
        let std_prefix = if p.extension().and_then(|s| s.to_str()) == Some("json") {
            p.file_stem().and_then(|s| s.to_str()).map(|s| s.to_string())
        } else {
            None
        };
        assert_eq!(json_collection_prefix(name), std_prefix, "name {name}");
    }
}

#[test]
fn remote_addresses() {
    assert_eq!(collection_file_name("mdi"), "mdi.json");
    assert_eq!(collection_url_path("mdi"), "json/mdi.json");
    assert_eq!(
        remote_url("2.2.1", "json/mdi.json"),
        "https://raw.githubusercontent.com/iconify/icon-sets/2.2.1/json/mdi.json"
    );
}

#[test]
fn only_html_is_supported() {
    assert!(supports_renderer("html"));
    assert!(!supports_renderer("epub"));
    assert!(!supports_renderer("HTML"));
}

#[test]
fn collections_index_lists_prefixes() {
    let index = br#"{"mdi": {"name": "Material Design Icons"}, "twemoji": {}, "a-b": 1}"#;
    let prefixes = prefixes_from_index(index).unwrap();
    assert!(prefixes.contains("mdi"));
    assert!(prefixes.contains("twemoji"));
    assert!(prefixes.contains("a-b"));
    assert!(!prefixes.contains("name"));
    match prefixes_from_index(b"[1, 2]") {
        Err(SourceError::CollectionsIndex(message)) => assert!(!message.is_empty()),
        Ok(_) => panic!("an array is no index"),
    }
    assert!(prefixes_from_index(b"not json").is_err());
}
