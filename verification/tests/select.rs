use findupdate::patterns::NameFilter;
use findupdate::select::{
    collect_spec, has_spec_name, normalize_name, read_toml_config, retain_configured,
    retain_included, table_of, PathTexts, SpecFile, MAX_DEPTH, MIN_DEPTH,
};

fn file(path: u8, parent: Option<&str>, name: &str) -> SpecFile<u8> {
    SpecFile { path, parent: parent.map(|p| p.to_string()), name: name.to_string() }
}

fn paths(files: Vec<SpecFile<u8>>) -> Vec<u8> {
    files.into_iter().map(|f| f.path).collect()
}

fn texts(whole: &str, file_name: Option<&str>) -> PathTexts {
    PathTexts { whole: whole.to_string(), file_name: file_name.map(|n| n.to_string()) }
}

#[test]
fn spec_files_are_known_by_their_names() {
    for name in ["spec", ".spec", "a.spec", "a.b.spec"] {
        assert!(has_spec_name(name), "{name}");
    }
    for name in ["", "pec", "aspec", "spec.", "a.spec.in", "SPEC", "spec "] {
        assert!(!has_spec_name(name), "{name}");
    }
}

#[test]
fn spec_files_are_collected_in_order() {
    let entries = vec![
        ("b.spec".to_string(), 1),
        ("README".to_string(), 2),
        ("spec".to_string(), 3),
        ("a.spec".to_string(), 4),
    ];
    assert_eq!(collect_spec(entries), vec![1, 3, 4]);
    assert_eq!(collect_spec(Vec::<(String, u8)>::new()), Vec::<u8>::new());
    assert_eq!((MIN_DEPTH, MAX_DEPTH), (1, 3));
}

#[test]
fn a_package_is_named_after_its_directory() {
    let path = texts("/specs/zlib/zlib.spec", Some("zlib.spec"));
    let parent = texts("/specs/zlib", Some("zlib"));
    assert_eq!(normalize_name(&path, Some(&parent)), "zlib");
    assert_eq!(normalize_name(&texts("/a.spec", Some("a.spec")), Some(&texts("/", None))), "/");
    assert_eq!(normalize_name(&texts("a.spec", Some("a.spec")), Some(&texts("", None))), "");
    assert_eq!(normalize_name(&texts("/", None), None), "/");
    assert_eq!(normalize_name(&texts("x", Some("x")), None), "x");
}

#[test]
fn directories_are_matched_anywhere() {
    let filter = NameFilter::new("z(lib|std)$").unwrap();
    assert!(filter.accepts("/specs/zlib"));
    assert!(filter.accepts("zstd"));
    assert!(!filter.accepts("/specs/zlib2"));
    assert!(!filter.accepts(""));
    let files = vec![
        file(1, Some("/specs/zlib"), "zlib"),
        file(2, Some("/specs/curl"), "curl"),
        file(3, None, "zlib"),
        file(4, Some("/specs/zstd"), "zstd"),
    ];
    assert_eq!(paths(retain_included(files, &filter)), vec![1, 4]);
}

#[test]
fn a_pattern_that_is_no_regular_expression_is_refused() {
    assert!(NameFilter::new("(").is_err());
    assert!(NameFilter::new("").unwrap().accepts("anything"));
}

#[test]
fn packages_without_configuration_are_left_out() {
    let config = table_of(vec![
        ("a".to_string(), "git::url=x".to_string()),
        ("b".to_string(), String::new()),
    ]);
    let files = vec![
        file(1, None, "a"),
        file(2, None, "b"),
        file(3, None, "c"),
        file(4, Some("x"), "a"),
    ];
    let kept = retain_configured(files, &config);
    for f in &kept {
        assert!(!config.get(&f.name).unwrap().is_empty());
    }
    assert_eq!(paths(kept), vec![1, 4]);
}

#[test]
fn configurations_are_read_from_toml() {
    let document = "# packages\nzlib = \"anitya::id=5303\"\n\"a b\" = ''\n";
    let config = read_toml_config(document).unwrap();
    assert_eq!(config.get("zlib"), Some("anitya::id=5303"));
    assert_eq!(config.get("a b"), Some(""));
    assert_eq!(config.get("b"), None);
    assert_eq!(config.entries().len(), 2);
    assert!(read_toml_config("").unwrap().entries().is_empty());
}

#[test]
fn toml_that_is_no_table_of_strings_is_refused() {
    for document in ["a = 1", "a", "[a]\nb = \"c\"", "a = \"1\"\na = \"2\"", "a = [\"b\"]"] {
        assert!(read_toml_config(document).is_err(), "{document}");
    }
}

#[test]
fn later_pairs_replace_earlier_ones() {
    let table = table_of(vec![
        ("a".to_string(), "1".to_string()),
        ("a".to_string(), "2".to_string()),
    ]);
    assert_eq!(table.get("a"), Some("2"));
    assert_eq!(table.entries().len(), 1);
}
