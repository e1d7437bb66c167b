use findupdate::context::Context;
use findupdate::worker::{
    assess, candidate_version, check_request, check_update_worker, CheckError, Checked,
};

fn check(current: &str, fetched: &str, complied: Option<&str>, dry_run: bool) -> Checked {
    check_update_worker("pkg", current, fetched, complied, dry_run).unwrap()
}

fn table(version: &str) -> Context {
    let mut table = Context::new();
    table.insert("VER".to_string(), version.to_string());
    table
}

#[test]
fn a_candidate_is_trimmed_and_loses_one_letter() {
    assert_eq!(candidate_version(" v1.2\n"), "1.2");
    assert_eq!(candidate_version("1.2"), "1.2");
    assert_eq!(candidate_version("vv1"), "v1");
    assert_eq!(candidate_version("v 1"), " 1");
    assert_eq!(candidate_version("V1"), "V1");
    assert_eq!(candidate_version(" \u{3000}\n"), "");
    assert_eq!(candidate_version("v"), "");
}

#[test]
fn the_current_version_is_no_change() {
    let checked = check("1.2+git3", " v1.2+git3\n", None, false);
    assert_eq!(checked.result.name, "pkg");
    assert_eq!(checked.result.before, "1.2+git3");
    assert_eq!(checked.result.after, "1.2+git3");
    assert!(checked.result.warnings.is_empty());
    assert_eq!(checked.write, None);
}

#[test]
fn an_update_is_written_unless_the_run_is_dry() {
    let checked = check("1.2", "v1.3", None, false);
    assert_eq!(checked.result.before, "1.2");
    assert_eq!(checked.result.after, "1.3");
    assert!(checked.result.warnings.is_empty());
    assert_eq!(checked.write.as_deref(), Some("1.3"));
    let dry = check("1.2", "v1.3", None, true);
    assert_eq!(dry.result.after, "1.3");
    assert_eq!(dry.write, None);
}

#[test]
fn compliance_is_reported_where_it_changed_something() {
    let checked = check("1.2", "1.3-rc1", Some("1.3~rc1"), false);
    assert_eq!(checked.result.after, "1.3~rc1");
    assert_eq!(checked.result.warnings, vec!["Compliance mode enabled, was '1.3-rc1'"]);
    assert_eq!(checked.write.as_deref(), Some("1.3~rc1"));
    let same = check("1.2", "1.3", Some("1.3"), false);
    assert!(same.result.warnings.is_empty());
    let current = check("1.3~rc1", "1.3-rc1", Some("1.3~rc1"), false);
    assert_eq!(current.result.warnings, vec!["Compliance mode enabled, was '1.3-rc1'"]);
    assert_eq!(current.write, None);
}

#[test]
fn snapshots_are_told_by_their_marks() {
    for (version, mark) in [
        ("1+git20200101", Some("+git")),
        ("1+hg5", Some("+hg")),
        ("1+svn5", Some("+svn")),
        ("1+bzr5", Some("+bzr")),
        ("1+svn5+git6", Some("+svn")),
        ("1+g+hgit", Some("+hg")),
        ("1+dfsg", None),
    ] {
        let warnings = check(version, "2", None, true).result.warnings;
        let mut expected = vec![format!("Compound version number '{version}'")];
        if let Some(mark) = mark {
            expected.push(format!("Version number indicates a snapshot ({mark}) is used"));
        }
        assert_eq!(warnings, expected);
    }
}

#[test]
fn compliance_mode_does_not_look_for_marks() {
    assert!(check("1+git2", "2", Some("2"), true).result.warnings.is_empty());
}

#[test]
fn downgrades_are_reported() {
    assert_eq!(
        check("1.3", "1.2", None, true).result.warnings,
        vec!["Possible downgrade from the current version (1.3 -> 1.2)"]
    );
    assert!(check("1.9", "1.10", None, true).result.warnings.is_empty());
}

#[test]
fn versions_that_cannot_be_compared_are_reported() {
    assert_eq!(
        check("abc", "1.2", None, true).result.warnings,
        vec!["Versions not comparable: `abc` and `1.2`"]
    );
}

#[test]
fn all_warnings_come_in_order() {
    let result = assess("pkg", "2+git1", "v1", Some("1"), Some(0), Some(true));
    assert_eq!(
        result.warnings,
        vec![
            "Compliance mode enabled, was 'v1'",
            "Possible downgrade from the current version (2+git1 -> 1)",
        ]
    );
    let result = assess("pkg", "2+git1", "1", None, Some(3), None);
    assert_eq!(
        result.warnings,
        vec![
            "Compound version number '2+git1'",
            "Version number indicates a snapshot (+bzr) is used",
            "Versions not comparable: `2+git1` and `1`",
        ]
    );
}

#[test]
fn a_request_holds_version_and_configuration() {
    let request = check_request("/s/a.spec", &table(" 1.2 "), Some("git::url=x;a=b")).unwrap();
    assert_eq!(request.current, "1.2");
    assert_eq!(request.config.get("type"), Some("git"));
    assert_eq!(request.config.get("url"), Some("x"));
    assert_eq!(request.config.get("a"), Some("b"));
}

#[test]
fn the_last_semicolon_can_be_left_out() {
    for raw in ["git::url=x;a=b", "git::url=x;a=b;"] {
        let request = check_request("/s/a.spec", &table("1"), Some(raw)).unwrap();
        assert_eq!(request.config.entries().len(), 3);
        assert_eq!(request.config.get("a"), Some("b"));
    }
}

#[test]
fn white_space_is_that_of_unicode() {
    let mut spaces = vec!['\u{20}', '\u{85}', '\u{a0}', '\u{1680}', '\u{2028}', '\u{2029}'];
    spaces.extend(['\u{202f}', '\u{205f}', '\u{3000}']);
    spaces.extend('\u{9}'..='\u{d}');
    spaces.extend('\u{2000}'..='\u{200a}');
    for c in '\0'..=char::MAX {
        let trims = candidate_version(&format!("{c}1{c}")) == "1";
        assert_eq!(trims, spaces.contains(&c), "{c:?}");
    }
}

#[test]
fn a_request_can_fail_in_three_ways() {
    let error = check_request("/s/a.spec", &Context::new(), None).unwrap_err();
    assert!(matches!(&error, CheckError::MissingVersion(spec) if spec == "/s/a.spec"));
    assert_eq!(error.message().unwrap(), "/s/a.spec: 'Version' field is missing!");

    let error = check_request("/s/a.spec", &table("1"), None).unwrap_err();
    assert!(matches!(&error, CheckError::NoConfig(spec) if spec == "/s/a.spec"));
    assert_eq!(
        error.message().unwrap(),
        "/s/a.spec: no CHKUPDATE config available (TOML not provided)"
    );

    let error = check_request("/s/a.spec", &table("1"), Some("git")).unwrap_err();
    assert!(matches!(error, CheckError::Config(_)));
    assert_eq!(
        error.message().unwrap(),
        "Invalid config line: Parsing Error: ContextError { context: [], cause: None }"
    );
}
