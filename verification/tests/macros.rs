use findupdate::macros::{needed_macros, MacroDef};

fn def(name: &str, body: &str, refs: &[&str]) -> MacroDef {
    MacroDef {
        name: name.to_string(),
        body: body.to_string(),
        refs: refs.iter().map(|r| r.to_string()).collect(),
    }
}

fn needed(seeds: &[&str], defs: Vec<MacroDef>) -> Vec<(String, String)> {
    let seeds = seeds.iter().map(|s| s.to_string()).collect();
    let mut found = needed_macros(&seeds, &defs);
    found.sort();
    found
}

fn pairs(expected: &[(&str, &str)]) -> Vec<(String, String)> {
    expected.iter().map(|(a, b)| (a.to_string(), b.to_string())).collect()
}

#[test]
fn references_are_followed() {
    let defs = vec![
        def("a", "%{b}", &["b"]),
        def("b", "%{c}.%{d}", &["c", "d"]),
        def("c", "1", &[]),
        def("other", "%{a}", &["a"]),
    ];
    assert_eq!(needed(&["a"], defs), pairs(&[("a", "%{b}"), ("b", "%{c}.%{d}"), ("c", "1")]));
}

#[test]
fn circles_come_to_an_end() {
    let defs = vec![def("a", "%{b}", &["b"]), def("b", "%{a}", &["a", "b"])];
    assert_eq!(needed(&["b"], defs), pairs(&[("a", "%{b}"), ("b", "%{a}")]));
}

#[test]
fn nil_is_not_followed() {
    let defs = vec![def("nil", "x", &["a"]), def("a", "1", &[]), def("b", "%{nil}", &["nil"])];
    assert_eq!(needed(&["nil", "b"], defs), pairs(&[("b", "%{nil}")]));
}

#[test]
fn what_is_not_defined_is_left_out() {
    assert_eq!(needed(&["x"], vec![def("a", "1", &[])]), pairs(&[]));
    assert_eq!(needed(&[], vec![def("a", "1", &[])]), pairs(&[]));
    assert_eq!(needed(&["a", "a"], vec![def("a", "1", &["x"])]), pairs(&[("a", "1")]));
}
