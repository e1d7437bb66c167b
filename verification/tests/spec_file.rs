use findupdate::patterns::{read_definitions, read_names, version_line, SpecPatterns};
use findupdate::spec_file::{
    accept_version, macro_table, minimal_spec, parse_spec, query_args, resolve_version_with_rpmspec,
    update_version, Outcome, Resolution, SpecAction, SpecError, SpecEvent,
};

fn patterns() -> SpecPatterns {
    SpecPatterns::new().unwrap()
}

fn step(event: SpecEvent) -> SpecAction {
    parse_spec(&patterns(), event)
}

fn answered(stdout: &[u8]) -> Outcome {
    Outcome::Exited { success: true, stdout: stdout.to_vec(), stderr: Vec::new() }
}

fn finished(action: SpecAction) -> Result<String, SpecError> {
    match action {
        SpecAction::Finish(Ok(context)) => {
            assert_eq!(context.entries().len(), 1);
            Ok(context.get("VER").unwrap().to_string())
        }
        SpecAction::Finish(Err(error)) => Err(error),
        other => panic!("{other:?}"),
    }
}

/// Where the `Version` field stands, told by trying every way to match it: the label at the
/// start of a line, as much white space as possible, then as much of a line as possible.
fn field(text: &[char]) -> Option<(usize, usize, usize)> {
    let label: Vec<char> = "Version:".chars().collect();
    for start in 0..text.len() {
        if start > 0 && text[start - 1] != '\n' {
            continue;
        }
        if !text[start..].starts_with(&label) {
            continue;
        }
        let from = start + label.len();
        let mut space = from;
        while space < text.len() && text[space].is_whitespace() {
            space += 1;
        }
        for value in (from..=space).rev() {
            let mut end = value;
            while end < text.len() && text[end] != '\n' {
                end += 1;
            }
            if end > value {
                return Some((start, value, end));
            }
        }
    }
    None
}

fn spec_texts() -> Vec<String> {
    texts_of(&["Version:", "\n", " ", "x", "\u{2028}", "\nVersion:"], 5)
}

/// All texts of at most `n` of the given pieces.
fn texts_of(pieces: &[&str], n: usize) -> Vec<String> {
    let mut all = vec![String::new()];
    let mut last = vec![String::new()];
    for _ in 0..n {
        let mut next = Vec::new();
        for text in &last {
            for piece in pieces {
                next.push(format!("{text}{piece}"));
            }
        }
        all.extend(next.iter().cloned());
        last = next;
    }
    all
}

fn skip_while(text: &[char], from: usize, keep: impl Fn(char) -> bool) -> usize {
    let mut i = from;
    while i < text.len() && keep(text[i]) {
        i += 1;
    }
    i
}

fn is_word(c: char) -> bool {
    c == '_' || c.is_alphanumeric()
}

fn part(text: &[char], from: usize, to: usize) -> String {
    text[from..to].iter().collect()
}

/// The names in the references of a text, told character by character.
fn references(text: &str) -> Vec<String> {
    let chars: Vec<char> = text.chars().collect();
    let mut found = Vec::new();
    let mut i = 0;
    while i + 1 < chars.len() {
        let mut name = i + 2;
        for mark in ['!', '?'] {
            if name < chars.len() && chars[name] == mark {
                name += 1;
            }
        }
        let end = skip_while(&chars, name, is_word);
        if chars[i] == '%' && chars[i + 1] == '{' && name < end {
            found.push(part(&chars, name, end));
            i = end;
        } else {
            i += 1;
        }
    }
    found
}

/// The definitions of a text, told character by character.
fn definitions(text: &str) -> Vec<(String, String)> {
    let chars: Vec<char> = text.chars().collect();
    let words: Vec<Vec<char>> =
        ["%define", "%global"].iter().map(|word| word.chars().collect()).collect();
    let mut found = Vec::new();
    let mut i = 0;
    while i < chars.len() {
        let starts_line = i == 0 || chars[i - 1] == '\n';
        if starts_line && words.iter().any(|word| chars[i..].starts_with(word)) {
            let name = skip_while(&chars, i + 7, char::is_whitespace);
            let name_end = skip_while(&chars, name, is_word);
            let next = skip_while(&chars, name_end, char::is_whitespace);
            let body = if next < chars.len() {
                Some(next)
            } else {
                chars.iter().rposition(|c| *c != '\n')
            };
            if let Some(body) = body {
                if i + 7 < name && name < name_end && name_end < next && name_end < body {
                    let end = skip_while(&chars, body, |c| c != '\n');
                    let text = part(&chars, body, end).trim().to_string();
                    found.push((part(&chars, name, name_end), text));
                    i = end;
                    continue;
                }
            }
        }
        i += 1;
    }
    found
}

#[test]
fn references_are_found_in_every_small_text() {
    let patterns = patterns();
    let texts = texts_of(&["%{", "!", "?", "a", "_", "é", "}", "%"], 5);
    for chunk in texts.chunks(500) {
        for separator in ["", " "] {
            let text = chunk.join(separator);
            assert_eq!(patterns.macro_names(&text), references(&text));
        }
    }
}

#[test]
fn definitions_are_found_in_every_small_text() {
    let patterns = patterns();
    let pieces = ["%define a", "%global", " ", "\n", "b", "-"];
    for text in texts_of(&pieces, 3) {
        assert_eq!(patterns.definitions(&text), definitions(&text), "{text:?}");
    }
    for chunk in texts_of(&pieces, 5).chunks(100) {
        for separator in ["\n", "\nx\n"] {
            let text = chunk.join(separator);
            assert_eq!(patterns.definitions(&text), definitions(&text));
        }
    }
    for text in ["%define é_1 x", "%define a \u{2028}\n", "%define a\n\n", "%global\na\nb c \n"] {
        assert_eq!(patterns.definitions(text), definitions(text), "{text:?}");
    }
}

#[test]
fn the_version_field_is_found_in_every_small_text() {
    let patterns = patterns();
    for text in spec_texts() {
        let chars: Vec<char> = text.chars().collect();
        let expected = field(&chars).map(|(_, value, end)| {
            chars[value..end].iter().collect::<String>().trim().to_string()
        });
        assert_eq!(patterns.version(&text), expected, "{text:?}");
    }
}

#[test]
fn the_version_field_is_replaced_in_every_small_text() {
    let patterns = patterns();
    for text in spec_texts() {
        let chars: Vec<char> = text.chars().collect();
        let expected = match field(&chars) {
            Some((_, value, end)) => {
                let before: String = chars[..value].iter().collect();
                let behind: String = chars[end..].iter().collect();
                format!("{before}new{behind}")
            }
            None => text.clone(),
        };
        assert_eq!(update_version(&patterns, "new", &text), expected, "{text:?}");
    }
}

#[test]
fn a_version_that_is_written_is_read() {
    let patterns = patterns();
    for text in [
        "Version: 1",
        "Name: a\nVersion:\t1.0 \nRelease: 1\n",
        "Version:\n\n x\nVersion: 2\n",
    ] {
        let written = update_version(&patterns, "2.0", text);
        assert_eq!(patterns.version(&written).as_deref(), Some("2.0"));
        assert_eq!(update_version(&patterns, "2.0", &written), written);
        assert_eq!(finished(step(SpecEvent::Loaded(Ok(written)))).unwrap(), "2.0");
    }
}

#[test]
fn only_the_first_field_is_replaced() {
    let text = "Name: a\nVersion:        1.0\nVersion: 2.0\n Version: 3\n";
    assert_eq!(
        update_version(&patterns(), "9", text),
        "Name: a\nVersion:        9\nVersion: 2.0\n Version: 3\n"
    );
    assert_eq!(update_version(&patterns(), "9", "Name: a\n"), "Name: a\n");
    assert_eq!(update_version(&patterns(), "$1", "Version: 1\n"), "Version: $1\n");
}

#[test]
fn white_space_around_a_version_is_written_and_not_read() {
    let patterns = patterns();
    for new in [" 2", "2 ", "\n2", "2\n", " \u{3000}2.0 b\n "] {
        let written = update_version(&patterns, new, "Name: a\nVersion: 1\nRelease: 1\n");
        assert_eq!(written, format!("Name: a\nVersion: {new}\nRelease: 1\n"));
        assert_eq!(patterns.version(&written).as_deref(), Some(new.trim()));
    }
    let written = update_version(&patterns, "2 ", "Version: 1\n");
    assert_eq!(update_version(&patterns, "2 ", &written), written);
}

#[test]
fn a_version_with_a_newline_is_not_read_back() {
    let written = update_version(&patterns(), "2\n3", "Version: 1\n");
    assert_eq!(patterns().version(&written).as_deref(), Some("2"));
    assert_eq!(update_version(&patterns(), "2\n3", &written), "Version: 2\n3\n3\n");
}

#[test]
fn a_bare_reference_is_not_followed() {
    let text = "%define x 1\nVersion: 2.%x\n";
    let found = resolve_version_with_rpmspec(&patterns(), text).unwrap();
    assert!(matches!(found, Resolution::Version(v) if v == "2.%x"));
    let refused = finished(step(SpecEvent::Loaded(Ok(text.to_string()))));
    assert!(matches!(refused, Err(SpecError::UnresolvedMacros(v)) if v == "2.%x"));
}

#[test]
fn an_empty_version_is_not_read_back() {
    let written = update_version(&patterns(), "", "Version: 1\nRelease: 2\n");
    assert_eq!(written, "Version: \nRelease: 2\n");
    assert_eq!(patterns().version(&written).as_deref(), Some("Release: 2"));
}

#[test]
fn a_field_is_put_together() {
    assert_eq!(version_line(Some(" \t"), "1"), "Version: \t1");
    assert_eq!(version_line(None, "1"), "Version:1");
}

#[test]
fn definitions_are_read() {
    let text = "%define a 1\n%global  b_2\t%{a}.x  \n %define c 1\n%define d\n\
                %undefine e 1\n%define a 2\n";
    let found = patterns().definitions(text);
    let expected = [("a", "1"), ("b_2", "%{a}.x"), ("d", "%undefine e 1"), ("a", "2")];
    assert_eq!(found.len(), expected.len());
    for (pair, wanted) in found.iter().zip(expected) {
        assert_eq!((pair.0.as_str(), pair.1.as_str()), wanted);
    }
}

#[test]
fn references_are_read() {
    assert_eq!(
        patterns().macro_names("%{a}.%{?b}.%{!?c:x%{d}}.%{e:1}.%f.%{}.%{?!g}.{h}"),
        vec!["a", "b", "c", "d", "e"]
    );
    assert!(patterns().macro_names("1.0").is_empty());
}

#[test]
fn groups_that_are_missing_are_empty() {
    let some = |text: &str| Some(text.to_string());
    let found = vec![vec![some("x"), some("name"), some(" body ")], vec![some("y"), None], vec![]];
    let pairs = read_definitions(&found);
    assert_eq!(pairs[0], ("name".to_string(), "body".to_string()));
    assert_eq!(pairs[1], (String::new(), String::new()));
    assert_eq!(pairs[2], (String::new(), String::new()));
    assert_eq!(read_names(&found), vec!["name", "", ""]);
}

#[test]
fn the_last_definition_of_a_macro_counts() {
    let table = macro_table(&patterns(), "%define a %{b}\n%global c 1\n%define a %{?d}%{e}\n");
    assert_eq!(table.len(), 2);
    let a = table.iter().find(|d| d.name == "a").unwrap();
    assert_eq!(a.body, "%{?d}%{e}");
    assert_eq!(a.refs, vec!["d", "e"]);
    let c = table.iter().find(|d| d.name == "c").unwrap();
    assert!(c.refs.is_empty());
}

#[test]
fn a_plain_version_needs_no_query() {
    let found = resolve_version_with_rpmspec(&patterns(), "Name: a\nVersion:  1.2 \n").unwrap();
    assert!(matches!(found, Resolution::Version(v) if v == "1.2"));
    let found = resolve_version_with_rpmspec(&patterns(), "Version: 1%x\n").unwrap();
    assert!(matches!(found, Resolution::Version(v) if v == "1%x"));
}

#[test]
fn a_text_without_version_is_refused() {
    let error = resolve_version_with_rpmspec(&patterns(), "Name: a\n Version: 1\n").unwrap_err();
    assert!(matches!(error, SpecError::NoVersion));
    assert_eq!(error.message().unwrap(), "No Version field in spec");
}

#[test]
fn a_minimal_spec_holds_what_the_version_needs() {
    let text = "%define unused 0\n%global base %{major}.%{minor}\n%define major 5\n\
                %define minor %{nil}7\n%define nil 8\nVersion: %{base}%{?rc}\n";
    let found = resolve_version_with_rpmspec(&patterns(), text).unwrap();
    let Resolution::Query(minimal) = found else {
        panic!("no query");
    };
    let tail = "Name: dummy\nVersion: %{base}%{?rc}\nRelease: 1\nSummary: dummy\n\
                License: MIT\n%description\ndummy\n";
    let lines = minimal.strip_suffix(tail).unwrap();
    let mut lines: Vec<&str> = lines.lines().collect();
    lines.sort();
    assert_eq!(
        lines,
        vec![
            "%global base %{major}.%{minor}",
            "%global major 5",
            "%global minor %{nil}7",
        ]
    );
    assert_eq!(patterns().version(&minimal).as_deref(), Some("%{base}%{?rc}"));
}

#[test]
fn definitions_come_first_in_a_minimal_spec() {
    let defines = vec![
        ("a".to_string(), "1".to_string()),
        ("b".to_string(), "%{a}".to_string()),
    ];
    assert_eq!(
        minimal_spec(&defines, "%{b}"),
        "%global a 1\n%global b %{a}\nName: dummy\nVersion: %{b}\nRelease: 1\nSummary: dummy\n\
         License: MIT\n%description\ndummy\n"
    );
}

#[test]
fn the_query_prints_the_version() {
    assert_eq!(query_args("/a.spec"), vec!["-q", "--srpm", "--qf", "%{version}", "/a.spec"]);
}

#[test]
fn the_first_step_is_a_query() {
    let SpecAction::Query(args) = step(SpecEvent::Started(Some("/a.spec".to_string()))) else {
        panic!("no query");
    };
    assert_eq!(args, query_args("/a.spec"));
    let error = finished(step(SpecEvent::Started(None))).unwrap_err();
    assert!(matches!(error, SpecError::InvalidPath));
    assert_eq!(error.message().unwrap(), "Invalid spec path");
}

#[test]
fn an_answer_is_the_version() {
    assert_eq!(finished(step(SpecEvent::Queried(answered(b" 1.2\n")))).unwrap(), "1.2");
    assert_eq!(finished(step(SpecEvent::Queried(answered(b"")))).unwrap(), "");
}

#[test]
fn an_answer_with_macros_is_refused() {
    let error = finished(step(SpecEvent::Queried(answered(b"1%{x}\n")))).unwrap_err();
    assert!(matches!(&error, SpecError::UnresolvedMacros(v) if v == "1%{x}"));
    assert_eq!(error.message().unwrap(), "Unresolved macros in version: 1%{x}");
    assert!(accept_version("%".to_string()).is_err());
    assert_eq!(accept_version("1".to_string()).unwrap().get("VER"), Some("1"));
}

#[test]
fn an_answer_must_be_text() {
    for event in [SpecEvent::Queried(answered(b"1\xff")), SpecEvent::Resolved(answered(b"1\xff"))] {
        let error = finished(step(event)).unwrap_err();
        assert_eq!(error.message(), None);
        assert!(matches!(error, SpecError::NotUtf8(bytes) if bytes == b"1\xff"));
    }
}

#[test]
fn without_an_answer_the_text_is_read() {
    let failed = Outcome::Exited { success: false, stdout: b"1.2".to_vec(), stderr: Vec::new() };
    assert!(matches!(step(SpecEvent::Queried(failed)), SpecAction::Load));
    let missing = Outcome::NotStarted("no such file".to_string());
    assert!(matches!(step(SpecEvent::Queried(missing)), SpecAction::Load));
}

#[test]
fn a_text_is_resolved() {
    let plain = SpecEvent::Loaded(Ok("Version: 1.2\n".to_string()));
    assert_eq!(finished(step(plain)).unwrap(), "1.2");
    let bare = SpecEvent::Loaded(Ok("Version: %x\n".to_string()));
    assert!(matches!(finished(step(bare)), Err(SpecError::UnresolvedMacros(v)) if v == "%x"));
    let open = SpecEvent::Loaded(Ok("Version: %{x}\n".to_string()));
    let SpecAction::QueryMinimal(text) = step(open) else {
        panic!("no query");
    };
    assert_eq!(text, minimal_spec(&vec![], "%{x}"));
    let none = SpecEvent::Loaded(Ok(String::new()));
    assert!(matches!(finished(step(none)), Err(SpecError::NoVersion)));
}

#[test]
fn failures_to_read_and_write_are_told() {
    let error = finished(step(SpecEvent::Loaded(Err("denied".to_string())))).unwrap_err();
    assert!(matches!(&error, SpecError::Read(why) if why == "denied"));
    assert_eq!(error.message().unwrap(), "denied");
    let error = finished(step(SpecEvent::NotWritten("full".to_string()))).unwrap_err();
    assert!(matches!(&error, SpecError::Write(why) if why == "full"));
    assert_eq!(error.message().unwrap(), "full");
}

#[test]
fn the_second_answer_is_the_version() {
    assert_eq!(finished(step(SpecEvent::Resolved(answered(b"5.7\n")))).unwrap(), "5.7");
    let error = finished(step(SpecEvent::Resolved(answered(b" \n")))).unwrap_err();
    assert!(matches!(error, SpecError::EmptyVersion));
    assert_eq!(error.message().unwrap(), "rpmspec returned empty version");
    let open = finished(step(SpecEvent::Resolved(answered(b"%{x}\n"))));
    assert!(matches!(open, Err(SpecError::UnresolvedMacros(v)) if v == "%{x}"));
}

#[test]
fn a_second_query_can_fail() {
    let failed = Outcome::Exited {
        success: false,
        stdout: b"1".to_vec(),
        stderr: b" error: \xff line\n".to_vec(),
    };
    let error = finished(step(SpecEvent::Resolved(failed))).unwrap_err();
    assert!(matches!(&error, SpecError::QueryFailed(why) if why == "error: \u{fffd} line"));
    assert_eq!(error.message().unwrap(), "rpmspec failed: error: \u{fffd} line");
    let failed = Outcome::Exited {
        success: false,
        stdout: Vec::new(),
        stderr: " error: é\n".as_bytes().to_vec(),
    };
    let error = finished(step(SpecEvent::Resolved(failed))).unwrap_err();
    assert!(matches!(error, SpecError::QueryFailed(why) if why == "error: é"));
    let missing = Outcome::NotStarted("no such file".to_string());
    let error = finished(step(SpecEvent::Resolved(missing))).unwrap_err();
    assert!(matches!(&error, SpecError::QueryError(why) if why == "no such file"));
    assert_eq!(error.message().unwrap(), "rpmspec error: no such file");
}
