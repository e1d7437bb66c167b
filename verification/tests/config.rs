use findupdate::parser::{
    config_line, kv_key, kv_key_inner, kv_pair, kv_pairs, parse_check_update, take_type,
    InvalidConfig,
};
use winnow::{
    ascii::alphanumeric1,
    combinator::{alt, repeat, separated_pair, terminated},
    token::take_until,
    PResult, Parser,
};

fn grammar_type<'a>(input: &mut &'a str) -> PResult<&'a str> {
    take_until(0.., "::").parse_next(input)
}

fn grammar_key_inner(input: &mut &str) -> PResult<()> {
    repeat(1.., alt((alphanumeric1, "_"))).parse_next(input)
}

fn grammar_key<'a>(input: &mut &'a str) -> PResult<&'a str> {
    grammar_key_inner.take().parse_next(input)
}

fn grammar_pair<'a>(input: &mut &'a str) -> PResult<(&'a str, &'a str)> {
    separated_pair(grammar_key, "=", take_until(0.., ";")).parse_next(input)
}

fn grammar_pairs<'a>(input: &mut &'a str) -> PResult<Vec<(&'a str, &'a str)>> {
    repeat(1.., terminated(grammar_pair, ";")).parse_next(input)
}

fn grammar_line<'a>(input: &mut &'a str) -> PResult<(&'a str, Vec<(&'a str, &'a str)>)> {
    separated_pair(grammar_type, "::", grammar_pairs).parse_next(input)
}

/// All texts of at most `n` of the given pieces.
fn texts_of(pieces: &[&str], n: usize) -> Vec<String> {
    let mut all = vec![String::new()];
    let mut last = vec![String::new()];
    for _ in 0..n {
        let mut next = Vec::new();
        for text in &last {
            for piece in pieces {
                next.push(format!("{text}{piece}"));
            }
        }
        all.extend(next.iter().cloned());
        last = next;
    }
    all
}

#[test]
fn every_parser_agrees_with_the_grammar() {
    for text in texts_of(&["a", "_", "=", ";", ":", "é"], 6) {
        let (mut ours, mut theirs) = (text.as_str(), text.as_str());
        assert_eq!(take_type(&mut ours).ok(), grammar_type(&mut theirs).ok(), "{text}");
        assert_eq!(ours, theirs, "{text}");

        let (mut ours, mut theirs) = (text.as_str(), text.as_str());
        assert_eq!(kv_key_inner(&mut ours).ok(), grammar_key_inner(&mut theirs).ok(), "{text}");
        assert_eq!(ours, theirs, "{text}");

        let (mut ours, mut theirs) = (text.as_str(), text.as_str());
        assert_eq!(kv_key(&mut ours).ok(), grammar_key(&mut theirs).ok(), "{text}");
        assert_eq!(ours, theirs, "{text}");

        let (mut ours, mut theirs) = (text.as_str(), text.as_str());
        assert_eq!(kv_pair(&mut ours).ok(), grammar_pair(&mut theirs).ok(), "{text}");
        assert_eq!(ours, theirs, "{text}");

        let (mut ours, mut theirs) = (text.as_str(), text.as_str());
        assert_eq!(kv_pairs(&mut ours).ok(), grammar_pairs(&mut theirs).ok(), "{text}");
        assert_eq!(ours, theirs, "{text}");
    }
}

#[test]
fn config_lines_agree_with_the_grammar() {
    for text in texts_of(&["a", "=", ";", ":", "::", "b=c;", "é"], 6) {
        let (mut ours, mut theirs) = (text.as_str(), text.as_str());
        assert_eq!(config_line(&mut ours).ok(), grammar_line(&mut theirs).ok(), "{text}");
        assert_eq!(ours, theirs, "{text}");
    }
}

#[test]
fn the_message_is_that_of_the_grammar() {
    for text in ["", "a", "a::", "a::b", "a::b=c", "::=;"] {
        let mut input = text;
        let error = grammar_line(&mut input).unwrap_err();
        assert_eq!(InvalidConfig.message(), format!("Invalid config line: {error}"));
    }
}

#[test]
fn a_config_holds_its_type_and_its_pairs() {
    let mut line = "anitya::id=1234;extra_key=a=b, c;rest";
    let config = parse_check_update(&mut line).unwrap();
    assert_eq!(config.get("type"), Some("anitya"));
    assert_eq!(config.get("id"), Some("1234"));
    assert_eq!(config.get("extra_key"), Some("a=b, c"));
    assert_eq!(config.get("rest"), None);
    assert_eq!(config.entries().len(), 3);
    assert_eq!(line, "rest");
}

#[test]
fn an_empty_type_and_empty_values_are_accepted() {
    let mut line = "::a=;";
    let config = parse_check_update(&mut line).unwrap();
    assert_eq!(config.get("type"), Some(""));
    assert_eq!(config.get("a"), Some(""));
    assert_eq!(line, "");
}

#[test]
fn the_last_pair_with_a_key_wins() {
    let mut line = "git::a=1;b=2;a=3;";
    let config = parse_check_update(&mut line).unwrap();
    assert_eq!(config.get("a"), Some("3"));
    assert_eq!(config.get("b"), Some("2"));
}

#[test]
fn a_pair_can_replace_the_type() {
    let mut line = "git::type=other;";
    let config = parse_check_update(&mut line).unwrap();
    assert_eq!(config.get("type"), Some("other"));
    assert_eq!(config.entries().len(), 1);
}

#[test]
fn the_type_ends_at_the_first_separator() {
    let mut line = "a:b::c=d::e;";
    let (kind, pairs) = config_line(&mut line).unwrap();
    assert_eq!(kind, "a:b");
    assert_eq!(pairs, vec![("c", "d::e")]);
}

#[test]
fn a_type_that_ends_in_a_colon_does_not_come_back() {
    let mut line = "a:::b=c;";
    assert_eq!(config_line(&mut line), Err(InvalidConfig));
    assert_eq!(line, ":b=c;");
}

#[test]
fn lines_that_are_no_config_are_refused() {
    for text in ["", "git", "git::", "git::a", "git::a=b", "git::=b;", "git:a=b;", "git::é=b;"] {
        let mut line = text;
        let error = parse_check_update(&mut line).unwrap_err();
        assert_eq!(error, InvalidConfig);
        assert_eq!(
            error.message(),
            "Invalid config line: Parsing Error: ContextError { context: [], cause: None }"
        );
    }
}

#[test]
fn what_is_written_reads_back() {
    let pairs = vec![("a", ""), ("B_9", "x=y z"), ("a", "é")];
    let mut text = String::from("github::");
    for (key, value) in &pairs {
        text.push_str(&format!("{key}={value};"));
    }
    let mut line = text.as_str();
    assert_eq!(config_line(&mut line), Ok(("github", pairs)));
    assert_eq!(line, "");
}

#[test]
fn what_stands_behind_the_pairs_is_left() {
    for tail in ["", ";", "b", "b=", "b=c", "=c;", " b=c;"] {
        let text = format!("git::a=1;{tail}");
        let mut line = text.as_str();
        assert_eq!(config_line(&mut line), Ok(("git", vec![("a", "1")])));
        assert_eq!(line, tail);
    }
    let mut line = "git::a=1;b=2;rest";
    assert_eq!(config_line(&mut line), Ok(("git", vec![("a", "1"), ("b", "2")])));
    assert_eq!(line, "rest");
}
