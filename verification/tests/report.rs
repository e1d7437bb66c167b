use findupdate::report::{
    changed_results, checksum_args, checksum_command, checksum_notice, checksum_packages, log_text,
    package_names, print_results, ReportLine, Span, Style, CHECKSUM_PROGRAM,
};
use findupdate::worker::CheckerResult;

type Outcome = Result<CheckerResult, String>;

fn found(name: &str, before: &str, after: &str, warnings: &[&str]) -> Outcome {
    Ok(CheckerResult {
        name: name.to_string(),
        before: before.to_string(),
        after: after.to_string(),
        warnings: warnings.iter().map(|w| w.to_string()).collect(),
    })
}

fn sample() -> Vec<Outcome> {
    vec![
        found("zlib", "1.2", "1.3", &["one", "two"]),
        Err("curl: no answer".to_string()),
        found("zstd", "1.5", "1.5", &["ignored"]),
        found("a name that is longer than its column", "1", "2", &[]),
        Err("other".to_string()),
    ]
}

fn line(spans: &[(Style, &str)]) -> ReportLine {
    let spans = spans.iter().map(|(style, text)| Span { style: *style, text: text.to_string() });
    ReportLine { spans: spans.collect() }
}

fn plain(text: &str) -> ReportLine {
    line(&[(Style::Plain, text)])
}

fn text(line: &ReportLine) -> String {
    line.spans.iter().map(|span| span.text.as_str()).collect()
}

#[test]
fn the_report_lists_updates_and_errors() {
    let lines = print_results(&sample(), false);
    let expected = vec![
        plain("The following packages were updated:"),
        plain(&format!("{:<30}{:^44}\t\tIssues", "Name", "Version")),
        line(&[
            (Style::Cyan, &format!("{:<30}", "zlib")),
            (Style::Red, &format!("{:>20}", "1.2")),
            (Style::Plain, " -> "),
            (Style::Green, &format!("{:<20}", "1.3")),
            (Style::Plain, "\t\t"),
            (Style::Yellow, "one; two"),
        ]),
        line(&[
            (Style::Cyan, "a name that is longer than its column"),
            (Style::Red, &format!("{:>20}", "1")),
            (Style::Plain, " -> "),
            (Style::Green, &format!("{:<20}", "2")),
            (Style::Plain, "\t\t"),
            (Style::Yellow, ""),
        ]),
        plain("\nErrors:"),
        line(&[(Style::Bold, "curl: no answer")]),
        line(&[(Style::Bold, "other")]),
    ];
    assert_eq!(lines, expected);
}

#[test]
fn lines_show_their_parts() {
    let lines = print_results(&sample(), false);
    assert_eq!(
        text(&lines[2]),
        format!("{:<30}{:>20} -> {:<20}\t\t{}", "zlib", "1.2", "1.3", "one; two")
    );
    assert_eq!(text(&lines[4]), "\nErrors:");
    assert_eq!(text(&lines[5]), "curl: no answer");
}

#[test]
fn the_short_report_lists_versions() {
    assert_eq!(print_results(&sample(), true), vec![plain("1.3"), plain("1.5"), plain("2")]);
    assert_eq!(print_results(&vec![], true), vec![]);
    assert_eq!(print_results(&vec![Err("x".to_string())], true), vec![]);
}

#[test]
fn an_empty_report_has_its_headings() {
    let lines = print_results(&vec![], false);
    assert_eq!(lines.len(), 3);
    assert_eq!(lines[2], plain("\nErrors:"));
}

#[test]
fn every_check_has_its_line() {
    let results = sample();
    let items = changed_results(&results);
    let failed = results.iter().filter(|r| r.is_err()).count();
    assert_eq!(print_results(&results, true).len() + failed, results.len());
    assert_eq!(print_results(&results, false).len(), 3 + items.len() + failed);
}

#[test]
fn only_changes_are_listed() {
    let items = changed_results(&sample());
    assert_eq!(items.len(), 2);
    assert_eq!(items[0].name, "zlib");
    assert_eq!(items[0].before, "1.2");
    assert_eq!(items[0].after, "1.3");
    assert_eq!(items[0].warnings, vec!["one", "two"]);
    assert_eq!(items[1].after, "2");
    assert_eq!(package_names(&items), vec!["zlib", "a name that is longer than its column"]);
    assert_eq!(log_text(&items), "zlib\na name that is longer than its column\n");
    assert_eq!(log_text(&vec![]), "");
}

#[test]
fn checksums_are_updated_for_all_changes_at_once() {
    let results = vec![
        found("a", "1", "2", &[]),
        found("b", "1", "1", &[]),
        found("c", "1", "3", &[]),
    ];
    let packages = checksum_packages(&results);
    assert_eq!(packages, "a c");
    let args = checksum_args(&packages);
    assert_eq!(args, vec!["-E", "ciel", "shell", "--", "acbs-build", "-gw", "a c"]);
    assert_eq!(
        checksum_notice(&packages),
        "Updating checksum via: sudo -E ciel shell -- acbs-build -gw a c"
    );
    assert_eq!(
        checksum_notice(&packages),
        format!("Updating checksum via: {} {}", CHECKSUM_PROGRAM, args.join(" "))
    );
    assert_eq!(checksum_packages(&vec![]), "");
}

#[test]
fn a_dry_run_updates_no_checksums() {
    assert_eq!(checksum_command("a c", false), Some(checksum_args("a c")));
    assert_eq!(checksum_command("a c", true), None);
}
