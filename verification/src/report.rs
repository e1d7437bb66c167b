//! What is reported of the checks of many packages.

use crate::text::{chain, join, joined, pad_both, pad_left, pad_right, same_text, texts};
use crate::text::{centered, flush_left, flush_right};
use crate::worker::{CheckerResult, CheckerResultView};
use vstd::prelude::*;
use vstd::seq_lib::lemma_seq_contains_after_push;

verus! {

/// The views of the outcomes of some checks; a failed check has its error as text.
pub open spec fn outcome_views(results: Seq<Result<CheckerResult, String>>) -> Seq<
    Result<CheckerResultView, Seq<char>>,
> {
    results.map_values(
        |r: Result<CheckerResult, String>|
            match r {
                Ok(result) => Ok(result@),
                Err(error) => Err(error@),
            },
    )
}

/// The checks that did not fail, in order.
pub open spec fn successes(results: Seq<Result<CheckerResultView, Seq<char>>>) -> Seq<
    CheckerResultView,
>
    decreases results.len(),
{
    if results.len() == 0 {
        Seq::empty()
    } else {
        let front = successes(results.drop_last());
        match results.last() {
            Ok(result) => front.push(result),
            Err(_) => front,
        }
    }
}

/// The errors of the checks that failed, in order.
pub open spec fn failures(results: Seq<Result<CheckerResultView, Seq<char>>>) -> Seq<Seq<char>>
    decreases results.len(),
{
    if results.len() == 0 {
        Seq::empty()
    } else {
        let front = failures(results.drop_last());
        match results.last() {
            Ok(_) => front,
            Err(error) => front.push(error),
        }
    }
}

/// The checks that found another version than the package has, in order.
pub open spec fn changed(results: Seq<Result<CheckerResultView, Seq<char>>>) -> Seq<
    CheckerResultView,
>
    decreases results.len(),
{
    if results.len() == 0 {
        Seq::empty()
    } else {
        let front = changed(results.drop_last());
        match results.last() {
            Ok(result) if result.before != result.after => front.push(result),
            _ => front,
        }
    }
}

/// A check counts as a change exactly if it did not fail and found another version.
pub proof fn law_changed_are_the_updates(
    results: Seq<Result<CheckerResultView, Seq<char>>>,
    result: CheckerResultView,
)
    ensures
        changed(results).contains(result) <==> results.contains(Ok(result)) && result.before
            != result.after,
    decreases results.len(),
{
    if results.len() > 0 {
        let front = results.drop_last();
        law_changed_are_the_updates(front, result);
        assert(results =~= front.push(results.last()));
        lemma_seq_contains_after_push(front, results.last(), Ok(result));
        match results.last() {
            Ok(last) if last.before != last.after => {
                lemma_seq_contains_after_push(changed(front), last, result);
            },
            _ => {},
        }
    }
}

/// The outcomes of checks are seen as they are, one for one.
pub proof fn law_views_of_outcomes(results: Seq<Result<CheckerResult, String>>, i: int)
    requires
        0 <= i < results.len(),
    ensures
        outcome_views(results).len() == results.len(),
        match results[i] {
            Ok(result) => outcome_views(results)[i] matches Ok(view) && view.name == result.name@
                && view.before == result.before@ && view.after == result.after@ && view.warnings
                == texts(result.warnings@),
            Err(error) => outcome_views(results)[i] matches Err(text) && text == error@,
        },
{
}

/// The successes, the failures and the changes of two lists of checks are those of the first
/// list and behind them those of the second.
pub proof fn law_outcomes_keep_their_order(
    a: Seq<Result<CheckerResultView, Seq<char>>>,
    b: Seq<Result<CheckerResultView, Seq<char>>>,
)
    ensures
        successes(a + b) == successes(a) + successes(b),
        failures(a + b) == failures(a) + failures(b),
        changed(a + b) == changed(a) + changed(b),
    decreases b.len(),
{
    if b.len() > 0 {
        law_outcomes_keep_their_order(a, b.drop_last());
        assert((a + b).drop_last() =~= a + b.drop_last());
        assert((a + b).last() == b.last());
    } else {
        assert(a + b =~= a);
    }
    assert(successes(a + b) =~= successes(a) + successes(b));
    assert(failures(a + b) =~= failures(a) + failures(b));
    assert(changed(a + b) =~= changed(a) + changed(b));
}

/// A single check is a success or a failure, and a change exactly if it is a success with two
/// different versions.
pub proof fn law_single_outcomes(result: CheckerResultView, error: Seq<char>)
    ensures
        ({
            let good = seq![Ok::<CheckerResultView, Seq<char>>(result)];
            let bad = seq![Err::<CheckerResultView, Seq<char>>(error)];
            &&& successes(good) == seq![result]
            &&& failures(good) == Seq::<Seq<char>>::empty()
            &&& result.before != result.after ==> changed(good) == seq![result]
            &&& result.before == result.after ==> changed(good) == Seq::<CheckerResultView>::empty()
            &&& successes(bad) == Seq::<CheckerResultView>::empty()
            &&& failures(bad) == seq![error]
            &&& changed(bad) == Seq::<CheckerResultView>::empty()
        }),
{
    let good = seq![Ok::<CheckerResultView, Seq<char>>(result)];
    let bad = seq![Err::<CheckerResultView, Seq<char>>(error)];
    reveal_with_fuel(successes, 2);
    reveal_with_fuel(failures, 2);
    reveal_with_fuel(changed, 2);
    assert(good.drop_last() =~= Seq::empty());
    assert(bad.drop_last() =~= Seq::empty());
    assert(successes(good) =~= seq![result]);
    assert(failures(bad) =~= seq![error]);
    if result.before != result.after {
        assert(changed(good) =~= seq![result]);
    }
}

/// The width of the column for names.
pub const NAME_WIDTH: usize = 30;

/// The width of the column for a version.
pub const VERSION_WIDTH: usize = 20;

/// The width of the heading of the columns for versions.
pub const VERSIONS_WIDTH: usize = 44;

/// What stands between the two versions of an update.
pub const ARROW: &'static str = " -> ";

/// What stands between the versions of an update and its warnings.
pub const ISSUES_GAP: &'static str = "\t\t";

/// How a part of a line is shown.
#[derive(Clone, Copy, Debug, PartialEq, Eq, Structural)]
pub enum Style {
    Plain,
    Cyan,
    Red,
    Green,
    Yellow,
    Bold,
}

/// A part of a line and how it is shown.
#[derive(Debug, PartialEq, Eq)]
pub struct Span {
    pub style: Style,
    pub text: String,
}

/// The view of a [`Span`].
pub struct SpanView {
    pub style: Style,
    pub text: Seq<char>,
}

impl View for Span {
    type V = SpanView;

    open spec fn view(&self) -> SpanView {
        SpanView { style: self.style, text: self.text@ }
    }
}

/// A line of the report: its parts, which follow one another with nothing between them.
#[derive(Debug, PartialEq, Eq)]
pub struct ReportLine {
    pub spans: Vec<Span>,
}

impl View for ReportLine {
    type V = Seq<SpanView>;

    open spec fn view(&self) -> Seq<SpanView> {
        self.spans@.map_values(|span: Span| span@)
    }
}

/// The views of some lines.
pub open spec fn line_views(lines: Seq<ReportLine>) -> Seq<Seq<SpanView>> {
    lines.map_values(|line: ReportLine| line@)
}

/// The text of a line, whatever it looks like.
pub open spec fn line_text(line: Seq<SpanView>) -> Seq<char>
    decreases line.len(),
{
    if line.len() == 0 {
        Seq::empty()
    } else {
        line_text(line.drop_last()) + line.last().text
    }
}

/// A line of one part.
pub open spec fn single(style: Style, text: Seq<char>) -> Seq<SpanView> {
    seq![SpanView { style, text }]
}

/// The heading of the table of updates.
pub open spec fn heading() -> Seq<char> {
    flush_left("Name"@, NAME_WIDTH as nat) + centered("Version"@, VERSIONS_WIDTH as nat)
        + "\t\tIssues"@
}

/// The line about an update: name, versions and warnings in columns, with an arrow between the
/// versions.
pub open spec fn update_line(result: CheckerResultView) -> Seq<SpanView> {
    seq![
        SpanView { style: Style::Cyan, text: flush_left(result.name, NAME_WIDTH as nat) },
        SpanView { style: Style::Red, text: flush_right(result.before, VERSION_WIDTH as nat) },
        SpanView { style: Style::Plain, text: ARROW@ },
        SpanView { style: Style::Green, text: flush_left(result.after, VERSION_WIDTH as nat) },
        SpanView { style: Style::Plain, text: ISSUES_GAP@ },
        SpanView { style: Style::Yellow, text: joined(result.warnings, "; "@) },
    ]
}

/// The text of the line about an update.
pub open spec fn update_text(result: CheckerResultView) -> Seq<char> {
    flush_left(result.name, NAME_WIDTH as nat) + flush_right(result.before, VERSION_WIDTH as nat)
        + " -> "@ + flush_left(result.after, VERSION_WIDTH as nat) + "\t\t"@ + joined(
        result.warnings,
        "; "@,
    )
}

/// A line about an update shows the name of the package, its version, an arrow, the version
/// that was found, and the warnings; any other line shows its one part.
pub proof fn law_lines_show_their_parts(result: CheckerResultView, style: Style, text: Seq<char>)
    ensures
        line_text(update_line(result)) == update_text(result),
        line_text(single(style, text)) == text,
{
    let line = update_line(result);
    reveal_with_fuel(line_text, 7);
    assert(line_text(line) =~= update_text(result));
    assert(line_text(single(style, text)) =~= text);
}

/// The lines of the report: with `version_only` the versions that were found, else a table of
/// the updates and a list of the errors.
pub open spec fn report(
    results: Seq<Result<CheckerResultView, Seq<char>>>,
    version_only: bool,
) -> Seq<Seq<SpanView>> {
    if version_only {
        successes(results).map_values(
            |result: CheckerResultView| single(Style::Plain, result.after),
        )
    } else {
        seq![
            single(Style::Plain, "The following packages were updated:"@),
            single(Style::Plain, heading()),
        ] + changed(results).map_values(|result: CheckerResultView| update_line(result)) + seq![
            single(Style::Plain, "\nErrors:"@),
        ] + failures(results).map_values(|error: Seq<char>| single(Style::Bold, error))
    }
}

/// The parts of a line about an update: the name in cyan, thirty characters wide, the version in
/// red, flush right in twenty, an arrow, the new version in green, twenty wide, two tabs, and
/// the warnings in yellow with semicolons between them.
pub proof fn law_update_lines(result: CheckerResultView)
    ensures
        ({
            let line = update_line(result);
            &&& line.len() == 6
            &&& line[0].style == Style::Cyan && line[0].text == flush_left(result.name, 30)
            &&& line[1].style == Style::Red && line[1].text == flush_right(result.before, 20)
            &&& line[2].style == Style::Plain && line[2].text == " -> "@
            &&& line[3].style == Style::Green && line[3].text == flush_left(result.after, 20)
            &&& line[4].style == Style::Plain && line[4].text == "\t\t"@
            &&& line[5].style == Style::Yellow && line[5].text == joined(result.warnings, "; "@)
            &&& line_text(line) == flush_left(result.name, 30) + flush_right(result.before, 20)
                + " -> "@ + flush_left(result.after, 20) + "\t\t"@ + joined(
                result.warnings,
                "; "@,
            )
        }),
{
    law_lines_show_their_parts(result, Style::Plain, Seq::empty());
}

/// The text of a line is the texts of its parts, one behind the other.
pub proof fn law_line_text_adds_up(a: Seq<SpanView>, b: Seq<SpanView>)
    ensures
        line_text(a + b) == line_text(a) + line_text(b),
        a.len() == 1 ==> line_text(a) == a[0].text,
    decreases b.len(),
{
    if b.len() > 0 {
        law_line_text_adds_up(a, b.drop_last());
        assert((a + b).drop_last() =~= a + b.drop_last());
        assert((a + b).last() == b.last());
    } else {
        assert(a + b =~= a);
    }
    assert(line_text(a + b) =~= line_text(a) + line_text(b));
    if a.len() == 1 {
        reveal_with_fuel(line_text, 2);
        assert(a.drop_last() =~= Seq::empty());
        assert(line_text(a) =~= a[0].text);
    }
}

/// The view of a line holds the text and the style of each of its parts, in order.
pub proof fn law_views_of_lines(lines: Seq<ReportLine>, i: int, k: int)
    requires
        0 <= i < lines.len(),
        0 <= k < lines[i].spans@.len(),
    ensures
        line_views(lines).len() == lines.len(),
        line_views(lines)[i].len() == lines[i].spans@.len(),
        line_views(lines)[i][k].text == lines[i].spans@[k].text@,
        line_views(lines)[i][k].style == lines[i].spans@[k].style,
{
}

/// The short report is the new versions of all successes, each alone on a line. The long one
/// is two headings, the updates, a heading for the errors, and the errors in bold.
pub proof fn law_reports_line_by_line(
    results: Seq<Result<CheckerResultView, Seq<char>>>,
    i: int,
)
    ensures
        report(results, true).len() == successes(results).len(),
        0 <= i < successes(results).len() ==> ({
            let line = report(results, true)[i];
            line.len() == 1 && line[0].style == Style::Plain && line[0].text
                == successes(results)[i].after
        }),
        ({
            let lines = report(results, false);
            let n = changed(results).len() as int;
            &&& lines.len() == 3 + n + failures(results).len()
            &&& lines[0].len() == 1 && lines[0][0].style == Style::Plain && lines[0][0].text
                == "The following packages were updated:"@
            &&& lines[1].len() == 1 && lines[1][0].style == Style::Plain && lines[1][0].text
                == flush_left("Name"@, 30) + centered("Version"@, 44) + "\t\tIssues"@
            &&& 0 <= i < n ==> lines[2 + i] == update_line(changed(results)[i])
            &&& lines[2 + n].len() == 1 && lines[2 + n][0].style == Style::Plain && lines[2
                + n][0].text == "\nErrors:"@
            &&& 0 <= i < failures(results).len() ==> lines[3 + n + i].len() == 1 && lines[3 + n
                + i][0].style == Style::Bold && lines[3 + n + i][0].text == failures(results)[i]
        }),
{
}

/// Behind its two headings the long report shows the updates, one line for each, in order.
pub proof fn law_rows_show_the_updates(
    results: Seq<Result<CheckerResultView, Seq<char>>>,
    i: int,
)
    requires
        0 <= i < changed(results).len(),
    ensures
        2 + i < report(results, false).len(),
        report(results, false)[2 + i] == update_line(changed(results)[i]),
        line_text(report(results, false)[2 + i]) == update_text(changed(results)[i]),
{
    law_lines_show_their_parts(changed(results)[i], Style::Plain, Seq::empty());
}

/// Every check either succeeded or failed. With `version_only` the report has a line for each
/// success; else it has a line for each change, one for each failure and three of its own.
pub proof fn law_report_covers_every_check(results: Seq<Result<CheckerResultView, Seq<char>>>)
    ensures
        successes(results).len() + failures(results).len() == results.len(),
        changed(results).len() <= successes(results).len(),
        report(results, true).len() == successes(results).len(),
        report(results, false).len() == 3 + changed(results).len() + failures(results).len(),
    decreases results.len(),
{
    if results.len() > 0 {
        law_report_covers_every_check(results.drop_last());
    }
}

proof fn lemma_take_next<A>(s: Seq<A>, i: int)
    requires
        0 <= i < s.len(),
    ensures
        s.take(i + 1).drop_last() == s.take(i),
        s.take(i + 1).last() == s[i],
{
    assert(s.take(i + 1).drop_last() =~= s.take(i));
}

/// A part of a line.
fn span(style: Style, text: String) -> (r: Span)
    ensures
        r@ == (SpanView { style, text: text@ }),
{
    Span { style, text }
}

/// A line of one part.
fn single_line(style: Style, text: String) -> (r: ReportLine)
    ensures
        r@ == single(style, text@),
{
    let mut spans: Vec<Span> = Vec::new();
    let ghost view = text@;
    spans.push(span(style, text));
    let line = ReportLine { spans };
    assert(line@ =~= single(style, view));
    line
}

/// The line about an update.
fn row(result: &CheckerResult) -> (r: ReportLine)
    ensures
        r@ == update_line(result@),
{
    let mut spans: Vec<Span> = Vec::new();
    spans.push(span(Style::Cyan, pad_right(result.name.as_str(), NAME_WIDTH)));
    spans.push(span(Style::Red, pad_left(result.before.as_str(), VERSION_WIDTH)));
    spans.push(span(Style::Plain, ARROW.to_string()));
    spans.push(span(Style::Green, pad_right(result.after.as_str(), VERSION_WIDTH)));
    spans.push(span(Style::Plain, ISSUES_GAP.to_string()));
    spans.push(span(Style::Yellow, join(&result.warnings, "; ")));
    let line = ReportLine { spans };
    assert(line@ =~= update_line(result@));
    line
}

/// The lines of the report.
pub fn print_results(results: &Vec<Result<CheckerResult, String>>, version_only: bool) -> (r: Vec<
    ReportLine,
>)
    ensures
        line_views(r@) == report(outcome_views(results@), version_only),
{
    let mut lines: Vec<ReportLine> = Vec::new();
    let n: usize = results.len();
    let ghost all = outcome_views(results@);
    if version_only {
        let ghost plain = |result: CheckerResultView| single(Style::Plain, result.after);
        let mut i: usize = 0;
        assert(line_views(lines@) =~= successes(all.take(0)).map_values(plain));
        while i < n
            invariant
                i <= n,
                n == results@.len(),
                all == outcome_views(results@),
                plain == (|result: CheckerResultView| single(Style::Plain, result.after)),
                line_views(lines@) == successes(all.take(i as int)).map_values(plain),
            decreases n - i,
        {
            let ghost before = line_views(lines@);
            proof {
                lemma_take_next(all, i as int);
            }
            if let Ok(result) = &results[i] {
                lines.push(single_line(Style::Plain, result.after.clone()));
                assert(line_views(lines@) =~= before.push(plain(result@)));
            }
            assert(line_views(lines@) =~= successes(all.take(i + 1)).map_values(plain));
            i += 1;
        }
        assert(all.take(n as int) =~= all);
        return lines;
    }
    let mut head = pad_right("Name", NAME_WIDTH);
    head.append(pad_both("Version", VERSIONS_WIDTH).as_str());
    head.append("\t\tIssues");
    lines.push(single_line(Style::Plain, "The following packages were updated:".to_string()));
    lines.push(single_line(Style::Plain, head));
    let ghost start = seq![
        single(Style::Plain, "The following packages were updated:"@),
        single(Style::Plain, heading()),
    ];
    let ghost shown = |result: CheckerResultView| update_line(result);
    assert(line_views(lines@) =~= start + changed(all.take(0)).map_values(shown));
    let mut i: usize = 0;
    while i < n
        invariant
            i <= n,
            n == results@.len(),
            all == outcome_views(results@),
            shown == (|result: CheckerResultView| update_line(result)),
            line_views(lines@) == start + changed(all.take(i as int)).map_values(shown),
        decreases n - i,
    {
        let ghost before = line_views(lines@);
        proof {
            lemma_take_next(all, i as int);
        }
        if let Ok(result) = &results[i] {
            if !same_text(result.before.as_str(), result.after.as_str()) {
                lines.push(row(result));
                assert(line_views(lines@) =~= before.push(shown(result@)));
            }
        }
        assert(line_views(lines@) =~= start + changed(all.take(i + 1)).map_values(shown));
        i += 1;
    }
    assert(all.take(n as int) =~= all);
    lines.push(single_line(Style::Plain, "\nErrors:".to_string()));
    let ghost middle = start + changed(all).map_values(shown) + seq![
        single(Style::Plain, "\nErrors:"@),
    ];
    let ghost failed = |error: Seq<char>| single(Style::Bold, error);
    assert(line_views(lines@) =~= middle + failures(all.take(0)).map_values(failed));
    let mut k: usize = 0;
    while k < n
        invariant
            k <= n,
            n == results@.len(),
            all == outcome_views(results@),
            failed == (|error: Seq<char>| single(Style::Bold, error)),
            line_views(lines@) == middle + failures(all.take(k as int)).map_values(failed),
        decreases n - k,
    {
        let ghost before = line_views(lines@);
        proof {
            lemma_take_next(all, k as int);
        }
        if let Err(error) = &results[k] {
            lines.push(single_line(Style::Bold, error.clone()));
            assert(line_views(lines@) =~= before.push(failed(error@)));
        }
        assert(line_views(lines@) =~= middle + failures(all.take(k + 1)).map_values(failed));
        k += 1;
    }
    lines
}

/// An update, for the lists that are written to files.
#[derive(Debug)]
pub struct CheckResultOutput {
    pub name: String,
    pub before: String,
    pub after: String,
    pub warnings: Vec<String>,
}

impl View for CheckResultOutput {
    type V = CheckerResultView;

    open spec fn view(&self) -> CheckerResultView {
        CheckerResultView {
            name: self.name@,
            before: self.before@,
            after: self.after@,
            warnings: texts(self.warnings@),
        }
    }
}

/// A copy of some strings.
fn copy_texts(strings: &Vec<String>) -> (r: Vec<String>)
    ensures
        texts(r@) == texts(strings@),
{
    let mut out: Vec<String> = Vec::new();
    let n: usize = strings.len();
    let mut i: usize = 0;
    while i < n
        invariant
            i <= n,
            n == strings@.len(),
            texts(out@) =~= texts(strings@).take(i as int),
        decreases n - i,
    {
        let ghost before = texts(out@);
        out.push(strings[i].clone());
        assert(texts(out@) =~= before.push(strings@[i as int]@));
        i += 1;
    }
    assert(texts(strings@).take(n as int) =~= texts(strings@));
    out
}

/// The updates among the outcomes, in order.
pub fn changed_results(results: &Vec<Result<CheckerResult, String>>) -> (r: Vec<CheckResultOutput>)
    ensures
        r@.map_values(|item: CheckResultOutput| item@) == changed(outcome_views(results@)),
{
    let mut items: Vec<CheckResultOutput> = Vec::new();
    let n: usize = results.len();
    let ghost all = outcome_views(results@);
    let ghost view = |item: CheckResultOutput| item@;
    let mut i: usize = 0;
    assert(items@.map_values(view) =~= changed(all.take(0)));
    while i < n
        invariant
            i <= n,
            n == results@.len(),
            all == outcome_views(results@),
            view == (|item: CheckResultOutput| item@),
            items@.map_values(view) == changed(all.take(i as int)),
        decreases n - i,
    {
        let ghost before = items@.map_values(view);
        proof {
            lemma_take_next(all, i as int);
        }
        if let Ok(result) = &results[i] {
            if !same_text(result.before.as_str(), result.after.as_str()) {
                let item = CheckResultOutput {
                    name: result.name.clone(),
                    before: result.before.clone(),
                    after: result.after.clone(),
                    warnings: copy_texts(&result.warnings),
                };
                assert(item@ =~= result@);
                items.push(item);
                assert(items@.map_values(view) =~= before.push(result@));
            }
        }
        i += 1;
    }
    assert(all.take(n as int) =~= all);
    items
}

/// The names of some packages.
pub open spec fn names(results: Seq<CheckerResultView>) -> Seq<Seq<char>> {
    results.map_values(|result: CheckerResultView| result.name)
}

/// The names of some updates, in order.
pub fn package_names(items: &Vec<CheckResultOutput>) -> (r: Vec<String>)
    ensures
        texts(r@) == names(items@.map_values(|item: CheckResultOutput| item@)),
{
    let mut out: Vec<String> = Vec::new();
    let n: usize = items.len();
    let ghost all = names(items@.map_values(|item: CheckResultOutput| item@));
    let mut i: usize = 0;
    while i < n
        invariant
            i <= n,
            n == items@.len(),
            all == names(items@.map_values(|item: CheckResultOutput| item@)),
            texts(out@) =~= all.take(i as int),
        decreases n - i,
    {
        let ghost before = texts(out@);
        out.push(items[i].name.clone());
        assert(texts(out@) =~= before.push(all[i as int]));
        i += 1;
    }
    assert(all.take(n as int) =~= all);
    out
}

/// The text of the log: the name of each update on a line of its own.
pub open spec fn log_lines(names: Seq<Seq<char>>) -> Seq<char>
    decreases names.len(),
{
    if names.len() == 0 {
        Seq::empty()
    } else {
        log_lines(names.drop_last()) + names.last() + "\n"@
    }
}

/// The text of the log.
pub fn log_text(items: &Vec<CheckResultOutput>) -> (r: String)
    ensures
        r@ == log_lines(names(items@.map_values(|item: CheckResultOutput| item@))),
{
    let mut out = String::new();
    let n: usize = items.len();
    let ghost all = names(items@.map_values(|item: CheckResultOutput| item@));
    let mut i: usize = 0;
    assert(all.take(0) =~= Seq::empty());
    while i < n
        invariant
            i <= n,
            n == items@.len(),
            all == names(items@.map_values(|item: CheckResultOutput| item@)),
            out@ == log_lines(all.take(i as int)),
        decreases n - i,
    {
        out.append(items[i].name.as_str());
        out.append("\n");
        proof {
            lemma_take_next(all, i as int);
        }
        i += 1;
    }
    assert(all.take(n as int) =~= all);
    out
}

/// The view of an update holds what the update holds.
pub proof fn law_view_of_updates(item: CheckResultOutput)
    ensures
        item@.name == item.name@,
        item@.before == item.before@,
        item@.after == item.after@,
        item@.warnings.len() == item.warnings@.len(),
        forall|i: int|
            0 <= i < item.warnings@.len() ==> #[trigger] item@.warnings[i] == item.warnings@[i]@,
{
}

/// The names of packages are their names, one for one, and the log has each on a line of its
/// own, whole and in order.
pub proof fn law_logs_name_the_packages(
    results: Seq<CheckerResultView>,
    name: Seq<char>,
    a: Seq<Seq<char>>,
    b: Seq<Seq<char>>,
)
    ensures
        names(results).len() == results.len(),
        forall|i: int| 0 <= i < results.len() ==> #[trigger] names(results)[i] == results[i].name,
        log_lines(Seq::empty()) == Seq::<char>::empty(),
        log_lines(seq![name]) == name + "\n"@,
        log_lines(a + b) == log_lines(a) + log_lines(b),
    decreases b.len(),
{
    reveal_with_fuel(log_lines, 2);
    assert(seq![name].drop_last() =~= Seq::empty());
    assert(log_lines(seq![name]) =~= name + "\n"@);
    if b.len() > 0 {
        law_logs_name_the_packages(results, name, a, b.drop_last());
        assert((a + b).drop_last() =~= a + b.drop_last());
        assert((a + b).last() == b.last());
    } else {
        assert(a + b =~= a);
    }
    assert(log_lines(a + b) =~= log_lines(a) + log_lines(b));
}

/// The arguments with which checksums are updated are fixed, but for the packages, which come
/// last and as one argument.
pub proof fn law_checksum_arguments(packages: Seq<char>)
    ensures
        ({
            let args = checksum_texts(packages);
            &&& args.len() == 7
            &&& args[0] == "-E"@ && args[1] == "ciel"@ && args[2] == "shell"@ && args[3] == "--"@
            &&& args[4] == "acbs-build"@ && args[5] == "-gw"@ && args[6] == packages
        }),
{
}

/// The program with which checksums are updated.
pub const CHECKSUM_PROGRAM: &'static str = "sudo";

/// The packages whose checksums are to be updated, as one argument.
pub fn checksum_packages(results: &Vec<Result<CheckerResult, String>>) -> (r: String)
    ensures
        r@ == joined(names(changed(outcome_views(results@))), " "@),
{
    let items = changed_results(results);
    let packages = package_names(&items);
    join(&packages, " ")
}

/// The arguments with which the checksums of `packages` are updated.
pub open spec fn checksum_texts(packages: Seq<char>) -> Seq<Seq<char>> {
    seq!["-E"@, "ciel"@, "shell"@, "--"@, "acbs-build"@, "-gw"@, packages]
}

/// The arguments with which the checksums of `packages` are updated.
pub fn checksum_args(packages: &str) -> (r: Vec<String>)
    ensures
        texts(r@) == checksum_texts(packages@),
{
    let mut args: Vec<String> = Vec::new();
    args.push("-E".to_string());
    args.push("ciel".to_string());
    args.push("shell".to_string());
    args.push("--".to_string());
    args.push("acbs-build".to_string());
    args.push("-gw".to_string());
    args.push(packages.to_string());
    assert(texts(args@) =~= checksum_texts(packages@));
    args
}

/// The arguments with which the checksums of `packages` are updated now; none on a dry run, on
/// which nothing is changed.
pub fn checksum_command(packages: &str, dry_run: bool) -> (r: Option<Vec<String>>)
    ensures
        match r {
            Some(args) => !dry_run && texts(args@) == checksum_texts(packages@),
            None => dry_run,
        },
{
    if dry_run {
        None
    } else {
        Some(checksum_args(packages))
    }
}

/// What is said before the checksums of `packages` are updated.
pub fn checksum_notice(packages: &str) -> (r: String)
    ensures
        r@ == "Updating checksum via: sudo -E ciel shell -- acbs-build -gw "@ + packages@,
{
    chain("Updating checksum via: sudo -E ciel shell -- acbs-build -gw ", packages)
}

/// The notice shows the program and its arguments, one behind the other.
pub proof fn law_notice_shows_the_command(packages: Seq<char>)
    ensures
        "Updating checksum via: sudo -E ciel shell -- acbs-build -gw "@ + packages
            == "Updating checksum via: "@ + joined(
            seq![CHECKSUM_PROGRAM@] + checksum_texts(packages),
            " "@,
        ),
{
    reveal_strlit("Updating checksum via: sudo -E ciel shell -- acbs-build -gw ");
    reveal_strlit("Updating checksum via: ");
    reveal_strlit("sudo");
    reveal_strlit("-E");
    reveal_strlit("ciel");
    reveal_strlit("shell");
    reveal_strlit("--");
    reveal_strlit("acbs-build");
    reveal_strlit("-gw");
    reveal_strlit(" ");
    let words = seq![CHECKSUM_PROGRAM@] + checksum_texts(packages);
    let w7 = words.drop_last();
    let w6 = w7.drop_last();
    let w5 = w6.drop_last();
    let w4 = w5.drop_last();
    let w3 = w4.drop_last();
    let w2 = w3.drop_last();
    let w1 = w2.drop_last();
    assert(joined(w1, " "@) == "sudo"@);
    assert(joined(w2, " "@) == joined(w1, " "@) + " "@ + "-E"@);
    assert(joined(w3, " "@) == joined(w2, " "@) + " "@ + "ciel"@);
    assert(joined(w4, " "@) == joined(w3, " "@) + " "@ + "shell"@);
    assert(joined(w5, " "@) == joined(w4, " "@) + " "@ + "--"@);
    assert(joined(w6, " "@) == joined(w5, " "@) + " "@ + "acbs-build"@);
    assert(joined(w7, " "@) == joined(w6, " "@) + " "@ + "-gw"@);
    assert(joined(words, " "@) == joined(w7, " "@) + " "@ + packages);
    assert("Updating checksum via: sudo -E ciel shell -- acbs-build -gw "@ + packages
        =~= "Updating checksum via: "@ + joined(words, " "@));
}

} // verus!
