//! The check of one package: which version it has, which one it could have, and what is to be
//! said about the step between them.

use crate::context::Context;
use crate::parser::{config_map, parse_check_update, read_line, InvalidConfig};
use crate::patterns::{version_field, with_version};
use crate::spec_file::{
    law_updated_spec_has_new_version, spec_step, SpecAction, SpecEvent, MACRO_MARK, VERSION_KEY,
};
use crate::text::{
    chain, chain3, has_char, is_trimmed, is_white_space, law_trimming_takes_white_space_only,
    lemma_trimmed, occurs, occurs_at, optional_str, optional_text, same_text, texts, trimmed,
};
use vstd::prelude::*;

verus! {

/// What marks a version as a snapshot of a version control system.
pub const VCS_VERSION_NUMBERS: [&'static str; 4] = ["+git", "+hg", "+svn", "+bzr"];

/// The views of the snapshot marks.
pub open spec fn snapshot_marks() -> Seq<Seq<char>> {
    VCS_VERSION_NUMBERS@.map_values(|mark: &'static str| mark@)
}

/// What stands between the parts of a version number that is put together.
pub const COMPOUND_MARK: char = '+';

/// What a version number may start with.
pub const VERSION_PREFIX: char = 'v';

/// What a check has found out about a package.
#[derive(Debug)]
pub struct CheckerResult {
    pub name: String,
    pub before: String,
    pub after: String,
    pub warnings: Vec<String>,
}

/// The view of a [`CheckerResult`].
#[verifier::ext_equal]
pub struct CheckerResultView {
    pub name: Seq<char>,
    pub before: Seq<char>,
    pub after: Seq<char>,
    pub warnings: Seq<Seq<char>>,
}

impl View for CheckerResult {
    type V = CheckerResultView;

    open spec fn view(&self) -> CheckerResultView {
        CheckerResultView {
            name: self.name@,
            before: self.before@,
            after: self.after@,
            warnings: texts(self.warnings@),
        }
    }
}

/// Why a package could not be checked.
#[derive(Debug)]
pub enum CheckError {
    /// This spec file states no version.
    MissingVersion(String),
    /// There is no update configuration for this spec file.
    NoConfig(String),
    /// The update configuration cannot be read.
    Config(InvalidConfig),
    /// The search for snapshot marks could not be set up.
    Matcher(aho_corasick::BuildError),
}

/// The error as text. A search that could not be set up has none here: the error of the
/// search itself says why.
pub open spec fn check_error_text(error: CheckError) -> Option<Seq<char>> {
    match error {
        CheckError::MissingVersion(spec) => Some(spec@ + ": 'Version' field is missing!"@),
        CheckError::NoConfig(spec) => Some(
            spec@ + ": no CHKUPDATE config available (TOML not provided)"@,
        ),
        CheckError::Config(_) => Some(
            "Invalid config line: Parsing Error: ContextError { context: [], cause: None }"@,
        ),
        CheckError::Matcher(_) => None,
    }
}

impl CheckError {
    /// The error as text.
    pub fn message(&self) -> (r: Option<String>)
        ensures
            optional_text(r) == check_error_text(*self),
    {
        match self {
            CheckError::MissingVersion(spec) => Some(
                chain(spec.as_str(), ": 'Version' field is missing!"),
            ),
            CheckError::NoConfig(spec) => Some(
                chain(spec.as_str(), ": no CHKUPDATE config available (TOML not provided)"),
            ),
            CheckError::Config(error) => Some(error.message()),
            CheckError::Matcher(_) => None,
        }
    }
}

/// What a package has, and where to look for what it could have.
#[derive(Debug)]
pub struct CheckRequest {
    /// The version of the package.
    pub current: String,
    /// The update configuration.
    pub config: Context,
}

/// A check that is done.
#[derive(Debug)]
pub struct Checked {
    /// What was found out.
    pub result: CheckerResult,
    /// The version that is to be written into the spec file.
    pub write: Option<String>,
}

/// `text` without `c` at its front.
pub open spec fn without_prefix(text: Seq<char>, c: char) -> Seq<char> {
    if text.len() > 0 && text[0] == c {
        text.skip(1)
    } else {
        text
    }
}

/// The version number in what an update source has answered.
pub open spec fn candidate(fetched: Seq<char>) -> Seq<char> {
    without_prefix(trimmed(fetched), VERSION_PREFIX)
}

/// The version number in what an update source has answered: the answer without the white
/// space around it and without the letter `v` in front.
pub fn candidate_version(fetched: &str) -> (r: String)
    ensures
        r@ == candidate(fetched@),
{
    let version = fetched.trim();
    let n: usize = version.unicode_len();
    if n > 0 && version.get_char(0) == VERSION_PREFIX {
        version.substring_char(1, n).to_string()
    } else {
        version.to_string()
    }
}

/// Why an automaton was not built.
#[verifier::external_type_specification]
#[verifier::external_body]
pub struct ExBuildError(aho_corasick::BuildError);

/// Whether `AhoCorasickBuilder::build`, with its defaults, builds an automaton for `patterns`.
pub uninterp spec fn automaton_builds(patterns: Seq<Seq<char>>) -> bool;

/// Pattern `i` occurs in `text`, and no occurrence of a pattern ends before that one.
pub open spec fn ends_first(patterns: Seq<Seq<char>>, text: Seq<char>, i: int) -> bool {
    &&& 0 <= i < patterns.len()
    &&& exists|at: int| #[trigger]
        occurs_at(text, patterns[i], at) && no_end_before(patterns, text, at + patterns[i].len())
}

/// No occurrence of a pattern in `text` ends before `end`.
pub open spec fn no_end_before(patterns: Seq<Seq<char>>, text: Seq<char>, end: int) -> bool {
    forall|j: int, at: int|
        0 <= j < patterns.len() && #[trigger] occurs_at(text, patterns[j], at) ==> end <= at
            + patterns[j].len()
}

/// `AhoCorasickBuilder::build` with its defaults and `AhoCorasick::find`: which of `patterns`
/// is seen first in `text`, that is, the one whose occurrence ends first; of several that end
/// together nothing is said. Which patterns an automaton is built for is named, not stated.
#[verifier::external_body]
fn find_first(patterns: &[&str], text: &str) -> (r: Result<
    Option<usize>,
    aho_corasick::BuildError,
>)
    ensures
        r is Ok <==> automaton_builds(patterns@.map_values(|p: &str| p@)),
        r matches Ok(Some(i)) ==> ends_first(
            patterns@.map_values(|p: &str| p@),
            text@,
            i as int,
        ),
        r matches Ok(None) ==> forall|j: int, at: int|
            0 <= j < patterns@.len() ==> !#[trigger] occurs_at(text@, patterns@[j]@, at),
{
    let automaton = aho_corasick::AhoCorasickBuilder::new().build(patterns)?;
    Ok(automaton.find(text).map(|m| m.pattern().as_usize()))
}

/// Whether `version_compare::compare_to` finds `a` greater than `b`; none where it cannot
/// compare them.
pub uninterp spec fn version_greater(a: Seq<char>, b: Seq<char>) -> Option<bool>;

/// `version_compare::compare_to` with the operator `Gt`: the answer is named, not stated.
#[verifier::external_body]
fn compare_greater(a: &str, b: &str) -> (r: Option<bool>)
    ensures
        r == version_greater(a@, b@),
{
    version_compare::compare_to(a, b, version_compare::Cmp::Gt).ok()
}

/// The snapshot mark that is seen first in `version`.
pub open spec fn snapshot_mark(version: Seq<char>) -> Option<int> {
    if exists|i: int| ends_first(snapshot_marks(), version, i) {
        Some(choose|i: int| ends_first(snapshot_marks(), version, i))
    } else {
        None
    }
}

/// `version` is put together of several numbers.
pub open spec fn is_compound(version: Seq<char>) -> bool {
    version.contains(COMPOUND_MARK)
}

/// The warning that `candidate` was changed to comply with the rules for version numbers.
pub open spec fn comply_warnings(
    candidate: Seq<char>,
    complied: Option<Seq<char>>,
) -> Seq<Seq<char>> {
    match complied {
        Some(version) if version != candidate => seq![
            "Compliance mode enabled, was '"@ + candidate + "'"@,
        ],
        _ => Seq::empty(),
    }
}

/// The warnings about a version that is put together, given the snapshot mark in it.
pub open spec fn compound_warnings(current: Seq<char>, mark: Option<int>) -> Seq<Seq<char>> {
    let compound = seq!["Compound version number '"@ + current + "'"@];
    match mark {
        Some(i) => compound.push(
            "Version number indicates a snapshot ("@ + snapshot_marks()[i] + ") is used"@,
        ),
        None => compound,
    }
}

/// The warnings about the order of two versions, given the answer whether the first is greater.
pub open spec fn order_warnings(
    current: Seq<char>,
    new: Seq<char>,
    greater: Option<bool>,
) -> Seq<Seq<char>> {
    match greater {
        Some(true) => seq![
            "Possible downgrade from the current version ("@ + current + " -> "@ + new + ")"@,
        ],
        Some(false) => Seq::empty(),
        None => seq!["Versions not comparable: `"@ + current + "` and `"@ + new + "`"@],
    }
}

/// The version that a package could have: the one that complies, where one is asked for.
pub open spec fn new_version(candidate: Seq<char>, complied: Option<Seq<char>>) -> Seq<char> {
    match complied {
        Some(version) => version,
        None => candidate,
    }
}

/// What is found out about a package, given what the outside says of its versions.
pub open spec fn assessment(
    name: Seq<char>,
    current: Seq<char>,
    candidate: Seq<char>,
    complied: Option<Seq<char>>,
    mark: Option<int>,
    greater: Option<bool>,
) -> CheckerResultView {
    let new = new_version(candidate, complied);
    let first = comply_warnings(candidate, complied);
    CheckerResultView {
        name,
        before: current,
        after: new,
        warnings: if current == new {
            first
        } else if is_compound(current) && complied is None {
            first + compound_warnings(current, mark) + order_warnings(current, new, greater)
        } else {
            first + order_warnings(current, new, greater)
        },
    }
}

proof fn lemma_marks()
    ensures
        snapshot_marks() == seq!["+git"@, "+hg"@, "+svn"@, "+bzr"@],
        snapshot_marks()[0].last() == 't',
        snapshot_marks()[1].last() == 'g',
        snapshot_marks()[2].last() == 'n',
        snapshot_marks()[3].last() == 'r',
        forall|i: int| 0 <= i < 4 ==> (#[trigger] snapshot_marks()[i]).len() > 0,
{
    reveal_strlit("+git");
    reveal_strlit("+hg");
    reveal_strlit("+svn");
    reveal_strlit("+bzr");
    assert(snapshot_marks() =~= seq!["+git"@, "+hg"@, "+svn"@, "+bzr"@]);
}

/// No two snapshot marks can be seen first: they end in different letters.
pub proof fn lemma_snapshot_mark(version: Seq<char>, i: int)
    requires
        ends_first(snapshot_marks(), version, i),
    ensures
        snapshot_mark(version) == Some(i),
{
    lemma_marks();
    let marks = snapshot_marks();
    let k = choose|k: int| ends_first(marks, version, k);
    let a = choose|at: int| #[trigger]
        occurs_at(version, marks[i], at) && no_end_before(marks, version, at + marks[i].len());
    let b = choose|at: int| #[trigger]
        occurs_at(version, marks[k], at) && no_end_before(marks, version, at + marks[k].len());
    assert(a + marks[i].len() == b + marks[k].len());
    assert(version.subrange(a, a + marks[i].len()).last() == version[a + marks[i].len() - 1]);
    assert(version.subrange(b, b + marks[k].len()).last() == version[b + marks[k].len() - 1]);
}

/// What is found out about a package, given what the outside says of its versions: `mark` is
/// the snapshot mark in the current version, `greater` whether that version is the greater
/// one. `complied` is the candidate after it was made to comply, where that is asked for.
pub fn assess(
    name: &str,
    current: &str,
    candidate: &str,
    complied: Option<&str>,
    mark: Option<usize>,
    greater: Option<bool>,
) -> (r: CheckerResult)
    requires
        mark matches Some(i) ==> i < VCS_VERSION_NUMBERS@.len(),
    ensures
        r@ == assessment(
            name@,
            current@,
            candidate@,
            optional_str(complied),
            (match mark {
                Some(i) => Some(i as int),
                None => None,
            }),
            greater,
        ),
{
    let mut warnings: Vec<String> = Vec::new();
    let new: &str = match complied {
        Some(version) => version,
        None => candidate,
    };
    if complied.is_some() && !same_text(candidate, new) {
        warnings.push(chain3("Compliance mode enabled, was '", candidate, "'"));
    }
    let ghost first = comply_warnings(candidate@, optional_str(complied));
    assert(texts(warnings@) =~= first);
    if !same_text(current, new) {
        if has_char(current, COMPOUND_MARK) && complied.is_none() {
            warnings.push(chain3("Compound version number '", current, "'"));
            if let Some(i) = mark {
                let mark_text = VCS_VERSION_NUMBERS[i];
                warnings.push(
                    chain3("Version number indicates a snapshot (", mark_text, ") is used"),
                );
                assert(snapshot_marks()[i as int] == mark_text@);
            }
            assert(texts(warnings@) =~= first + compound_warnings(
                current@,
                (match mark {
                    Some(i) => Some(i as int),
                    None => None,
                }),
            ));
        }
        let ghost second = texts(warnings@);
        match greater {
            Some(true) => {
                let versions = chain3(current, " -> ", new);
                warnings.push(
                    chain3(
                        "Possible downgrade from the current version (",
                        versions.as_str(),
                        ")",
                    ),
                );
                assert("Possible downgrade from the current version ("@ + (current@ + " -> "@
                    + new@) + ")"@ =~= "Possible downgrade from the current version ("@ + current@
                    + " -> "@ + new@ + ")"@);
            },
            Some(false) => {},
            None => {
                let versions = chain3(current, "` and `", new);
                warnings.push(chain3("Versions not comparable: `", versions.as_str(), "`"));
                assert("Versions not comparable: `"@ + (current@ + "` and `"@ + new@) + "`"@
                    =~= "Versions not comparable: `"@ + current@ + "` and `"@ + new@ + "`"@);
            },
        }
        assert(texts(warnings@) =~= second + order_warnings(current@, new@, greater));
    }
    let r = CheckerResult {
        name: name.to_string(),
        before: current.to_string(),
        after: new.to_string(),
        warnings,
    };
    assert(r@ =~= assessment(
        name@,
        current@,
        candidate@,
        optional_str(complied),
        (match mark {
            Some(i) => Some(i as int),
            None => None,
        }),
        greater,
    ));
    r
}

/// The marks of snapshots.
pub proof fn law_snapshot_marks_by_text()
    ensures
        snapshot_marks() == seq!["+git"@, "+hg"@, "+svn"@, "+bzr"@],
{
    lemma_marks();
}

/// No snapshot mark ends before the one that is found.
pub proof fn law_found_mark_ends_first(version: Seq<char>, j: int, at: int)
    requires
        0 <= j < snapshot_marks().len(),
        occurs_at(version, snapshot_marks()[j], at),
    ensures
        snapshot_mark(version) matches Some(i) ==> exists|a: int| #[trigger]
            occurs_at(version, snapshot_marks()[i], a) && a + snapshot_marks()[i].len() <= at
                + snapshot_marks()[j].len(),
{
    if let Some(i) = snapshot_mark(version) {
        let marks = snapshot_marks();
        assert(ends_first(marks, version, i));
        let a = choose|a: int| #[trigger]
            occurs_at(version, marks[i], a) && no_end_before(marks, version, a + marks[i].len());
        assert(occurs_at(version, marks[i], a));
    }
}

/// The candidate is the answer of the update source without the white space around it and
/// without one `v` in front, and otherwise whole.
pub proof fn law_candidate_is_the_answer(left: Seq<char>, answer: Seq<char>, right: Seq<char>)
    requires
        forall|i: int| 0 <= i < left.len() ==> is_white_space(#[trigger] left[i]),
        forall|i: int| 0 <= i < right.len() ==> is_white_space(#[trigger] right[i]),
        answer.len() > 0 ==> !is_white_space(answer[0]) && !is_white_space(answer.last()),
    ensures
        answer.len() > 0 && answer[0] == 'v' ==> seq!['v'] + candidate(left + answer + right)
            == answer,
        answer.len() == 0 || answer[0] != 'v' ==> candidate(left + answer + right) == answer,
{
    law_trimming_takes_white_space_only(left, answer, right);
    if answer.len() > 0 && answer[0] == 'v' {
        assert(seq!['v'] + answer.skip(1) =~= answer);
    }
}

/// A result states the step that is made: the package, the version it has, and the version that
/// complies, or where none is asked for the candidate, whatever else is known of them.
pub proof fn law_result_states_the_step(
    name: Seq<char>,
    current: Seq<char>,
    candidate: Seq<char>,
    complied: Option<Seq<char>>,
    mark: Option<int>,
    greater: Option<bool>,
)
    ensures
        ({
            let r = assessment(name, current, candidate, complied, mark, greater);
            &&& r.name == name
            &&& r.before == current
            &&& complied matches Some(version) ==> r.after == version
            &&& complied is None ==> r.after == candidate
        }),
        complied matches Some(version) ==> new_version(candidate, complied) == version,
        complied is None ==> new_version(candidate, complied) == candidate,
{
}

/// Which warnings there are, in order: that the candidate was changed to comply; of a version
/// with a plus sign that it is compound, and the snapshot mark in it, unless the candidate was
/// made to comply; and of two versions that the step goes down or that they cannot be compared.
/// A package that has the new version already gets the first one only.
pub proof fn law_warnings(
    name: Seq<char>,
    current: Seq<char>,
    candidate: Seq<char>,
    complied: Option<Seq<char>>,
    mark: Option<int>,
    greater: Option<bool>,
)
    ensures
        ({
            let new = match complied {
                Some(version) => version,
                None => candidate,
            };
            let first = if complied is Some && new != candidate {
                seq!["Compliance mode enabled, was '"@ + candidate + "'"@]
            } else {
                Seq::empty()
            };
            let second = if current != new && complied is None && current.contains('+') {
                seq!["Compound version number '"@ + current + "'"@]
            } else {
                Seq::empty()
            };
            let third = match mark {
                Some(i) if second.len() > 0 => seq![
                    "Version number indicates a snapshot ("@ + snapshot_marks()[i] + ") is used"@,
                ],
                _ => Seq::empty(),
            };
            let fourth = if current == new {
                Seq::empty()
            } else {
                match greater {
                    Some(true) => seq![
                        "Possible downgrade from the current version ("@ + current + " -> "@ + new
                            + ")"@,
                    ],
                    Some(false) => Seq::empty(),
                    None => seq![
                        "Versions not comparable: `"@ + current + "` and `"@ + new + "`"@,
                    ],
                }
            };
            assessment(name, current, candidate, complied, mark, greater).warnings == first + second
                + third + fourth
        }),
{
    let new = new_version(candidate, complied);
    let r = assessment(name, current, candidate, complied, mark, greater);
    let first = comply_warnings(candidate, complied);
    let order = order_warnings(current, new, greater);
    let empty = Seq::<Seq<char>>::empty();
    if current == new {
        assert(r.warnings =~= first + empty + empty + empty);
    } else if is_compound(current) && complied is None {
        let compound = seq!["Compound version number '"@ + current + "'"@];
        match mark {
            Some(i) => {
                let shown = seq![
                    "Version number indicates a snapshot ("@ + snapshot_marks()[i] + ") is used"@,
                ];
                assert(r.warnings =~= first + compound + shown + order);
            },
            None => {
                assert(r.warnings =~= first + compound + empty + order);
            },
        }
    } else {
        assert(r.warnings =~= first + empty + empty + order);
    }
}

/// The view of a result holds what the result holds.
pub proof fn law_view_of_results(result: CheckerResult)
    ensures
        result@.name == result.name@,
        result@.before == result.before@,
        result@.after == result.after@,
        result@.warnings.len() == result.warnings@.len(),
        forall|i: int|
            0 <= i < result.warnings@.len() ==> #[trigger] result@.warnings[i]
                == result.warnings@[i]@,
{
}

/// What each error says.
pub proof fn law_check_errors_say_what_happened(error: CheckError)
    ensures
        check_error_text(error) == match error {
            CheckError::MissingVersion(spec) => Some(spec@ + ": 'Version' field is missing!"@),
            CheckError::NoConfig(spec) => Some(
                spec@ + ": no CHKUPDATE config available (TOML not provided)"@,
            ),
            CheckError::Config(_) => Some(
                "Invalid config line: Parsing Error: ContextError { context: [], cause: None }"@,
            ),
            CheckError::Matcher(_) => None,
        },
{
}

/// A package that has the candidate already is reported without a change, and the only warning
/// there can be is that the candidate was changed to comply.
pub proof fn law_current_version_is_no_change(
    name: Seq<char>,
    current: Seq<char>,
    candidate: Seq<char>,
    complied: Option<Seq<char>>,
    mark: Option<int>,
    greater: Option<bool>,
)
    requires
        new_version(candidate, complied) == current,
    ensures
        ({
            let r = assessment(name, current, candidate, complied, mark, greater);
            &&& r.before == r.after
            &&& r.warnings == comply_warnings(candidate, complied)
        }),
{
}

/// Where a version is made to comply, the current version is not searched for marks.
pub proof fn law_compliance_mode_ignores_marks(
    name: Seq<char>,
    current: Seq<char>,
    candidate: Seq<char>,
    complied: Seq<char>,
    mark: Option<int>,
    greater: Option<bool>,
)
    ensures
        assessment(name, current, candidate, Some(complied), mark, greater) == assessment(
            name,
            current,
            candidate,
            Some(complied),
            None,
            greater,
        ),
{
}

/// A mark that is named in a warning stands in the version that has it.
pub proof fn law_snapshot_mark_occurs(version: Seq<char>)
    ensures
        snapshot_mark(version) matches Some(i) ==> 0 <= i < snapshot_marks().len() && occurs(
            version,
            snapshot_marks()[i],
        ),
{
}

/// Every version in which a snapshot mark stands has one that is seen first.
pub proof fn law_snapshot_mark_is_seen(version: Seq<char>, i: int)
    requires
        0 <= i < snapshot_marks().len(),
        occurs(version, snapshot_marks()[i]),
    ensures
        snapshot_mark(version) is Some,
{
    let at = choose|at: int| occurs_at(version, snapshot_marks()[i], at);
    lemma_some_mark_ends_first(version, i, at);
}

proof fn lemma_some_mark_ends_first(version: Seq<char>, i: int, at: int)
    requires
        0 <= i < snapshot_marks().len(),
        occurs_at(version, snapshot_marks()[i], at),
    ensures
        exists|k: int| ends_first(snapshot_marks(), version, k),
    decreases at + snapshot_marks()[i].len(),
{
    let marks = snapshot_marks();
    if no_end_before(marks, version, at + marks[i].len()) {
        assert(ends_first(marks, version, i));
    } else {
        let (j, b) = choose|j: int, b: int|
            0 <= j < marks.len() && #[trigger] occurs_at(version, marks[j], b) && !(at
                + marks[i].len() <= b + marks[j].len());
        lemma_some_mark_ends_first(version, j, b);
    }
}

/// Updates come to rest: where the new version was written into the text of a spec file, a
/// check that reads the text and gets the same answer finds the new version there and nothing
/// to change. This holds of a version that is not empty, holds neither a newline nor a macro,
/// and has no white space around it.
pub proof fn law_updates_come_to_rest(
    name: Seq<char>,
    text: Seq<char>,
    fetched: Seq<char>,
    complied: Option<Seq<char>>,
    mark: Option<int>,
    greater: Option<bool>,
    content: String,
    action: SpecAction,
)
    requires
        ({
            let new = new_version(candidate(fetched), complied);
            &&& new.len() > 0
            &&& is_trimmed(new)
            &&& !new.contains('\n')
            &&& !new.contains(MACRO_MARK)
            &&& version_field(text) is Some
            &&& content@ == with_version(text, new)
        }),
        spec_step(SpecEvent::Loaded(Ok(content)), action),
    ensures
        action matches SpecAction::Finish(Ok(table)) && table@.dom().contains(VERSION_KEY@) && ({
            let current = trimmed(table@[VERSION_KEY@]);
            let r = assessment(name, current, candidate(fetched), complied, mark, greater);
            r.before == r.after
        }),
{
    let new = new_version(candidate(fetched), complied);
    law_updated_spec_has_new_version(text, new, content, action);
    lemma_trimmed(new);
}

/// Begins the check of the package whose spec file is shown as `spec`: takes its version from
/// the table of the spec file and its update configuration from `toml_override`.
pub fn check_request(spec: &str, table: &Context, toml_override: Option<&str>) -> (r: Result<
    CheckRequest,
    CheckError,
>)
    ensures
        if !table@.dom().contains(VERSION_KEY@) {
            r matches Err(CheckError::MissingVersion(s)) && s@ == spec@
        } else {
            match toml_override {
                None => r matches Err(CheckError::NoConfig(s)) && s@ == spec@,
                Some(raw) => match read_line(raw@ + ";"@).0 {
                    None => r matches Err(CheckError::Config(_)),
                    Some((kind, pairs)) => r matches Ok(request) && request.current@ == trimmed(
                        table@[VERSION_KEY@],
                    ) && request.config@ == config_map(kind, pairs),
                },
            }
        },
{
    let current = match table.get(VERSION_KEY) {
        Some(version) => version.trim().to_string(),
        None => return Err(CheckError::MissingVersion(spec.to_string())),
    };
    match toml_override {
        Some(raw) => {
            let line = chain(raw, ";");
            let mut input: &str = line.as_str();
            match parse_check_update(&mut input) {
                Ok(config) => Ok(CheckRequest { current, config }),
                Err(error) => Err(CheckError::Config(error)),
            }
        },
        None => Err(CheckError::NoConfig(spec.to_string())),
    }
}

/// Ends the check of a package: holds its version against what the update source has answered,
/// and decides whether the spec file is to be changed. `complied` is the candidate after it was
/// made to comply with the rules for version numbers, where that is asked for.
pub fn check_update_worker(
    name: &str,
    current: &str,
    fetched: &str,
    complied: Option<&str>,
    dry_run: bool,
) -> (r: Result<Checked, CheckError>)
    ensures
        ({
            let fresh = candidate(fetched@);
            let new = new_version(fresh, optional_str(complied));
            let searched = current@ != new && is_compound(current@) && complied is None;
            if searched && !automaton_builds(snapshot_marks()) {
                r matches Err(CheckError::Matcher(_))
            } else {
                &&& r matches Ok(checked)
                &&& checked.result@ == assessment(
                    name@,
                    current@,
                    fresh,
                    optional_str(complied),
                    snapshot_mark(current@),
                    version_greater(current@, new),
                )
                &&& optional_text(checked.write) == if current@ != new && !dry_run {
                    Some(new)
                } else {
                    None
                }
            }
        }),
        r matches Ok(checked) ==> {
            &&& checked.result.name@ == name@
            &&& checked.result.before@ == current@
            &&& complied matches Some(version) ==> checked.result.after@ == version@
            &&& complied is None ==> checked.result.after@ == candidate(fetched@)
            &&& match checked.write {
                Some(version) => !dry_run && version@ == checked.result.after@ && version@
                    != current@,
                None => dry_run || checked.result.after@ == current@,
            }
        },
{
    let fresh = candidate_version(fetched);
    let new: String = match complied {
        Some(version) => version.to_string(),
        None => fresh.clone(),
    };
    if same_text(current, new.as_str()) {
        let result = assess(name, current, fresh.as_str(), complied, None, None);
        return Ok(Checked { result, write: None });
    }
    let mut mark: Option<usize> = None;
    if has_char(current, COMPOUND_MARK) && complied.is_none() {
        assert(VCS_VERSION_NUMBERS@.map_values(|p: &str| p@) =~= snapshot_marks());
        match find_first(&VCS_VERSION_NUMBERS, current) {
            Ok(found) => {
                mark = found;
            },
            Err(error) => return Err(CheckError::Matcher(error)),
        }
        proof {
            match mark {
                Some(i) => lemma_snapshot_mark(current@, i as int),
                None => {
                    if exists|i: int| ends_first(snapshot_marks(), current@, i) {
                        let i = choose|i: int| ends_first(snapshot_marks(), current@, i);
                        let at = choose|at: int| #[trigger]
                            occurs_at(current@, snapshot_marks()[i], at) && no_end_before(
                                snapshot_marks(),
                                current@,
                                at + snapshot_marks()[i].len(),
                            );
                        assert(occurs_at(current@, VCS_VERSION_NUMBERS@[i]@, at));
                    }
                },
            }
        }
    }
    let greater = compare_greater(current, new.as_str());
    let result = assess(name, current, fresh.as_str(), complied, mark, greater);
    let write = if dry_run {
        None
    } else {
        Some(new)
    };
    Ok(Checked { result, write })
}

} // verus!
