//! The regular expressions that find things in a spec file, and what they find.

use crate::context::pair_texts;
use crate::text::{
    is_trimmed, is_white_space, law_trimming_takes_white_space_only, lemma_trimmed_bounds,
    lemma_trimmed_is, lemma_trimmed_is_trimmed, occurs_at, optional_text, texts, trimmed,
};
use regex::Regex;
use vstd::prelude::*;

verus! {

/// Finds the value of the `Version` field, group 1.
pub const VERSION_PATTERN: &'static str = r"(?m)^Version:\s*(.+)$";

/// Finds the `Version` field with the white space before its value, group 1.
pub const VERSION_SPACE_PATTERN: &'static str = r"(?m)^Version:(\s*).+$";

/// Finds a macro definition: the name is group 1, the body group 2.
pub const DEFINE_PATTERN: &'static str = r"(?m)^%(?:define|global)\s+(\w+)\s+(.+)$";

/// Finds a reference to a macro, such as `%{foo}`, `%{?foo}`, `%{!?foo}` or `%{?foo:...}`:
/// the name is group 1.
pub const MACRO_PATTERN: &'static str = r"%\{!?\??(\w+)";

/// What the `Version` field starts with.
pub const VERSION_LABEL: &'static str = "Version:";

/// What the definition of a macro starts with.
pub const DEFINE_WORD: &'static str = "%define";

/// What the definition of a global macro starts with.
pub const GLOBAL_WORD: &'static str = "%global";

/// One match of a regular expression: the characters from `start` up to `end`, and the text
/// of each group that took part in it, group 0 being the whole match.
pub struct Found {
    pub start: int,
    pub end: int,
    pub groups: Seq<Option<Seq<char>>>,
}

/// The text of group `i`, empty where there is none.
pub open spec fn group_text(groups: Seq<Option<Seq<char>>>, i: int) -> Seq<char> {
    if 0 <= i < groups.len() {
        match groups[i] {
            Some(text) => text,
            None => Seq::empty(),
        }
    } else {
        Seq::empty()
    }
}

/// The views of the groups of one match.
pub open spec fn group_views(groups: Seq<Option<String>>) -> Seq<Option<Seq<char>>> {
    groups.map_values(|g: Option<String>| optional_text(g))
}

/// A line starts at `i`.
pub open spec fn starts_line(text: Seq<char>, i: int) -> bool {
    i == 0 || (0 < i <= text.len() && text[i - 1] == '\n')
}

/// The first position from `i` on at which a line ends.
pub open spec fn line_end(text: Seq<char>, i: int) -> int
    decreases text.len() - i,
{
    if i < text.len() && text[i] != '\n' {
        line_end(text, i + 1)
    } else {
        i
    }
}

/// The first position from `i` on that is not white space, or the end of `text`.
pub open spec fn skip_white_space(text: Seq<char>, i: int) -> int
    decreases text.len() - i,
{
    if i < text.len() && is_white_space(text[i]) {
        skip_white_space(text, i + 1)
    } else {
        i
    }
}

/// The last position before `end` that does not hold a newline, or -1.
pub open spec fn last_visible(text: Seq<char>, end: int) -> int
    decreases end,
{
    if end <= 0 {
        -1
    } else if text[end - 1] != '\n' {
        end - 1
    } else {
        last_visible(text, end - 1)
    }
}

/// A `Version` field stands at `i`: the label at the start of a line, and behind it, on this
/// line or a later one, something that is not a newline.
pub open spec fn version_label_at(text: Seq<char>, i: int) -> bool {
    &&& starts_line(text, i)
    &&& occurs_at(text, VERSION_LABEL@, i)
    &&& last_visible(text, text.len() as int) >= i + VERSION_LABEL@.len()
}

/// The first `Version` field stands at `i`.
pub open spec fn first_version_label_at(text: Seq<char>, i: int) -> bool {
    &&& version_label_at(text, i)
    &&& forall|j: int| j < i ==> !version_label_at(text, j)
}

/// The place of the `Version` field: where its label starts, where its value starts, and
/// where the value ends.
pub open spec fn version_field(text: Seq<char>) -> Option<(int, int, int)> {
    if exists|i: int| version_label_at(text, i) {
        let start = choose|i: int| first_version_label_at(text, i);
        let next = skip_white_space(text, start + VERSION_LABEL@.len());
        let value = if next < text.len() {
            next
        } else {
            last_visible(text, text.len() as int)
        };
        Some((start, value, line_end(text, value)))
    } else {
        None
    }
}

/// The value of the `Version` field, without the white space around it.
pub open spec fn version_in(text: Seq<char>) -> Option<Seq<char>> {
    match version_field(text) {
        Some((_, value, end)) => Some(trimmed(text.subrange(value, end))),
        None => None,
    }
}

/// `text` with `new` for the value of its `Version` field; what has none stays as it is.
pub open spec fn with_version(text: Seq<char>, new: Seq<char>) -> Seq<char> {
    match version_field(text) {
        Some((_, value, end)) => text.take(value) + new + text.skip(end),
        None => text,
    }
}

/// `i` is the first position from `from` on at which a line ends.
pub proof fn lemma_line_end(text: Seq<char>, from: int, i: int)
    requires
        0 <= from <= i <= text.len(),
        forall|k: int| from <= k < i ==> text[k] != '\n',
        i < text.len() ==> text[i] == '\n',
    ensures
        line_end(text, from) == i,
    decreases i - from,
{
    if from < i {
        lemma_line_end(text, from + 1, i);
    }
}

proof fn lemma_line_end_bounds(text: Seq<char>, from: int)
    requires
        0 <= from <= text.len(),
    ensures
        from <= line_end(text, from) <= text.len(),
        forall|k: int| from <= k < line_end(text, from) ==> #[trigger] text[k] != '\n',
        line_end(text, from) < text.len() ==> text[line_end(text, from)] == '\n',
    decreases text.len() - from,
{
    if from < text.len() && text[from] != '\n' {
        lemma_line_end_bounds(text, from + 1);
    }
}

pub proof fn lemma_skip_white_space(text: Seq<char>, from: int, i: int)
    requires
        0 <= from <= i <= text.len(),
        forall|k: int| from <= k < i ==> is_white_space(#[trigger] text[k]),
        i < text.len() ==> !is_white_space(text[i]),
    ensures
        skip_white_space(text, from) == i,
    decreases i - from,
{
    if from < i {
        assert(is_white_space(text[from]));
        lemma_skip_white_space(text, from + 1, i);
    }
}

proof fn lemma_skip_white_space_bounds(text: Seq<char>, from: int)
    requires
        0 <= from <= text.len(),
    ensures
        from <= skip_white_space(text, from) <= text.len(),
        forall|k: int|
            from <= k < skip_white_space(text, from) ==> is_white_space(#[trigger] text[k]),
        skip_white_space(text, from) < text.len() ==> !is_white_space(
            text[skip_white_space(text, from)],
        ),
    decreases text.len() - from,
{
    if from < text.len() && is_white_space(text[from]) {
        lemma_skip_white_space_bounds(text, from + 1);
    }
}

pub proof fn lemma_last_visible(text: Seq<char>, end: int)
    requires
        0 <= end <= text.len(),
    ensures
        -1 <= last_visible(text, end) < end || end == 0,
        last_visible(text, end) >= 0 ==> text[last_visible(text, end)] != '\n',
        forall|k: int| 0 <= k < end && #[trigger] text[k] != '\n' ==> k <= last_visible(text, end),
    decreases end,
{
    if end > 0 && text[end - 1] == '\n' {
        lemma_last_visible(text, end - 1);
    }
}

proof fn lemma_first_version_label(text: Seq<char>, i: int)
    requires
        version_label_at(text, i),
    ensures
        exists|k: int| first_version_label_at(text, k),
    decreases i,
{
    assert(0 <= i);
    if exists|j: int| j < i && version_label_at(text, j) {
        let j = choose|j: int| j < i && version_label_at(text, j);
        assert(0 <= j);
        lemma_first_version_label(text, j);
    } else {
        assert(first_version_label_at(text, i));
    }
}

/// Where the first label stands, the field starts.
pub proof fn lemma_version_field_start(text: Seq<char>, i: int)
    requires
        first_version_label_at(text, i),
    ensures
        version_field(text) matches Some((start, _, _)) && start == i,
{
    let k = choose|k: int| first_version_label_at(text, k);
    assert(first_version_label_at(text, k));
    assert(!(i < k));
    assert(!(k < i));
}

/// The parts of a `Version` field follow one another, nothing but white space stands between
/// label and value, and the value reaches to the end of its line.
pub proof fn lemma_version_field(text: Seq<char>)
    ensures
        version_field(text) matches Some((start, value, end)) ==> {
            &&& first_version_label_at(text, start)
            &&& 0 <= start
            &&& start + VERSION_LABEL@.len() <= value
            &&& value <= end <= text.len()
            &&& forall|k: int|
                start + VERSION_LABEL@.len() <= k < value ==> is_white_space(#[trigger] text[k])
            &&& forall|k: int| value <= k < end ==> #[trigger] text[k] != '\n'
            &&& end < text.len() ==> text[end] == '\n'
        },
{
    if let Some((start, value, end)) = version_field(text) {
        let some = choose|i: int| version_label_at(text, i);
        lemma_first_version_label(text, some);
        assert(first_version_label_at(text, start));
        let from = start + VERSION_LABEL@.len();
        lemma_skip_white_space_bounds(text, from);
        lemma_last_visible(text, text.len() as int);
        lemma_line_end_bounds(text, value);
    }
}

/// A version that was written into a spec file moves its value to the first character that is
/// not white space, and the label stays where it was.
proof fn lemma_written_field(text: Seq<char>, new: Seq<char>, a: int)
    requires
        version_field(text) is Some,
        0 <= a < new.len(),
        forall|k: int| 0 <= k < a ==> is_white_space(#[trigger] new[k]),
        !is_white_space(new[a]),
    ensures
        version_field(text) matches Some((start, value, _)) && version_field(
            with_version(text, new),
        ) == Some((start, value + a, line_end(with_version(text, new), value + a))),
{
    reveal_strlit("Version:");
    let label = VERSION_LABEL@;
    let (start, value, end) = version_field(text)->0;
    lemma_version_field(text);
    let out = with_version(text, new);
    let first = value + a;
    assert(out =~= text.take(value) + new + text.skip(end));
    assert forall|k: int| 0 <= k < value implies out[k] == text[k] by {}
    assert forall|k: int| value <= k < value + new.len() implies #[trigger] out[k] == new[k
        - value] by {}
    lemma_last_visible(out, out.len() as int);
    lemma_last_visible(text, text.len() as int);
    assert(out[first] == new[a]);
    assert(version_label_at(out, start)) by {
        assert(out.subrange(start, start + label.len()) =~= text.subrange(
            start,
            start + label.len(),
        ));
    }
    assert forall|j: int| j < start implies !version_label_at(out, j) by {
        if version_label_at(out, j) {
            assert(out.subrange(j, j + label.len()) =~= text.subrange(j, j + label.len()));
            assert(text.subrange(start, start + label.len())[7] == text[start + 7]);
            assert(text[start + 7] != '\n');
            assert(version_label_at(text, j));
        }
    }
    lemma_version_field_start(out, start);
    assert forall|k: int| start + label.len() <= k < first implies is_white_space(
        #[trigger] out[k],
    ) by {
        if k < value {
            assert(out[k] == text[k]);
        } else {
            assert(out[k] == new[k - value]);
        }
    }
    lemma_skip_white_space(out, start + label.len(), first);
}

/// A version that was written into a spec file is the one that is read from it, but for the
/// white space around it. This holds of a version that, without that white space, is not empty
/// and holds no newline.
pub proof fn law_written_version_is_read(text: Seq<char>, new: Seq<char>)
    requires
        version_field(text) is Some,
        trimmed(new).len() > 0,
        !trimmed(new).contains('\n'),
    ensures
        version_in(with_version(text, new)) == Some(trimmed(new)),
{
    let (start, value, end) = version_field(text)->0;
    lemma_version_field(text);
    let (a, b) = lemma_trimmed_bounds(new);
    lemma_written_field(text, new, a);
    let out = with_version(text, new);
    let first = value + a;
    let stop = value + new.len();
    let last = line_end(out, first);
    lemma_line_end_bounds(out, first);
    assert(out =~= text.take(value) + new + text.skip(end));
    assert forall|k: int| value <= k < stop implies #[trigger] out[k] == new[k - value] by {}
    assert(stop < out.len() ==> out[stop] == text[end]);
    assert forall|k: int| first <= k < value + b implies #[trigger] out[k] != '\n' by {
        assert(trimmed(new)[k - first] == new[k - value]);
        assert(trimmed(new).contains(new[k - value]));
    }
    assert(value + b <= last <= stop);
    let line = out.subrange(first, last);
    assert forall|k: int| b - a <= k < line.len() implies is_white_space(#[trigger] line[k]) by {
        assert(line[k] == new[k + a]);
    }
    assert(line[0] == new[a]);
    assert(line[b - a - 1] == new[b - 1]);
    lemma_trimmed_is(line, 0, b - a);
    assert(line.subrange(0, b - a) =~= new.subrange(a, b));
}

/// Writing the same version a second time changes nothing. This holds of a version that does
/// not start with white space and holds no newline.
pub proof fn law_writing_twice_is_writing_once(text: Seq<char>, new: Seq<char>)
    requires
        new.len() > 0,
        !is_white_space(new[0]),
        !new.contains('\n'),
    ensures
        with_version(with_version(text, new), new) == with_version(text, new),
{
    if version_field(text) is Some {
        let (start, value, end) = version_field(text)->0;
        lemma_version_field(text);
        lemma_written_field(text, new, 0);
        let out = with_version(text, new);
        let stop = value + new.len();
        assert(out =~= text.take(value) + new + text.skip(end));
        assert forall|k: int| value <= k < stop implies out[k] != '\n' by {
            assert(out[k] == new[k - value]);
            assert(new.contains(new[k - value]));
        }
        assert(stop < out.len() ==> out[stop] == text[end]);
        lemma_line_end(out, value, stop);
        assert(with_version(out, new) =~= out);
    }
}

/// The characters beyond ASCII that the class `\w` of the crate `regex` holds.
pub uninterp spec fn regex_word(c: char) -> bool;

/// A word character: an ASCII letter, an ASCII digit, an underscore, or what the class `\w`
/// holds beyond ASCII. White space is none.
pub open spec fn is_word_char(c: char) -> bool {
    ||| 'a' <= c <= 'z'
    ||| 'A' <= c <= 'Z'
    ||| '0' <= c <= '9'
    ||| c == '_'
    ||| c > '\u{7f}' && !is_white_space(c) && regex_word(c)
}

/// The first position from `i` on that is no word character, or the end of `text`.
pub open spec fn word_end(text: Seq<char>, i: int) -> int
    decreases text.len() - i,
{
    if i < text.len() && is_word_char(text[i]) {
        word_end(text, i + 1)
    } else {
        i
    }
}

/// A reference to a macro: it goes from `start` to `end`, where the name ends too.
pub struct Reference {
    pub start: int,
    pub name: int,
    pub end: int,
}

/// Where the name stands in a reference that starts at `i`: behind `%{`, `%{?`, `%{!` or
/// `%{!?`.
pub open spec fn reference_name(text: Seq<char>, i: int) -> int {
    let bang = if i + 2 < text.len() && text[i + 2] == '!' {
        i + 3
    } else {
        i + 2
    };
    if bang < text.len() && text[bang] == '?' {
        bang + 1
    } else {
        bang
    }
}

/// The reference that starts at `i`: a percent sign, a brace, and behind them, where they are
/// there, an exclamation mark and a question mark, then a name as long as it can be.
pub open spec fn reference_at(text: Seq<char>, i: int) -> Option<Reference> {
    let name = reference_name(text, i);
    let end = word_end(text, name);
    if 0 <= i && i + 1 < text.len() && text[i] == '%' && text[i + 1] == '{' && name < end {
        Some(Reference { start: i, name, end })
    } else {
        None
    }
}

/// The references from `i` on, from left to right. None of them starts inside another.
pub open spec fn references_from(text: Seq<char>, i: int) -> Seq<Reference>
    decreases text.len() - i,
{
    if i >= text.len() {
        Seq::empty()
    } else {
        match reference_at(text, i) {
            Some(reference) => {
                proof {
                    lemma_word_end(text, reference.name);
                }
                seq![reference] + references_from(text, reference.end)
            },
            None => references_from(text, i + 1),
        }
    }
}

/// The groups of the match that is a reference: all of it and the name.
pub open spec fn reference_groups(text: Seq<char>, reference: Reference) -> Seq<
    Option<Seq<char>>,
> {
    seq![
        Some(text.subrange(reference.start, reference.end)),
        Some(text.subrange(reference.name, reference.end)),
    ]
}

/// The definition of a macro: it starts at `start`, the name goes from `name` to `name_end`,
/// and the body from `body` to the end of its line.
pub struct Definition {
    pub start: int,
    pub name: int,
    pub name_end: int,
    pub body: int,
    pub end: int,
}

/// The definition that starts at `i`: at the start of a line `%define` or `%global`, white
/// space, a name, white space, and the rest of the line. The white space may hold newlines;
/// where nothing but white space stands behind the name, the body is the last of it that is
/// not a newline.
pub open spec fn definition_at(text: Seq<char>, i: int) -> Option<Definition> {
    let name = skip_white_space(text, i + DEFINE_WORD@.len());
    let name_end = word_end(text, name);
    let next = skip_white_space(text, name_end);
    let body = if next < text.len() {
        next
    } else {
        last_visible(text, text.len() as int)
    };
    if starts_line(text, i) && (occurs_at(text, DEFINE_WORD@, i) || occurs_at(
        text,
        GLOBAL_WORD@,
        i,
    )) && i + DEFINE_WORD@.len() < name < name_end < next && name_end < body {
        Some(Definition { start: i, name, name_end, body, end: line_end(text, body) })
    } else {
        None
    }
}

/// The definitions from `i` on, from top to bottom. None of them starts inside another.
pub open spec fn definitions_from(text: Seq<char>, i: int) -> Seq<Definition>
    decreases text.len() - i,
{
    if i >= text.len() {
        Seq::empty()
    } else {
        match definition_at(text, i) {
            Some(definition) => {
                proof {
                    lemma_definition_at(text, i);
                }
                seq![definition] + definitions_from(text, definition.end)
            },
            None => definitions_from(text, i + 1),
        }
    }
}

/// The groups of the match that is a definition: all of it, the name and the body.
pub open spec fn definition_groups(text: Seq<char>, definition: Definition) -> Seq<
    Option<Seq<char>>,
> {
    seq![
        Some(text.subrange(definition.start, definition.end)),
        Some(text.subrange(definition.name, definition.name_end)),
        Some(text.subrange(definition.body, definition.end)),
    ]
}

/// The names of the macros that `text` refers to, from left to right.
pub open spec fn macros_in(text: Seq<char>) -> Seq<Seq<char>> {
    references_from(text, 0).map_values(|r: Reference| text.subrange(r.name, r.end))
}

/// The macro definitions in `text`, from top to bottom, each body without the white space
/// around it.
pub open spec fn defines_in(text: Seq<char>) -> Seq<(Seq<char>, Seq<char>)> {
    definitions_from(text, 0).map_values(
        |d: Definition|
            (text.subrange(d.name, d.name_end), trimmed(text.subrange(d.body, d.end))),
    )
}

/// A word is made of word characters and ends inside the text.
pub proof fn lemma_word_end(text: Seq<char>, from: int)
    ensures
        from <= word_end(text, from),
        from <= text.len() ==> word_end(text, from) <= text.len(),
        forall|k: int| from <= k < word_end(text, from) ==> is_word_char(#[trigger] text[k]),
    decreases text.len() - from,
{
    if from < text.len() && is_word_char(text[from]) {
        lemma_word_end(text, from + 1);
    }
}

/// The parts of a definition follow one another. The name is made of word characters, and the
/// body holds no newline.
pub proof fn lemma_definition_at(text: Seq<char>, i: int)
    ensures
        definition_at(text, i) matches Some(d) ==> {
            &&& 0 <= i == d.start < d.name < d.name_end < d.body < d.end <= text.len()
            &&& forall|k: int| d.name <= k < d.name_end ==> is_word_char(#[trigger] text[k])
            &&& forall|k: int| d.body <= k < d.end ==> #[trigger] text[k] != '\n'
        },
{
    reveal_strlit("%define");
    reveal_strlit("%global");
    if let Some(d) = definition_at(text, i) {
        lemma_skip_white_space_bounds(text, i + 7);
        lemma_word_end(text, d.name);
        lemma_skip_white_space_bounds(text, d.name_end);
        lemma_last_visible(text, text.len() as int);
        lemma_line_end_bounds(text, d.body);
        assert(text[d.body] != '\n');
    }
}

proof fn lemma_definitions_from(text: Seq<char>, i: int, k: int)
    requires
        0 <= k < definitions_from(text, i).len(),
    ensures
        ({
            let d = definitions_from(text, i)[k];
            definition_at(text, d.start) == Some(d)
        }),
    decreases text.len() - i,
{
    if i < text.len() {
        match definition_at(text, i) {
            Some(d) => {
                lemma_definition_at(text, i);
                if k > 0 {
                    lemma_definitions_from(text, d.end, k - 1);
                }
            },
            None => {
                lemma_definitions_from(text, i + 1, k);
            },
        }
    }
}

/// The name of a macro that is defined is made of word characters and not empty, and its body
/// holds no newline and has no white space around it.
pub proof fn law_definitions_are_lines(text: Seq<char>, i: int)
    requires
        0 <= i < defines_in(text).len(),
    ensures
        ({
            let (name, body) = defines_in(text)[i];
            &&& name.len() > 0
            &&& forall|k: int| 0 <= k < name.len() ==> is_word_char(#[trigger] name[k])
            &&& !body.contains('\n')
            &&& is_trimmed(body)
        }),
{
    let d = definitions_from(text, 0)[i];
    lemma_definitions_from(text, 0, i);
    lemma_definition_at(text, d.start);
    let name = text.subrange(d.name, d.name_end);
    assert forall|k: int| 0 <= k < name.len() implies is_word_char(#[trigger] name[k]) by {
        assert(name[k] == text[d.name + k]);
    }
    let line = text.subrange(d.body, d.end);
    lemma_trimmed_is_trimmed(line);
    lemma_trimmed_keeps_lines(line);
}

/// Trimming adds no newline.
pub proof fn lemma_trimmed_keeps_lines(text: Seq<char>)
    requires
        forall|k: int| 0 <= k < text.len() ==> #[trigger] text[k] != '\n',
    ensures
        !trimmed(text).contains('\n'),
{
    let (a, b) = lemma_trimmed_bounds(text);
    assert forall|k: int| 0 <= k < trimmed(text).len() implies trimmed(text)[k] != '\n' by {
        assert(trimmed(text)[k] == text[a + k]);
    }
}

/// No line of a text starts with the label of the `Version` field, so none does where more text
/// follows behind a newline.
proof fn lemma_no_earlier_label(before: Seq<char>, behind: Seq<char>, j: int)
    requires
        before.len() > 0 ==> before.last() == '\n',
        forall|k: int|
            0 <= k && k + 8 <= before.len() && (k == 0 || before[k - 1] == '\n')
                ==> #[trigger] before.subrange(k, k + 8) != "Version:"@,
        j < before.len(),
    ensures
        !version_label_at(before + behind, j),
{
    reveal_strlit("Version:");
    let text = before + behind;
    if version_label_at(text, j) {
        let label = text.subrange(j, j + 8);
        if j + 8 <= before.len() {
            assert(before.subrange(j, j + 8) =~= label);
            if j > 0 {
                assert(before[j - 1] == text[j - 1]);
            }
        } else {
            let k = before.len() - 1 - j;
            assert(label[k] == text[before.len() - 1]);
            assert(text[before.len() - 1] == before.last());
        }
    }
}

/// The first line that starts with `Version:` states the version: what stands behind the label,
/// without the white space around it. Another version takes its place, and nothing else of the
/// text changes, but for the white space behind the value.
pub proof fn law_version_line_states_the_version(
    before: Seq<char>,
    space: Seq<char>,
    version: Seq<char>,
    trail: Seq<char>,
    rest: Seq<char>,
    new: Seq<char>,
)
    requires
        before.len() > 0 ==> before.last() == '\n',
        forall|j: int|
            0 <= j && j + 8 <= before.len() && (j == 0 || before[j - 1] == '\n')
                ==> #[trigger] before.subrange(j, j + 8) != "Version:"@,
        forall|i: int| 0 <= i < space.len() ==> is_white_space(#[trigger] space[i]),
        version.len() > 0,
        !is_white_space(version[0]),
        !is_white_space(version.last()),
        forall|i: int| 0 <= i < version.len() ==> #[trigger] version[i] != '\n',
        forall|i: int|
            0 <= i < trail.len() ==> is_white_space(#[trigger] trail[i]) && trail[i] != '\n',
        rest.len() > 0 ==> rest[0] == '\n',
    ensures
        version_in(before + "Version:"@ + space + version + trail + rest) == Some(version),
        with_version(before + "Version:"@ + space + version + trail + rest, new) == before
            + "Version:"@ + space + new + rest,
{
    let text = before + "Version:"@ + space + version + trail + rest;
    let value = before.len() as int + 8 + space.len();
    let stop = value + version.len();
    let end = stop + trail.len();
    reveal_strlit("Version:");
    assert(text =~= before + "Version:"@ + space + (version + trail + rest));
    lemma_label_and_space(before, space, version + trail + rest);
    assert forall|k: int| value <= k < end implies text[k] != '\n' by {
        if k < stop {
            assert(text[k] == version[k - value]);
        } else {
            assert(text[k] == trail[k - stop]);
        }
    }
    assert(end < text.len() ==> text[end] == rest[0]);
    lemma_line_end(text, value, end);
    assert(text.subrange(value, end) =~= Seq::<char>::empty() + version + trail);
    law_trimming_takes_white_space_only(Seq::empty(), version, trail);
    assert(text.take(value) =~= before + "Version:"@ + space);
    assert(text.skip(end) =~= rest);
}

/// The first label and the white space behind it lead to the value.
proof fn lemma_label_and_space(before: Seq<char>, space: Seq<char>, tail: Seq<char>)
    requires
        before.len() > 0 ==> before.last() == '\n',
        forall|j: int|
            0 <= j && j + 8 <= before.len() && (j == 0 || before[j - 1] == '\n')
                ==> #[trigger] before.subrange(j, j + 8) != "Version:"@,
        forall|i: int| 0 <= i < space.len() ==> is_white_space(#[trigger] space[i]),
        tail.len() > 0,
        !is_white_space(tail[0]),
    ensures
        ({
            let text = before + "Version:"@ + space + tail;
            let value = before.len() as int + 8 + space.len();
            version_field(text) == Some((before.len() as int, value, line_end(text, value)))
        }),
{
    reveal_strlit("Version:");
    let text = before + "Version:"@ + space + tail;
    let start = before.len() as int;
    let from = start + 8;
    let value = from + space.len();
    assert(text.subrange(start, from) =~= "Version:"@);
    assert forall|k: int| from <= k < value implies is_white_space(#[trigger] text[k]) by {
        assert(text[k] == space[k - from]);
    }
    assert(text[value] == tail[0]);
    lemma_last_visible(text, text.len() as int);
    assert(version_label_at(text, start));
    let behind = "Version:"@ + space + tail;
    assert(text =~= before + behind);
    assert forall|j: int| j < start implies !version_label_at(text, j) by {
        lemma_no_earlier_label(before, behind, j);
    }
    lemma_version_field_start(text, start);
    lemma_skip_white_space(text, from, value);
}

/// A label with nothing but white space behind it states an empty version. The last character
/// that is not a newline counts as the value; where there is none, there is no field.
pub proof fn law_blank_version_line(
    before: Seq<char>,
    space: Seq<char>,
    newlines: Seq<char>,
    c: char,
    new: Seq<char>,
)
    requires
        before.len() > 0 ==> before.last() == '\n',
        forall|j: int|
            0 <= j && j + 8 <= before.len() && (j == 0 || before[j - 1] == '\n')
                ==> #[trigger] before.subrange(j, j + 8) != "Version:"@,
        forall|i: int| 0 <= i < space.len() ==> is_white_space(#[trigger] space[i]),
        forall|i: int| 0 <= i < newlines.len() ==> #[trigger] newlines[i] == '\n',
        is_white_space(c),
        c != '\n',
    ensures
        version_in(before + "Version:"@ + space + seq![c] + newlines) == Some(Seq::<char>::empty()),
        with_version(before + "Version:"@ + space + seq![c] + newlines, new) == before
            + "Version:"@ + space + new + newlines,
        version_in(before + "Version:"@ + newlines) is None,
        with_version(before + "Version:"@ + newlines, new) == before + "Version:"@ + newlines,
{
    reveal_strlit("Version:");
    let start = before.len() as int;
    let from = start + 8;
    {
        let text = before + "Version:"@ + space + seq![c] + newlines;
        let value = from + space.len();
        let behind = "Version:"@ + space + seq![c] + newlines;
        assert(text =~= before + behind);
        assert(text.subrange(start, from) =~= "Version:"@);
        assert(text[value] == c);
        assert forall|k: int| from <= k < text.len() implies is_white_space(#[trigger] text[k]) by {
            if k < value {
                assert(text[k] == space[k - from]);
            } else if k > value {
                assert(text[k] == newlines[k - value - 1]);
            }
        }
        lemma_last_visible(text, text.len() as int);
        assert forall|k: int| value < k < text.len() implies #[trigger] text[k] == '\n' by {
            assert(text[k] == newlines[k - value - 1]);
        }
        assert(last_visible(text, text.len() as int) == value);
        assert(version_label_at(text, start));
        assert forall|j: int| j < start implies !version_label_at(text, j) by {
            lemma_no_earlier_label(before, behind, j);
        }
        lemma_version_field_start(text, start);
        lemma_skip_white_space(text, from, text.len() as int);
        lemma_line_end(text, value, value + 1);
        assert(text.subrange(value, value + 1) =~= seq![c] + Seq::<char>::empty()
            + Seq::<char>::empty());
        law_trimming_takes_white_space_only(seq![c], Seq::empty(), Seq::empty());
        assert(with_version(text, new) =~= before + "Version:"@ + space + new + newlines);
    }
    {
        let text = before + "Version:"@ + newlines;
        let behind = "Version:"@ + newlines;
        assert(text =~= before + behind);
        assert(text.subrange(start, from) =~= "Version:"@);
        assert forall|k: int| from <= k < text.len() implies #[trigger] text[k] == '\n' by {
            assert(text[k] == newlines[k - from]);
        }
        lemma_last_visible(text, text.len() as int);
        assert forall|j: int| !version_label_at(text, j) by {
            if j < start {
                lemma_no_earlier_label(before, behind, j);
            } else if version_label_at(text, j) {
                let label = text.subrange(j, j + 8);
                assert(label[7] == text[j + 7]);
                assert(label[0] == text[j]);
            }
        }
    }
}

/// A text in which no line starts with `Version:` states no version and stays as it is.
pub proof fn law_no_version_line_no_version(text: Seq<char>, new: Seq<char>)
    requires
        forall|j: int|
            0 <= j && j + 8 <= text.len() && (j == 0 || text[j - 1] == '\n')
                ==> #[trigger] text.subrange(j, j + 8) != "Version:"@,
    ensures
        version_in(text) is None,
        with_version(text, new) == text,
{
    reveal_strlit("Version:");
    assert forall|j: int| !version_label_at(text, j) by {
        if version_label_at(text, j) {
            assert(text.subrange(j, j + 8) == "Version:"@);
        }
    }
}

/// The word characters of ASCII by their codes; white space is never one.
pub proof fn law_word_characters_by_code(c: char)
    ensures
        c as int <= 127 ==> (is_word_char(c) <==> 48 <= c as int <= 57 || 65 <= c as int <= 90
            || c as int == 95 || 97 <= c as int <= 122),
        c as int > 127 ==> (is_word_char(c) <==> regex_word(c) && !is_white_space(c)),
{
}

proof fn lemma_shift(before: Seq<char>, text: Seq<char>, i: int)
    requires
        0 <= i,
    ensures
        ({
            let all = before + text;
            let n = before.len() as int;
            &&& word_end(all, n + i) == n + word_end(text, i)
            &&& line_end(all, n + i) == n + line_end(text, i)
            &&& skip_white_space(all, n + i) == n + skip_white_space(text, i)
        }),
    decreases text.len() - i,
{
    if i < text.len() {
        assert((before + text)[before.len() + i] == text[i]);
        lemma_shift(before, text, i + 1);
    }
}

proof fn lemma_shift_last_visible(before: Seq<char>, text: Seq<char>, end: int)
    requires
        0 <= end <= text.len(),
    ensures
        ({
            let n = before.len() as int;
            let there = last_visible(before + text, n + end);
            let here = last_visible(text, end);
            if here >= 0 {
                there == n + here
            } else {
                there < n
            }
        }),
    decreases end,
{
    if end > 0 {
        assert((before + text)[before.len() + end - 1] == text[end - 1]);
        lemma_shift_last_visible(before, text, end - 1);
    } else {
        lemma_last_visible(before + text, before.len() as int);
    }
}

/// What is found from some place on does not depend on what stands before that place.
proof fn lemma_shift_references(before: Seq<char>, text: Seq<char>, i: int)
    requires
        0 <= i,
    ensures
        ({
            let all = before + text;
            let n = before.len() as int;
            references_from(all, n + i).map_values(|r: Reference| all.subrange(r.name, r.end))
                == references_from(text, i).map_values(|r: Reference| text.subrange(r.name, r.end))
        }),
    decreases text.len() - i,
{
    let all = before + text;
    let n = before.len() as int;
    let there = |r: Reference| all.subrange(r.name, r.end);
    let here = |r: Reference| text.subrange(r.name, r.end);
    if i < text.len() {
        assert forall|k: int| 0 <= k < text.len() implies all[n + k] == #[trigger] text[k] by {}
        assert(reference_name(all, n + i) == n + reference_name(text, i));
        lemma_shift(before, text, reference_name(text, i));
        match reference_at(text, i) {
            Some(r) => {
                let s = reference_at(all, n + i)->0;
                assert(s.name == n + r.name && s.end == n + r.end);
                lemma_word_end(text, r.name);
                lemma_shift_references(before, text, r.end);
                assert(all.subrange(s.name, s.end) =~= text.subrange(r.name, r.end));
                assert(references_from(all, n + i).map_values(there) =~= seq![there(s)]
                    + references_from(all, s.end).map_values(there));
                assert(references_from(text, i).map_values(here) =~= seq![here(r)]
                    + references_from(text, r.end).map_values(here));
            },
            None => {
                assert(reference_at(all, n + i) is None);
                lemma_shift_references(before, text, i + 1);
            },
        }
    } else {
        assert(references_from(all, n + i).map_values(there) =~= references_from(
            text,
            i,
        ).map_values(here));
    }
}

/// A character other than a percent sign adds no reference.
pub proof fn law_plain_characters_add_no_reference(c: char, text: Seq<char>)
    requires
        c != '%',
    ensures
        macros_in(seq![c] + text) == macros_in(text),
        macros_in(Seq::empty()) == Seq::<Seq<char>>::empty(),
{
    lemma_shift_references(seq![c], text, 0);
    assert(reference_at(seq![c] + text, 0) is None);
    assert(macros_in(Seq::empty()) =~= Seq::<Seq<char>>::empty());
}

/// The references are `%{name`, `%{?name`, `%{!name` and `%{!?name`: each adds its whole name in
/// front of the references that follow.
pub proof fn law_references_add_their_names(mark: Seq<char>, name: Seq<char>, tail: Seq<char>)
    requires
        mark == Seq::<char>::empty() || mark == seq!['?'] || mark == seq!['!'] || mark == seq![
            '!',
            '?',
        ],
        name.len() > 0,
        forall|i: int| 0 <= i < name.len() ==> is_word_char(#[trigger] name[i]),
        tail.len() > 0 ==> !is_word_char(tail[0]),
    ensures
        macros_in(seq!['%', '{'] + mark + name + tail) == seq![name] + macros_in(tail),
{
    let head = seq!['%', '{'] + mark + name;
    let text = head + tail;
    let from = 2 + mark.len() as int;
    let end = from + name.len();
    assert(text[0] == '%' && text[1] == '{');
    assert forall|k: int| 0 <= k < mark.len() implies text[2 + k] == #[trigger] mark[k] by {}
    assert(text[from] == name[0]);
    assert(is_word_char(name[0]));
    assert(reference_name(text, 0) == from);
    assert forall|k: int| from <= k < end implies is_word_char(#[trigger] text[k]) by {
        assert(text[k] == name[k - from]);
    }
    assert(end < text.len() ==> text[end] == tail[0]);
    lemma_word_end_is(text, from, end);
    let r = Reference { start: 0, name: from, end };
    assert(reference_at(text, 0) == Some(r));
    lemma_shift_references(head, tail, 0);
    let names = |r: Reference| text.subrange(r.name, r.end);
    assert(text.subrange(from, end) =~= name);
    assert(references_from(text, 0).map_values(names) =~= seq![names(r)] + references_from(
        text,
        end,
    ).map_values(names));
}

proof fn lemma_word_end_is(text: Seq<char>, from: int, i: int)
    requires
        0 <= from <= i <= text.len(),
        forall|k: int| from <= k < i ==> is_word_char(#[trigger] text[k]),
        i < text.len() ==> !is_word_char(text[i]),
    ensures
        word_end(text, from) == i,
    decreases i - from,
{
    if from < i {
        assert(is_word_char(text[from]));
        lemma_word_end_is(text, from + 1, i);
    }
}

/// A percent sign that starts none of these forms adds no reference.
pub proof fn law_other_percent_signs_add_no_reference(tail: Seq<char>)
    requires
        tail.len() > 0 && tail[0] == '{' ==> ({
            let a = if tail.len() > 1 && tail[1] == '!' {
                2int
            } else {
                1int
            };
            let b = if tail.len() > a && tail[a] == '?' {
                a + 1
            } else {
                a
            };
            !(b < tail.len() && is_word_char(tail[b]))
        }),
    ensures
        macros_in(seq!['%'] + tail) == macros_in(tail),
{
    let text = seq!['%'] + tail;
    assert forall|k: int| 0 <= k < tail.len() implies text[k + 1] == #[trigger] tail[k] by {}
    lemma_shift_references(seq!['%'], tail, 0);
    if tail.len() > 0 && tail[0] == '{' {
        assert(text[1] == '{');
        lemma_word_end(text, reference_name(text, 0));
    }
    assert(reference_at(text, 0) is None);
}

/// The names and bodies that are defined from `i` on.
spec fn defines_from(text: Seq<char>, i: int) -> Seq<(Seq<char>, Seq<char>)> {
    definitions_from(text, i).map_values(
        |d: Definition|
            (text.subrange(d.name, d.name_end), trimmed(text.subrange(d.body, d.end))),
    )
}

proof fn lemma_defines_from_next(text: Seq<char>, i: int)
    requires
        0 <= i < text.len(),
    ensures
        match definition_at(text, i) {
            Some(d) => defines_from(text, i) == seq![
                (text.subrange(d.name, d.name_end), trimmed(text.subrange(d.body, d.end))),
            ] + defines_from(text, d.end),
            None => defines_from(text, i) == defines_from(text, i + 1),
        },
{
    if let Some(d) = definition_at(text, i) {
        lemma_definition_at(text, i);
        assert(defines_from(text, i) =~= seq![
            (text.subrange(d.name, d.name_end), trimmed(text.subrange(d.body, d.end))),
        ] + defines_from(text, d.end));
    }
}

/// Where no definition starts between two places, the same are found from both.
proof fn lemma_no_definitions_between(text: Seq<char>, i: int, k: int)
    requires
        0 <= i <= k <= text.len(),
        forall|j: int| i <= j < k ==> definition_at(text, j) is None,
    ensures
        defines_from(text, i) == defines_from(text, k),
    decreases k - i,
{
    if i < k {
        lemma_defines_from_next(text, i);
        lemma_no_definitions_between(text, i + 1, k);
    }
}

proof fn lemma_shift_definition_at(before: Seq<char>, text: Seq<char>, i: int)
    requires
        0 <= i < text.len(),
        before.len() > 0 ==> before.last() == '\n',
    ensures
        ({
            let n = before.len() as int;
            match definition_at(text, i) {
                Some(d) => definition_at(before + text, n + i) == Some(
                    Definition {
                        start: n + d.start,
                        name: n + d.name,
                        name_end: n + d.name_end,
                        body: n + d.body,
                        end: n + d.end,
                    },
                ),
                None => definition_at(before + text, n + i) is None,
            }
        }),
{
    reveal_strlit("%define");
    reveal_strlit("%global");
    let all = before + text;
    let n = before.len() as int;
    assert forall|k: int| 0 <= k < text.len() implies all[n + k] == #[trigger] text[k] by {}
    if i > 0 {
        assert(all[n + i - 1] == text[i - 1]);
    } else if n > 0 {
        assert(all[n - 1] == before.last());
    }
    assert(starts_line(all, n + i) == starts_line(text, i));
    if i + 7 <= text.len() {
        assert(all.subrange(n + i, n + i + 7) =~= text.subrange(i, i + 7));
        let name = skip_white_space(text, i + 7);
        let name_end = word_end(text, name);
        lemma_shift(before, text, i + 7);
        lemma_skip_white_space_bounds(text, i + 7);
        lemma_shift(before, text, name);
        lemma_word_end(text, name);
        lemma_shift(before, text, name_end);
        lemma_skip_white_space_bounds(text, name_end);
        lemma_shift_last_visible(before, text, text.len() as int);
        if let Some(d) = definition_at(text, i) {
            lemma_definition_at(text, i);
            lemma_shift(before, text, d.body);
        }
    }
}

proof fn lemma_shift_defines(before: Seq<char>, text: Seq<char>, i: int)
    requires
        0 <= i <= text.len(),
        before.len() > 0 ==> before.last() == '\n',
    ensures
        defines_from(before + text, before.len() + i) == defines_from(text, i),
    decreases text.len() - i,
{
    let all = before + text;
    let n = before.len() as int;
    if i < text.len() {
        lemma_shift_definition_at(before, text, i);
        lemma_defines_from_next(all, n + i);
        lemma_defines_from_next(text, i);
        match definition_at(text, i) {
            Some(d) => {
                lemma_definition_at(text, i);
                lemma_shift_defines(before, text, d.end);
                assert(all.subrange(n + d.name, n + d.name_end) =~= text.subrange(
                    d.name,
                    d.name_end,
                ));
                assert(all.subrange(n + d.body, n + d.end) =~= text.subrange(d.body, d.end));
            },
            None => {
                lemma_shift_defines(before, text, i + 1);
            },
        }
    } else {
        assert(defines_from(all, n + i) =~= defines_from(text, i));
    }
}

/// A line that starts with neither `%define` nor `%global` defines nothing.
pub proof fn law_other_lines_define_nothing(line: Seq<char>, rest: Seq<char>)
    requires
        forall|i: int| 0 <= i < line.len() ==> #[trigger] line[i] != '\n',
        line.len() >= 7 ==> line.subrange(0, 7) != "%define"@ && line.subrange(0, 7) != "%global"@,
    ensures
        defines_in(line + seq!['\n'] + rest) == defines_in(rest),
        defines_in(line) == Seq::<(Seq<char>, Seq<char>)>::empty(),
{
    reveal_strlit("%define");
    reveal_strlit("%global");
    let head = line + seq!['\n'];
    let text = head + rest;
    let n = line.len() as int;
    assert forall|j: int| 0 <= j < n + 1 implies definition_at(text, j) is None by {
        if j > 0 {
            assert(text[j - 1] == line[j - 1]);
        } else if n >= 7 {
            assert(text.subrange(0, 7) =~= line.subrange(0, 7));
        } else if text.len() >= 7 {
            assert(text.subrange(0, 7)[n] == text[n]);
            assert(text[n] == '\n');
        }
    }
    lemma_no_definitions_between(text, 0, n + 1);
    lemma_shift_defines(head, rest, 0);
    assert forall|j: int| 0 <= j < n implies definition_at(line, j) is None by {
        if j > 0 {
            assert(line[j - 1] != '\n');
        }
    }
    lemma_no_definitions_between(line, 0, n);
    assert(defines_in(line) =~= Seq::<(Seq<char>, Seq<char>)>::empty());
}

/// A line `%define name body` or `%global name body` defines that name with that body, in front
/// of what the lines behind it define. White space around the name and the body does not count.
pub proof fn law_definition_lines_define(
    word: Seq<char>,
    first: Seq<char>,
    name: Seq<char>,
    second: Seq<char>,
    body: Seq<char>,
    trail: Seq<char>,
    rest: Seq<char>,
)
    requires
        word == "%define"@ || word == "%global"@,
        first.len() > 0,
        forall|i: int| 0 <= i < first.len() ==> is_white_space(#[trigger] first[i]),
        name.len() > 0,
        forall|i: int| 0 <= i < name.len() ==> is_word_char(#[trigger] name[i]),
        second.len() > 0,
        forall|i: int| 0 <= i < second.len() ==> is_white_space(#[trigger] second[i]),
        body.len() > 0,
        !is_white_space(body[0]),
        !is_white_space(body.last()),
        forall|i: int| 0 <= i < body.len() ==> #[trigger] body[i] != '\n',
        forall|i: int|
            0 <= i < trail.len() ==> is_white_space(#[trigger] trail[i]) && trail[i] != '\n',
    ensures
        defines_in(word + first + name + second + body + trail + seq!['\n'] + rest) == seq![
            (name, body),
        ] + defines_in(rest),
        defines_in(word + first + name + second + body + trail) == seq![(name, body)],
{
    let line = word + first + name + second + body + trail;
    lemma_definition_line(word, first, name, second, body, trail, seq!['\n'] + rest);
    assert(line + (seq!['\n'] + rest) =~= line + seq!['\n'] + rest);
    let text = line + seq!['\n'] + rest;
    let n = line.len() as int;
    assert(text[n] == '\n');
    assert(text[n - 1] == line.last());
    if trail.len() > 0 {
        assert(line.last() == trail[trail.len() - 1]);
    } else {
        assert(line.last() == body[body.len() - 1]);
    }
    assert(definition_at(text, n) is None);
    lemma_no_definitions_between(text, n, n + 1);
    lemma_shift_defines(line + seq!['\n'], rest, 0);
    lemma_definition_line(word, first, name, second, body, trail, Seq::empty());
    assert(line + Seq::empty() =~= line);
    assert(defines_from(line, n) =~= Seq::empty());
    assert(defines_in(line) =~= seq![(name, body)]);
}

proof fn lemma_definition_line(
    word: Seq<char>,
    first: Seq<char>,
    name: Seq<char>,
    second: Seq<char>,
    body: Seq<char>,
    trail: Seq<char>,
    tail: Seq<char>,
)
    requires
        word == "%define"@ || word == "%global"@,
        first.len() > 0,
        forall|i: int| 0 <= i < first.len() ==> is_white_space(#[trigger] first[i]),
        name.len() > 0,
        forall|i: int| 0 <= i < name.len() ==> is_word_char(#[trigger] name[i]),
        second.len() > 0,
        forall|i: int| 0 <= i < second.len() ==> is_white_space(#[trigger] second[i]),
        body.len() > 0,
        !is_white_space(body[0]),
        !is_white_space(body.last()),
        forall|i: int| 0 <= i < body.len() ==> #[trigger] body[i] != '\n',
        forall|i: int|
            0 <= i < trail.len() ==> is_white_space(#[trigger] trail[i]) && trail[i] != '\n',
        tail.len() > 0 ==> tail[0] == '\n',
    ensures
        ({
            let line = word + first + name + second + body + trail;
            defines_from(line + tail, 0) == seq![(name, body)] + defines_from(
                line + tail,
                line.len() as int,
            )
        }),
{
    reveal_strlit("%define");
    reveal_strlit("%global");
    let line = word + first + name + second + body + trail;
    let text = line + tail;
    let a = 7 + first.len() as int;
    let b = a + name.len();
    let c = b + second.len();
    let d = c + body.len();
    let e = d + trail.len();
    assert(text.subrange(0, 7) =~= word);
    assert forall|k: int| 7 <= k < a implies is_white_space(#[trigger] text[k]) by {
        assert(text[k] == first[k - 7]);
    }
    assert forall|k: int| a <= k < b implies is_word_char(#[trigger] text[k]) by {
        assert(text[k] == name[k - a]);
    }
    assert forall|k: int| b <= k < c implies is_white_space(#[trigger] text[k]) by {
        assert(text[k] == second[k - b]);
    }
    assert forall|k: int| c <= k < e implies text[k] != '\n' by {
        if k < d {
            assert(text[k] == body[k - c]);
        } else {
            assert(text[k] == trail[k - d]);
        }
    }
    assert(text[a] == name[0]);
    assert(is_word_char(name[0]));
    assert(is_white_space(text[b]));
    assert(text[c] == body[0]);
    lemma_skip_white_space(text, 7, a);
    lemma_word_end_is(text, a, b);
    lemma_skip_white_space(text, b, c);
    assert(e < text.len() ==> text[e] == tail[0]);
    lemma_line_end(text, c, e);
    lemma_defines_from_next(text, 0);
    assert(text.subrange(a, b) =~= name);
    assert(text.subrange(c, e) =~= Seq::<char>::empty() + body + trail);
    law_trimming_takes_white_space_only(Seq::empty(), body, trail);
}

/// The text of a group is what the group holds, and empty where there is no such group.
pub proof fn law_texts_of_groups(groups: Seq<Option<String>>, i: int)
    ensures
        group_views(groups).len() == groups.len(),
        group_text(group_views(groups), i) == if 0 <= i < groups.len() {
            match groups[i] {
                Some(text) => text@,
                None => Seq::empty(),
            }
        } else {
            Seq::empty()
        },
{
}

/// Why a pattern was not compiled.
#[verifier::external_type_specification]
#[verifier::external_body]
pub struct ExRegexError(regex::Error);

/// Whether `Regex::new` compiles `pattern`.
pub uninterp spec fn regex_compiles(pattern: Seq<char>) -> bool;

/// The matches of `pattern` in `text`, from left to right, as `Regex::captures_iter` yields
/// them.
pub uninterp spec fn regex_captures(pattern: Seq<char>, text: Seq<char>) -> Seq<Found>;

/// `Regex::new`: whether `pattern` compiles, and if not, why. Which patterns do is named, not
/// stated.
#[verifier::external_body]
fn compile(pattern: &str) -> (r: Result<(), regex::Error>)
    ensures
        r is Ok <==> regex_compiles(pattern@),
{
    Regex::new(pattern).map(|_| ())
}

/// `Regex::is_match` of a pattern that compiles: whether there is a match anywhere in `text`.
#[verifier::external_body]
fn is_match(pattern: &str, text: &str) -> (r: Result<bool, regex::Error>)
    ensures
        r is Ok <==> regex_compiles(pattern@),
        r matches Ok(found) ==> found == (regex_captures(pattern@, text@).len() > 0),
{
    Ok(Regex::new(pattern)?.is_match(text))
}

/// `Regex::captures_iter` of a pattern that compiles: the groups of the successive matches in
/// `text`, none of which starts inside another.
///
/// Of [`MACRO_PATTERN`] and [`DEFINE_PATTERN`] it is stated what these matches are. Every
/// repetition takes as much as it can. `\w` holds no white space, and of ASCII the letters,
/// the digits and the underscore; what it holds beyond ASCII is named.
#[verifier::external_body]
fn captures_iter(pattern: &str, text: &str) -> (r: Result<Vec<Vec<Option<String>>>, regex::Error>)
    ensures
        r is Ok <==> regex_compiles(pattern@),
        r matches Ok(found) ==> found@.map_values(|g: Vec<Option<String>>| group_views(g@))
            == regex_captures(pattern@, text@).map_values(|f: Found| f.groups),
        pattern@ == MACRO_PATTERN@ ==> (r matches Ok(found) ==> found@.map_values(
            |g: Vec<Option<String>>| group_views(g@),
        ) == references_from(text@, 0).map_values(
            |m: Reference| reference_groups(text@, m),
        )),
        pattern@ == DEFINE_PATTERN@ ==> (r matches Ok(found) ==> found@.map_values(
            |g: Vec<Option<String>>| group_views(g@),
        ) == definitions_from(text@, 0).map_values(
            |m: Definition| definition_groups(text@, m),
        )),
        pattern@ == MACRO_PATTERN@ || pattern@ == DEFINE_PATTERN@ ==> (r matches Ok(found)
            ==> forall|i: int, k: int|
            #![trigger group_text(group_views(found@[i]@), 1)[k]]
            0 <= i < found@.len() && 0 <= k < group_text(group_views(found@[i]@), 1).len()
                && group_text(group_views(found@[i]@), 1)[k] > '\u{7f}' ==> regex_word(
                group_text(group_views(found@[i]@), 1)[k],
            )),
{
    let re = Regex::new(pattern)?;
    let found = re.captures_iter(text);
    Ok(found.map(|c| c.iter().map(|g| g.map(|m| m.as_str().to_string())).collect()).collect())
}

/// `Regex::captures` of a pattern that compiles: the groups of the first match in `text`.
///
/// Of [`VERSION_PATTERN`] it is stated what that match is. In multi-line mode `^` and `$`
/// stand at the borders of lines, `.` is any character but a newline, and `\s` is white
/// space, newlines included. Both repetitions take as much as they can; where nothing but
/// white space is left behind the label, the first one gives back the least that leaves the
/// second one a character.
#[verifier::external_body]
fn captures(pattern: &str, text: &str) -> (r: Result<Option<Vec<Option<String>>>, regex::Error>)
    ensures
        r is Ok <==> regex_compiles(pattern@),
        r matches Ok(Some(groups)) ==> regex_captures(pattern@, text@).len() > 0 && group_views(
            groups@,
        ) == regex_captures(pattern@, text@)[0].groups,
        r matches Ok(None) ==> regex_captures(pattern@, text@).len() == 0,
        r is Ok && pattern@ == VERSION_PATTERN@ ==> match version_field(text@) {
            Some((start, value, end)) => r matches Ok(Some(groups)) && group_views(groups@) == seq![
                Some(text@.subrange(start, end)),
                Some(text@.subrange(value, end)),
            ],
            None => r matches Ok(None),
        },
{
    let found = Regex::new(pattern)?.captures(text);
    Ok(found.map(|c| c.iter().map(|g| g.map(|m| m.as_str().to_string())).collect()))
}

/// `Regex::replace` of a pattern that compiles: `text` with [`version_line`] of group 1 for
/// its first match.
///
/// Of [`VERSION_SPACE_PATTERN`] it is stated what comes out: that pattern matches where
/// [`VERSION_PATTERN`] does, and its group 1 is what stands between label and value.
#[verifier::external_body]
fn replace_version_line(pattern: &str, text: &str, new: &str) -> (r: Result<String, regex::Error>)
    ensures
        r is Ok <==> regex_compiles(pattern@),
        r matches Ok(out) ==> out@ == ({
            let all = regex_captures(pattern@, text@);
            if all.len() > 0 {
                text@.take(all[0].start) + (VERSION_LABEL@ + group_text(all[0].groups, 1) + new@)
                    + text@.skip(all[0].end)
            } else {
                text@
            }
        }),
        pattern@ == VERSION_SPACE_PATTERN@ ==> (r matches Ok(out) ==> out@ == with_version(
            text@,
            new@,
        )),
{
    let line = |c: &regex::Captures| version_line(c.get(1).map(|m| m.as_str()), new);
    Ok(Regex::new(pattern)?.replace(text, line).into_owned())
}

/// The `Version` field with `space` before the value `new`.
pub fn version_line(space: Option<&str>, new: &str) -> (r: String)
    ensures
        r@ == VERSION_LABEL@ + (match space {
            Some(s) => s@,
            None => Seq::empty(),
        }) + new@,
{
    let mut line = VERSION_LABEL.to_string();
    if let Some(s) = space {
        line.append(s);
    } else {
        assert(VERSION_LABEL@ + Seq::<char>::empty() =~= VERSION_LABEL@);
    }
    line.append(new);
    line
}

/// The text of group `i`, empty where there is none.
fn group(groups: &Vec<Option<String>>, i: usize) -> (r: String)
    ensures
        r@ == group_text(group_views(groups@), i as int),
{
    if i < groups.len() {
        if let Some(text) = &groups[i] {
            return text.clone();
        }
    }
    String::new()
}

/// The patterns for spec files, all of which compile.
#[derive(Debug)]
pub struct SpecPatterns {
    version: &'static str,
    version_space: &'static str,
    define: &'static str,
    macro_ref: &'static str,
}

impl SpecPatterns {
    #[verifier::type_invariant]
    spec fn all_compile(self) -> bool {
        &&& self.version@ == VERSION_PATTERN@
        &&& self.version_space@ == VERSION_SPACE_PATTERN@
        &&& self.define@ == DEFINE_PATTERN@
        &&& self.macro_ref@ == MACRO_PATTERN@
        &&& regex_compiles(VERSION_PATTERN@)
        &&& regex_compiles(VERSION_SPACE_PATTERN@)
        &&& regex_compiles(DEFINE_PATTERN@)
        &&& regex_compiles(MACRO_PATTERN@)
    }

    /// The patterns, where all of them compile.
    pub fn new() -> (r: Result<SpecPatterns, regex::Error>)
        ensures
            r is Ok <==> {
                &&& regex_compiles(VERSION_PATTERN@)
                &&& regex_compiles(VERSION_SPACE_PATTERN@)
                &&& regex_compiles(DEFINE_PATTERN@)
                &&& regex_compiles(MACRO_PATTERN@)
            },
    {
        compile(VERSION_PATTERN)?;
        compile(VERSION_SPACE_PATTERN)?;
        compile(DEFINE_PATTERN)?;
        compile(MACRO_PATTERN)?;
        Ok(
            SpecPatterns {
                version: VERSION_PATTERN,
                version_space: VERSION_SPACE_PATTERN,
                define: DEFINE_PATTERN,
                macro_ref: MACRO_PATTERN,
            },
        )
    }

    /// The value of the `Version` field of a spec file, without the white space around it.
    pub fn version(&self, content: &str) -> (r: Option<String>)
        ensures
            optional_text(r) == version_in(content@),
    {
        proof {
            use_type_invariant(self);
        }
        match captures(self.version, content) {
            Ok(Some(groups)) => Some(group(&groups, 1).as_str().trim().to_string()),
            _ => None,
        }
    }

    /// A spec file with `new` for the value of its `Version` field.
    pub fn replace_version(&self, content: &str, new: &str) -> (r: String)
        ensures
            r@ == with_version(content@, new@),
    {
        proof {
            use_type_invariant(self);
        }
        match replace_version_line(self.version_space, content, new) {
            Ok(replaced) => replaced,
            Err(_) => content.to_string(),
        }
    }

    /// The macro definitions of a spec file, from top to bottom.
    pub fn definitions(&self, content: &str) -> (r: Vec<(String, String)>)
        ensures
            pair_texts(r@) == defines_in(content@),
    {
        proof {
            use_type_invariant(self);
        }
        match captures_iter(self.define, content) {
            Ok(found) => {
                let out = read_definitions(&found);
                proof {
                    let all = definitions_from(content@, 0);
                    let views = found@.map_values(|g: Vec<Option<String>>| group_views(g@));
                    assert(views.len() == all.len());
                    assert forall|i: int| 0 <= i < all.len() implies pair_texts(out@)[i]
                        == defines_in(content@)[i] by {
                        assert(views[i] == definition_groups(content@, all[i]));
                    }
                    assert(pair_texts(out@) =~= defines_in(content@));
                }
                out
            },
            Err(_) => Vec::new(),
        }
    }

    /// The names of the macros that `text` refers to, from left to right.
    pub fn macro_names(&self, text: &str) -> (r: Vec<String>)
        ensures
            texts(r@) == macros_in(text@),
    {
        proof {
            use_type_invariant(self);
        }
        match captures_iter(self.macro_ref, text) {
            Ok(found) => {
                let out = read_names(&found);
                proof {
                    let all = references_from(text@, 0);
                    let views = found@.map_values(|g: Vec<Option<String>>| group_views(g@));
                    assert(views.len() == all.len());
                    assert forall|i: int| 0 <= i < all.len() implies texts(out@)[i] == macros_in(
                        text@,
                    )[i] by {
                        assert(views[i] == reference_groups(text@, all[i]));
                    }
                    assert(texts(out@) =~= macros_in(text@));
                }
                out
            },
            Err(_) => Vec::new(),
        }
    }
}

/// A pattern for the names of directories, which compiles.
#[derive(Debug)]
pub struct NameFilter {
    pattern: String,
}

impl View for NameFilter {
    type V = Seq<char>;

    closed spec fn view(&self) -> Seq<char> {
        self.pattern@
    }
}

impl NameFilter {
    #[verifier::type_invariant]
    spec fn compiles(self) -> bool {
        regex_compiles(self.pattern@)
    }

    /// Takes a pattern that compiles.
    pub fn new(pattern: &str) -> (r: Result<NameFilter, regex::Error>)
        ensures
            match r {
                Ok(filter) => regex_compiles(pattern@) && filter@ == pattern@,
                Err(_) => !regex_compiles(pattern@),
            },
    {
        compile(pattern)?;
        Ok(NameFilter { pattern: pattern.to_string() })
    }

    /// Whether the pattern matches somewhere in `name`.
    pub fn accepts(&self, name: &str) -> (r: bool)
        ensures
            r == (regex_captures(self@, name@).len() > 0),
    {
        proof {
            use_type_invariant(self);
        }
        match is_match(self.pattern.as_str(), name) {
            Ok(found) => found,
            Err(_) => false,
        }
    }
}

/// The definitions in the groups of some matches: name and trimmed body.
pub fn read_definitions(found: &Vec<Vec<Option<String>>>) -> (r: Vec<(String, String)>)
    ensures
        r@.len() == found@.len(),
        forall|i: int|
            0 <= i < r@.len() ==> (#[trigger] r@[i]).0@ == group_text(
                group_views(found@[i]@),
                1,
            ) && r@[i].1@ == trimmed(group_text(group_views(found@[i]@), 2)),
{
    let mut out: Vec<(String, String)> = Vec::new();
    let n: usize = found.len();
    let mut i: usize = 0;
    while i < n
        invariant
            i <= n,
            n == found@.len(),
            out@.len() == i,
            forall|k: int|
                0 <= k < i ==> (#[trigger] out@[k]).0@ == group_text(
                    group_views(found@[k]@),
                    1,
                ) && out@[k].1@ == trimmed(group_text(group_views(found@[k]@), 2)),
        decreases n - i,
    {
        let name = group(&found[i], 1);
        let body = group(&found[i], 2).as_str().trim().to_string();
        out.push((name, body));
        i += 1;
    }
    out
}

/// The names in the groups of some matches.
pub fn read_names(found: &Vec<Vec<Option<String>>>) -> (r: Vec<String>)
    ensures
        r@.len() == found@.len(),
        forall|i: int|
            0 <= i < r@.len() ==> (#[trigger] r@[i])@ == group_text(
                group_views(found@[i]@),
                1,
            ),
{
    let mut out: Vec<String> = Vec::new();
    let n: usize = found.len();
    let mut i: usize = 0;
    while i < n
        invariant
            i <= n,
            n == found@.len(),
            out@.len() == i,
            forall|k: int|
                0 <= k < i ==> (#[trigger] out@[k])@ == group_text(
                    group_views(found@[k]@),
                    1,
                ),
        decreases n - i,
    {
        out.push(group(&found[i], 1));
        i += 1;
    }
    out
}

} // verus!
