//! The version that a spec file states, and how it is found out with `rpmspec`.
//!
//! `rpmspec` is asked about the spec file itself first. Where it cannot answer, the `Version`
//! field is read from the text. A field that refers to macros in braces, as `%{name}` does, is
//! put, with the definitions that it needs, into a minimal spec file about which `rpmspec` is
//! asked a second time. A field that refers to a macro without braces, as `%name` does, is
//! not followed; in the end it is refused.

use crate::context::{
    distinct_keys, lemma_pairs_map_domain, lemma_pairs_map_value, pair_texts, pairs_map, Context,
};
use crate::macros::{
    bodies, edges, graph, law_reachable_is_least, law_references_are_reachable,
    law_seeds_are_reachable, needed_bodies, needed_macros, refers, MacroDef, NIL,
};
use crate::patterns::{
    defines_in, is_word_char, law_definition_lines_define, law_definitions_are_lines,
    law_other_lines_define_nothing, law_written_version_is_read, lemma_last_visible, lemma_line_end,
    lemma_skip_white_space, lemma_trimmed_keeps_lines, lemma_version_field,
    lemma_version_field_start, macros_in, starts_line, version_field, version_in,
    version_label_at, with_version, SpecPatterns, VERSION_LABEL,
};
use crate::text::{
    chain, has_char, has_text, is_trimmed, is_white_space, law_trimming_takes_white_space_only,
    lemma_trimmed, lemma_trimmed_is_trimmed, occurs, occurs_at, optional_text, texts, trimmed,
};
use vstd::prelude::*;
use vstd::utf8::{decode_utf8, valid_utf8};

verus! {

/// What a reference to a macro in braces starts with. Only such references are followed.
pub const MACRO_OPEN: &'static str = "%{";

/// What every reference to a macro starts with, be it in braces or not.
pub const MACRO_MARK: char = '%';

/// The key under which the table of a spec file holds its version.
pub const VERSION_KEY: &'static str = "VER";

/// The name of the minimal spec file, beside the spec file it stands for.
pub const MINIMAL_SPEC_NAME: &'static str = ".findupdate-tmp.spec";

/// The program that expands spec files.
pub const QUERY_PROGRAM: &'static str = "rpmspec";

/// Why the version of a spec file could not be found out.
#[derive(Debug)]
pub enum SpecError {
    /// The path of the spec file is not text.
    InvalidPath,
    /// The spec file could not be read, and why.
    Read(String),
    /// The minimal spec file could not be written, and why.
    Write(String),
    /// `rpmspec` has printed these bytes, which are not UTF-8.
    NotUtf8(Vec<u8>),
    /// The spec file has no `Version` field.
    NoVersion,
    /// `rpmspec` has printed nothing.
    EmptyVersion,
    /// `rpmspec` has failed, and what it printed to its error output.
    QueryFailed(String),
    /// `rpmspec` could not be run, and why.
    QueryError(String),
    /// The version still holds macros.
    UnresolvedMacros(String),
}

/// The view of a [`SpecError`].
pub enum SpecErrorView {
    InvalidPath,
    Read(Seq<char>),
    Write(Seq<char>),
    NotUtf8(Seq<u8>),
    NoVersion,
    EmptyVersion,
    QueryFailed(Seq<char>),
    QueryError(Seq<char>),
    UnresolvedMacros(Seq<char>),
}

impl View for SpecError {
    type V = SpecErrorView;

    open spec fn view(&self) -> SpecErrorView {
        match self {
            SpecError::InvalidPath => SpecErrorView::InvalidPath,
            SpecError::Read(why) => SpecErrorView::Read(why@),
            SpecError::Write(why) => SpecErrorView::Write(why@),
            SpecError::NotUtf8(bytes) => SpecErrorView::NotUtf8(bytes@),
            SpecError::NoVersion => SpecErrorView::NoVersion,
            SpecError::EmptyVersion => SpecErrorView::EmptyVersion,
            SpecError::QueryFailed(why) => SpecErrorView::QueryFailed(why@),
            SpecError::QueryError(why) => SpecErrorView::QueryError(why@),
            SpecError::UnresolvedMacros(version) => SpecErrorView::UnresolvedMacros(version@),
        }
    }
}

/// An error as text. Bytes that are not UTF-8 have none here: the standard library's own
/// error says where they go wrong.
pub open spec fn error_text(error: SpecErrorView) -> Option<Seq<char>> {
    match error {
        SpecErrorView::InvalidPath => Some("Invalid spec path"@),
        SpecErrorView::Read(why) => Some(why),
        SpecErrorView::Write(why) => Some(why),
        SpecErrorView::NotUtf8(_) => None,
        SpecErrorView::NoVersion => Some("No Version field in spec"@),
        SpecErrorView::EmptyVersion => Some("rpmspec returned empty version"@),
        SpecErrorView::QueryFailed(why) => Some("rpmspec failed: "@ + why),
        SpecErrorView::QueryError(why) => Some("rpmspec error: "@ + why),
        SpecErrorView::UnresolvedMacros(version) => Some(
            "Unresolved macros in version: "@ + version,
        ),
    }
}

impl SpecError {
    /// The error as text.
    pub fn message(&self) -> (r: Option<String>)
        ensures
            optional_text(r) == error_text(self@),
    {
        match self {
            SpecError::InvalidPath => Some("Invalid spec path".to_string()),
            SpecError::Read(why) => Some(why.clone()),
            SpecError::Write(why) => Some(why.clone()),
            SpecError::NotUtf8(_) => None,
            SpecError::NoVersion => Some("No Version field in spec".to_string()),
            SpecError::EmptyVersion => Some("rpmspec returned empty version".to_string()),
            SpecError::QueryFailed(why) => Some(chain("rpmspec failed: ", why.as_str())),
            SpecError::QueryError(why) => Some(chain("rpmspec error: ", why.as_str())),
            SpecError::UnresolvedMacros(version) => Some(
                chain("Unresolved macros in version: ", version.as_str()),
            ),
        }
    }
}

/// The definitions in `content` on which `version` depends.
pub open spec fn needed_in(
    content: Seq<char>,
    version: Seq<char>,
) -> Map<Seq<char>, Seq<char>> {
    let table = pairs_map(defines_in(content));
    needed_bodies(
        macros_in(version),
        table,
        table.map_values(|body: Seq<char>| macros_in(body)),
    )
}

/// Some definitions as lines of a spec file.
pub open spec fn define_lines(defines: Seq<(Seq<char>, Seq<char>)>) -> Seq<char>
    decreases defines.len(),
{
    if defines.len() == 0 {
        Seq::empty()
    } else {
        define_lines(defines.drop_last()) + "%global "@ + defines.last().0 + " "@
            + defines.last().1 + "\n"@
    }
}

/// What stands in a minimal spec file between the definitions and the version.
pub const MINIMAL_HEAD: &'static str = "Name: dummy\nVersion: ";

/// What stands in a minimal spec file behind the version.
pub const MINIMAL_TAIL: &'static str =
    "\nRelease: 1\nSummary: dummy\nLicense: MIT\n%description\ndummy\n";

/// The spec file that holds the definitions first, then the version, and nothing more than
/// `rpmspec` asks for.
pub open spec fn minimal_text(
    defines: Seq<(Seq<char>, Seq<char>)>,
    version: Seq<char>,
) -> Seq<char> {
    define_lines(defines) + MINIMAL_HEAD@ + version + MINIMAL_TAIL@
}

/// `text` is a minimal spec file for `version`: it holds what `content` defines and `version`
/// depends on, each macro once, in some order.
pub open spec fn is_minimal_spec(
    content: Seq<char>,
    version: Seq<char>,
    text: Seq<char>,
) -> bool {
    exists|defines: Seq<(Seq<char>, Seq<char>)>|
        {
            &&& distinct_keys(defines)
            &&& pairs_map(defines) == needed_in(content, version)
            &&& text == #[trigger] minimal_text(defines, version)
        }
}

/// A minimal spec file defines what its version refers to, and what its own definitions refer
/// to, as far as the spec file that it stands for defines it, and with the same bodies; `nil`
/// alone is never defined.
pub proof fn law_minimal_spec_is_complete(
    content: Seq<char>,
    version: Seq<char>,
    via: Seq<char>,
    name: Seq<char>,
)
    requires
        name != NIL@,
        pairs_map(defines_in(content)).dom().contains(name),
        macros_in(version).contains(name) || (needed_in(content, version).dom().contains(via)
            && macros_in(needed_in(content, version)[via]).contains(name)),
    ensures
        needed_in(content, version).dom().contains(name),
        needed_in(content, version)[name] == pairs_map(defines_in(content))[name],
{
    let table = pairs_map(defines_in(content));
    let refs = table.map_values(|body: Seq<char>| macros_in(body));
    if macros_in(version).contains(name) {
        law_seeds_are_reachable(macros_in(version), refs, name);
    } else {
        assert(refers(refs, via, name));
        law_references_are_reachable(macros_in(version), refs, via, name);
    }
}

/// A minimal spec file defines nothing but what the spec file that it stands for defines and
/// its version depends on: a set of names that holds what the version refers to, and what the
/// definitions of its own members refer to, holds every name that is defined.
pub proof fn law_minimal_spec_is_minimal(
    content: Seq<char>,
    version: Seq<char>,
    names: Set<Seq<char>>,
    name: Seq<char>,
)
    requires
        forall|n: Seq<char>| #[trigger]
            macros_in(version).contains(n) && n != NIL@ ==> names.contains(n),
        forall|via: Seq<char>, n: Seq<char>|
            names.contains(via) && pairs_map(defines_in(content)).dom().contains(via)
                && #[trigger] macros_in(pairs_map(defines_in(content))[via]).contains(n) && n
                != NIL@ ==> names.contains(n),
        needed_in(content, version).dom().contains(name),
    ensures
        names.contains(name),
        name != NIL@,
        pairs_map(defines_in(content)).dom().contains(name),
        needed_in(content, version)[name] == pairs_map(defines_in(content))[name],
{
    let table = pairs_map(defines_in(content));
    let refs = table.map_values(|body: Seq<char>| macros_in(body));
    assert forall|via: Seq<char>, n: Seq<char>| #[trigger]
        refers(refs, via, n) && names.contains(via) && n != NIL@ implies names.contains(n) by {
        assert(refs[via] == macros_in(table[via]));
    }
    law_reachable_is_least(macros_in(version), refs, names, name);
}

/// The names and bodies of some definitions hold no newline.
pub open spec fn on_one_line(defines: Seq<(Seq<char>, Seq<char>)>) -> bool {
    forall|i: int|
        0 <= i < defines.len() ==> !(#[trigger] defines[i]).0.contains('\n')
            && !defines[i].1.contains('\n')
}

/// Every line of definitions starts with a percent sign and is ended.
proof fn lemma_define_lines(defines: Seq<(Seq<char>, Seq<char>)>)
    requires
        on_one_line(defines),
    ensures
        ({
            let lines = define_lines(defines);
            &&& lines.len() > 0 ==> lines.last() == '\n'
            &&& forall|j: int|
                0 <= j < lines.len() && starts_line(lines, j) ==> #[trigger] lines[j] == '%'
        }),
    decreases defines.len(),
{
    if defines.len() > 0 {
        reveal_strlit("%global ");
        reveal_strlit(" ");
        reveal_strlit("\n");
        let front = defines.drop_last();
        assert(on_one_line(front)) by {
            assert forall|i: int| 0 <= i < front.len() implies !(
            #[trigger] front[i]).0.contains('\n') && !front[i].1.contains('\n') by {
                assert(front[i] == defines[i]);
            }
        }
        lemma_define_lines(front);
        let before = define_lines(front);
        let (name, body) = defines.last();
        assert(defines[defines.len() - 1] == (name, body));
        let line = "%global "@ + name + " "@ + body + "\n"@;
        let lines = define_lines(defines);
        let n = before.len() as int;
        assert(lines =~= before + line);
        assert forall|k: int| 0 <= k < line.len() - 1 implies #[trigger] line[k] != '\n' by {
            let a = 8 + name.len();
            if 8 <= k < a {
                assert(line[k] == name[k - 8]);
                assert(name.contains(name[k - 8]));
            } else if a + 1 <= k {
                assert(line[k] == body[k - a - 1]);
                assert(body.contains(body[k - a - 1]));
            }
        }
        assert forall|j: int|
            0 <= j < lines.len() && starts_line(lines, j) implies #[trigger] lines[j] == '%' by {
            if j < n {
                assert(lines[j] == before[j]);
                if j > 0 {
                    assert(lines[j - 1] == before[j - 1]);
                }
                assert(starts_line(before, j));
            } else if j > n {
                assert(lines[j - 1] == line[j - 1 - n]);
            } else {
                assert(lines[j] == line[0]);
            }
        }
        assert(lines.last() == line.last());
    }
}

/// The text before the version ends in a line that is the label of the `Version` field and a
/// space, and the text behind the version starts a new line.
proof fn lemma_minimal_frame()
    ensures
        MINIMAL_HEAD@.len() == 21,
        MINIMAL_HEAD@[0] == 'N',
        forall|k: int| 0 <= k < 11 ==> #[trigger] MINIMAL_HEAD@[k] != '\n',
        MINIMAL_HEAD@[11] == '\n',
        MINIMAL_HEAD@.subrange(12, 20) == VERSION_LABEL@,
        MINIMAL_HEAD@[20] == ' ',
        MINIMAL_TAIL@.len() > 0,
        MINIMAL_TAIL@[0] == '\n',
        VERSION_LABEL@.len() == 8,
        VERSION_LABEL@[0] == 'V',
{
    reveal_strlit("Name: dummy\nVersion: ");
    reveal_strlit("\nRelease: 1\nSummary: dummy\nLicense: MIT\n%description\ndummy\n");
    reveal_strlit("Version:");
    assert(MINIMAL_HEAD@.subrange(12, 20) =~= VERSION_LABEL@);
}

/// A minimal spec file states the version for which it was made. This holds of a version that
/// is not empty, holds no newline and has no white space around it, and of definitions that
/// hold no newline.
pub proof fn law_minimal_spec_states_version(
    defines: Seq<(Seq<char>, Seq<char>)>,
    version: Seq<char>,
)
    requires
        on_one_line(defines),
        version.len() > 0,
        is_trimmed(version),
        !version.contains('\n'),
    ensures
        version_in(minimal_text(defines, version)) == Some(version),
{
    lemma_minimal_frame();
    lemma_define_lines(defines);
    let lines = define_lines(defines);
    let n = lines.len() as int;
    let text = minimal_text(defines, version);
    let start = n + 12;
    let value = start + 9;
    let end = value + version.len();
    let label = VERSION_LABEL@;
    assert forall|k: int| n <= k < value implies #[trigger] text[k] == MINIMAL_HEAD@[k - n] by {}
    assert forall|k: int| value <= k < end implies #[trigger] text[k] == version[k - value] by {}
    assert(text[end] == MINIMAL_TAIL@[0]);
    assert(text.subrange(start, start + label.len()) =~= MINIMAL_HEAD@.subrange(12, 20));
    assert(text[value] == version[0]);
    lemma_last_visible(text, text.len() as int);
    assert(version.contains(version[0]));
    assert(version_label_at(text, start));
    assert forall|j: int| j < start implies !version_label_at(text, j) by {
        if version_label_at(text, j) {
            assert(text.subrange(j, j + label.len())[0] == text[j]);
            if j < n {
                assert(text[j] == lines[j]);
                if j > 0 {
                    assert(text[j - 1] == lines[j - 1]);
                }
                assert(starts_line(lines, j));
            } else if j > n {
                assert(text[j - 1] == MINIMAL_HEAD@[j - 1 - n]);
            } else {
                assert(text[j] == MINIMAL_HEAD@[0]);
            }
        }
    }
    lemma_version_field_start(text, start);
    assert(text[start + 8] == MINIMAL_HEAD@[20]);
    lemma_skip_white_space(text, start + label.len(), value);
    assert forall|k: int| value <= k < end implies text[k] != '\n' by {
        assert(version.contains(version[k - value]));
    }
    lemma_line_end(text, value, end);
    assert(text.subrange(value, end) =~= version);
    lemma_trimmed(version);
}

/// A value of a table comes from one of its pairs.
proof fn lemma_pairs_map_source(pairs: Seq<(Seq<char>, Seq<char>)>, name: Seq<char>)
    requires
        pairs_map(pairs).dom().contains(name),
    ensures
        pairs.contains((name, pairs_map(pairs)[name])),
    decreases pairs.len(),
{
    if pairs.len() > 0 {
        let front = pairs.drop_last();
        if pairs.last().0 == name {
            assert(pairs[pairs.len() - 1] == (name, pairs_map(pairs)[name]));
        } else {
            lemma_pairs_map_source(front, name);
            let i = choose|i: int|
                0 <= i < front.len() && front[i] == (name, pairs_map(front)[name]);
            assert(pairs[i] == front[i]);
        }
    }
}

/// What is asked of `rpmspec` the second time is what the spec file states: every minimal spec
/// file for a `Version` field that refers to macros in braces states that same version.
pub proof fn law_second_query_asks_for_the_version(
    content: Seq<char>,
    version: Seq<char>,
    text: Seq<char>,
)
    requires
        version_in(content) == Some(version),
        occurs(version, MACRO_OPEN@),
        is_minimal_spec(content, version, text),
    ensures
        version_in(text) == Some(version),
{
    reveal_strlit("%{");
    let (start, value, end) = version_field(content)->0;
    lemma_version_field(content);
    let line = content.subrange(value, end);
    lemma_trimmed_is_trimmed(line);
    assert forall|k: int| 0 <= k < line.len() implies #[trigger] line[k] != '\n' by {
        assert(line[k] == content[value + k]);
    }
    lemma_trimmed_keeps_lines(line);
    let found = defines_in(content);
    let defines = choose|defines: Seq<(Seq<char>, Seq<char>)>|
        {
            &&& distinct_keys(defines)
            &&& pairs_map(defines) == needed_in(content, version)
            &&& text == #[trigger] minimal_text(defines, version)
        };
    assert forall|i: int| 0 <= i < defines.len() implies !(#[trigger] defines[i]).0.contains('\n')
        && !defines[i].1.contains('\n') by {
        let (name, body) = defines[i];
        lemma_pairs_map_value(defines, i);
        assert(pairs_map(found).dom().contains(name));
        assert(pairs_map(found)[name] == body);
        lemma_pairs_map_source(found, name);
        let k = choose|k: int| 0 <= k < found.len() && found[k] == (name, body);
        law_definitions_are_lines(content, k);
        assert forall|j: int| 0 <= j < name.len() implies name[j] != '\n' by {
            assert(is_word_char(name[j]));
        }
    }
    law_minimal_spec_states_version(defines, version);
}

/// Definitions are written one behind the other, each on a line of its own with its name and
/// its whole body, and before everything else in a minimal spec file.
pub proof fn law_minimal_spec_is_written_out(
    a: Seq<(Seq<char>, Seq<char>)>,
    b: Seq<(Seq<char>, Seq<char>)>,
    name: Seq<char>,
    body: Seq<char>,
    version: Seq<char>,
)
    ensures
        define_lines(Seq::empty()) == Seq::<char>::empty(),
        define_lines(seq![(name, body)]) == "%global "@ + name + " "@ + body + "\n"@,
        define_lines(a + b) == define_lines(a) + define_lines(b),
        minimal_text(a, version) == define_lines(a) + "Name: dummy\nVersion: "@ + version
            + "\nRelease: 1\nSummary: dummy\nLicense: MIT\n%description\ndummy\n"@,
    decreases b.len(),
{
    reveal_with_fuel(define_lines, 2);
    let one = seq![(name, body)];
    assert(one.drop_last() =~= Seq::empty());
    assert(define_lines(one) =~= "%global "@ + name + " "@ + body + "\n"@);
    if b.len() > 0 {
        law_minimal_spec_is_written_out(a, b.drop_last(), name, body, version);
        assert((a + b).drop_last() =~= a + b.drop_last());
        assert((a + b).last() == b.last());
        assert(define_lines(a + b) =~= define_lines(a) + define_lines(b));
    } else {
        assert(a + b =~= a);
        assert(define_lines(a + b) =~= define_lines(a) + define_lines(b));
    }
}

/// Definitions that are written out are the ones that are read, in front of what stands behind
/// them. This holds of names that are words, and of bodies that are not empty, hold no newline
/// and have no white space around them.
pub proof fn law_written_definitions_are_read(
    defines: Seq<(Seq<char>, Seq<char>)>,
    rest: Seq<char>,
)
    requires
        forall|i: int|
            0 <= i < defines.len() ==> (#[trigger] defines[i]).0.len() > 0 && defines[i].1.len()
                > 0 && !is_white_space(defines[i].1[0]) && !is_white_space(defines[i].1.last())
                && !defines[i].1.contains('\n'),
        forall|i: int, k: int|
            0 <= i < defines.len() && 0 <= k < defines[i].0.len() ==> is_word_char(
                #[trigger] defines[i].0[k],
            ),
    ensures
        defines_in(define_lines(defines) + rest) == defines + defines_in(rest),
    decreases defines.len(),
{
    if defines.len() > 0 {
        let front = defines.drop_last();
        let (name, body) = defines.last();
        let last = defines.len() - 1;
        assert(defines[last] == (name, body));
        assert forall|i: int|
            0 <= i < front.len() implies (#[trigger] front[i]).0.len() > 0 && front[i].1.len() > 0
            && !is_white_space(front[i].1[0]) && !is_white_space(front[i].1.last())
            && !front[i].1.contains('\n') by {
            assert(front[i] == defines[i]);
        }
        assert forall|i: int, k: int|
            0 <= i < front.len() && 0 <= k < front[i].0.len() implies is_word_char(
            #[trigger] front[i].0[k],
        ) by {
            assert(defines[i].0[k] == front[i].0[k]);
        }
        reveal_strlit("%global ");
        reveal_strlit("%global");
        reveal_strlit(" ");
        reveal_strlit("\n");
        let line = "%global"@ + seq![' '] + name + seq![' '] + body + Seq::<char>::empty()
            + seq!['\n'];
        law_written_definitions_are_read(front, line + rest);
        assert forall|k: int| 0 <= k < name.len() implies is_word_char(#[trigger] name[k]) by {
            assert(defines[last].0[k] == name[k]);
        }
        assert forall|k: int| 0 <= k < body.len() implies #[trigger] body[k] != '\n' by {
            assert(body.contains(body[k]));
        }
        law_definition_lines_define(
            "%global"@,
            seq![' '],
            name,
            seq![' '],
            body,
            Seq::empty(),
            rest,
        );
        assert(define_lines(defines) + rest =~= define_lines(front) + (line + rest));
        assert(defines + defines_in(rest) =~= front + (seq![(name, body)] + defines_in(rest)));
    } else {
        assert(define_lines(defines) + rest =~= rest);
        assert(defines + defines_in(rest) =~= defines_in(rest));
    }
}

/// The lines of a minimal spec file behind its definitions define nothing.
proof fn lemma_frame_defines_nothing(version: Seq<char>)
    requires
        !version.contains('\n'),
    ensures
        defines_in(MINIMAL_HEAD@ + version + MINIMAL_TAIL@) == Seq::<
            (Seq<char>, Seq<char>),
        >::empty(),
{
    let newline = seq!['\n'];
    reveal_strlit("%define");
    reveal_strlit("%global");
    lemma_tail_defines_nothing();
    let tail = MINIMAL_TAIL@.skip(1);
    lemma_minimal_frame();
    reveal_strlit("Version:");
    let field = "Version:"@ + seq![' '] + version;
    assert forall|i: int| 0 <= i < field.len() implies #[trigger] field[i] != '\n' by {
        if i >= 9 {
            assert(field[i] == version[i - 9]);
            assert(version.contains(version[i - 9]));
        }
    }
    assert(field.subrange(0, 7)[0] == 'V');
    law_other_lines_define_nothing(field, tail);
    let name = MINIMAL_HEAD@.subrange(0, 11);
    assert forall|i: int| 0 <= i < name.len() implies #[trigger] name[i] != '\n' by {
        assert(name[i] == MINIMAL_HEAD@[i]);
    }
    assert(name.subrange(0, 7)[0] == MINIMAL_HEAD@[0]);
    law_other_lines_define_nothing(name, field + newline + tail);
    let text = MINIMAL_HEAD@ + version + MINIMAL_TAIL@;
    assert(MINIMAL_HEAD@ =~= name + newline + "Version:"@ + seq![' ']) by {
        assert forall|k: int| 12 <= k < 20 implies MINIMAL_HEAD@[k] == #[trigger] "Version:"@[k
            - 12] by {
            assert(MINIMAL_HEAD@.subrange(12, 20)[k - 12] == MINIMAL_HEAD@[k]);
        }
    }
    assert(MINIMAL_TAIL@ =~= newline + tail);
    assert(text =~= name + newline + (field + newline + tail));
}

proof fn lemma_tail_defines_nothing()
    ensures
        defines_in(MINIMAL_TAIL@.skip(1)) == Seq::<(Seq<char>, Seq<char>)>::empty(),
{
    reveal_strlit("\nRelease: 1\nSummary: dummy\nLicense: MIT\n%description\ndummy\n");
    reveal_strlit("%define");
    reveal_strlit("%global");
    let tail = MINIMAL_TAIL@;
    let newline = seq!['\n'];
    let n = tail.len() as int;
    assert(n == 59);
    let release = tail.subrange(1, 11);
    let summary = tail.subrange(12, 26);
    let license = tail.subrange(27, 39);
    let describe = tail.subrange(40, 52);
    let dummy = tail.subrange(53, 58);
    law_other_lines_define_nothing(Seq::empty(), Seq::empty());
    law_other_lines_define_nothing(dummy, Seq::empty());
    assert(tail.skip(53) =~= dummy + newline + Seq::<char>::empty());
    assert(describe.subrange(0, 7)[4] == 'c');
    law_other_lines_define_nothing(describe, tail.skip(53));
    assert(tail.skip(40) =~= describe + newline + tail.skip(53));
    assert(license.subrange(0, 7)[0] == 'L');
    law_other_lines_define_nothing(license, tail.skip(40));
    assert(tail.skip(27) =~= license + newline + tail.skip(40));
    assert(summary.subrange(0, 7)[0] == 'S');
    law_other_lines_define_nothing(summary, tail.skip(27));
    assert(tail.skip(12) =~= summary + newline + tail.skip(27));
    assert(release.subrange(0, 7)[0] == 'R');
    law_other_lines_define_nothing(release, tail.skip(12));
    assert(tail.skip(1) =~= release + newline + tail.skip(12));
}

/// The definitions that are read from a minimal spec file are those it was made with. This
/// holds of names that are words, of bodies that are not empty, hold no newline and have no
/// white space around them, and of a version without a newline.
pub proof fn law_minimal_spec_keeps_definitions(
    defines: Seq<(Seq<char>, Seq<char>)>,
    version: Seq<char>,
)
    requires
        forall|i: int|
            0 <= i < defines.len() ==> (#[trigger] defines[i]).0.len() > 0 && defines[i].1.len()
                > 0 && !is_white_space(defines[i].1[0]) && !is_white_space(defines[i].1.last())
                && !defines[i].1.contains('\n'),
        forall|i: int, k: int|
            0 <= i < defines.len() && 0 <= k < defines[i].0.len() ==> is_word_char(
                #[trigger] defines[i].0[k],
            ),
        !version.contains('\n'),
    ensures
        defines_in(minimal_text(defines, version)) == defines,
        pairs_map(defines_in(minimal_text(defines, version))) == pairs_map(defines),
{
    let frame = MINIMAL_HEAD@ + version + MINIMAL_TAIL@;
    lemma_frame_defines_nothing(version);
    law_written_definitions_are_read(defines, frame);
    assert(minimal_text(defines, version) =~= define_lines(defines) + frame);
    assert(defines + Seq::empty() =~= defines);
}

/// The definitions that are read from a minimal spec file for a `Version` field are the needed
/// ones of the spec file, each once and with its body. This holds where no needed body is empty.
pub proof fn law_second_query_gives_the_definitions(
    content: Seq<char>,
    version: Seq<char>,
    text: Seq<char>,
)
    requires
        !version.contains('\n'),
        is_minimal_spec(content, version, text),
        forall|name: Seq<char>| #[trigger]
            needed_in(content, version).dom().contains(name) ==> needed_in(content, version)[name]
                .len() > 0,
    ensures
        pairs_map(defines_in(text)) == needed_in(content, version),
        forall|i: int, j: int|
            0 <= i < j < defines_in(text).len() ==> (#[trigger] defines_in(text)[i]).0 != (
            #[trigger] defines_in(text)[j]).0,
{
    let found = defines_in(content);
    let needed = needed_in(content, version);
    let defines = choose|defines: Seq<(Seq<char>, Seq<char>)>|
        {
            &&& distinct_keys(defines)
            &&& pairs_map(defines) == needed_in(content, version)
            &&& text == #[trigger] minimal_text(defines, version)
        };
    assert forall|i: int| 0 <= i < defines.len() implies (#[trigger] defines[i]).0.len() > 0
        && defines[i].1.len() > 0 && !is_white_space(defines[i].1[0]) && !is_white_space(
        defines[i].1.last(),
    ) && !defines[i].1.contains('\n') by {
        lemma_needed_source(content, version, defines, i);
    }
    assert forall|i: int, k: int|
        0 <= i < defines.len() && 0 <= k < defines[i].0.len() implies is_word_char(
        #[trigger] defines[i].0[k],
    ) by {
        lemma_needed_source(content, version, defines, i);
    }
    law_minimal_spec_keeps_definitions(defines, version);
}

/// A definition that is needed stands in the spec file.
proof fn lemma_needed_source(
    content: Seq<char>,
    version: Seq<char>,
    defines: Seq<(Seq<char>, Seq<char>)>,
    i: int,
)
    requires
        distinct_keys(defines),
        pairs_map(defines) == needed_in(content, version),
        forall|name: Seq<char>| #[trigger]
            needed_in(content, version).dom().contains(name) ==> needed_in(content, version)[name]
                .len() > 0,
        0 <= i < defines.len(),
    ensures
        defines[i].0.len() > 0,
        forall|k: int| 0 <= k < defines[i].0.len() ==> is_word_char(#[trigger] defines[i].0[k]),
        defines[i].1.len() > 0,
        is_trimmed(defines[i].1),
        !defines[i].1.contains('\n'),
{
    let found = defines_in(content);
    let (name, body) = defines[i];
    lemma_pairs_map_value(defines, i);
    assert(needed_in(content, version).dom().contains(name));
    assert(pairs_map(found).dom().contains(name));
    assert(pairs_map(found)[name] == body);
    lemma_pairs_map_source(found, name);
    let k = choose|k: int| 0 <= k < found.len() && found[k] == (name, body);
    law_definitions_are_lines(content, k);
}

/// A minimal spec file for a version holds the needed definitions, each once and whole, then
/// the version, and nothing else but what every minimal spec file holds.
pub proof fn law_minimal_spec_by_its_text(content: Seq<char>, version: Seq<char>, text: Seq<char>)
    ensures
        is_minimal_spec(content, version, text) <==> exists|defines: Seq<(Seq<char>, Seq<char>)>|
            {
                &&& forall|i: int, j: int|
                    0 <= i < j < defines.len() ==> (#[trigger] defines[i]).0 != (
                    #[trigger] defines[j]).0
                &&& pairs_map(defines) == needed_in(content, version)
                &&& text == #[trigger] define_lines(defines) + "Name: dummy\nVersion: "@ + version
                    + "\nRelease: 1\nSummary: dummy\nLicense: MIT\n%description\ndummy\n"@
            },
{
    if is_minimal_spec(content, version, text) {
        let defines = choose|defines: Seq<(Seq<char>, Seq<char>)>|
            {
                &&& distinct_keys(defines)
                &&& pairs_map(defines) == needed_in(content, version)
                &&& text == #[trigger] minimal_text(defines, version)
            };
        assert(text == define_lines(defines) + "Name: dummy\nVersion: "@ + version
            + "\nRelease: 1\nSummary: dummy\nLicense: MIT\n%description\ndummy\n"@);
    }
    if exists|defines: Seq<(Seq<char>, Seq<char>)>|
        {
            &&& forall|i: int, j: int|
                0 <= i < j < defines.len() ==> (#[trigger] defines[i]).0 != (
                #[trigger] defines[j]).0
            &&& pairs_map(defines) == needed_in(content, version)
            &&& text == #[trigger] define_lines(defines) + "Name: dummy\nVersion: "@ + version
                + "\nRelease: 1\nSummary: dummy\nLicense: MIT\n%description\ndummy\n"@
        } {
        let defines = choose|defines: Seq<(Seq<char>, Seq<char>)>|
            {
                &&& forall|i: int, j: int|
                    0 <= i < j < defines.len() ==> (#[trigger] defines[i]).0 != (
                    #[trigger] defines[j]).0
                &&& pairs_map(defines) == needed_in(content, version)
                &&& text == #[trigger] define_lines(defines) + "Name: dummy\nVersion: "@ + version
                    + "\nRelease: 1\nSummary: dummy\nLicense: MIT\n%description\ndummy\n"@
            };
        assert(text == minimal_text(defines, version));
    }
}

/// What the text of a spec file says of its version.
#[derive(Debug)]
pub enum Resolution {
    /// The version, which has no reference in braces. It can still hold a bare `%name`, which
    /// [`parse_spec`] refuses.
    Version(String),
    /// The minimal spec file about which `rpmspec` is to be asked.
    Query(String),
}

/// The minimal spec file for `version` with the given definitions.
pub fn minimal_spec(defines: &Vec<(String, String)>, version: &str) -> (r: String)
    ensures
        r@ == minimal_text(pair_texts(defines@), version@),
{
    let mut out = String::new();
    let n: usize = defines.len();
    let mut i: usize = 0;
    let ghost all = pair_texts(defines@);
    assert(all.take(0) =~= Seq::empty());
    while i < n
        invariant
            i <= n,
            n == defines@.len(),
            all == pair_texts(defines@),
            out@ == define_lines(all.take(i as int)),
        decreases n - i,
    {
        out.append("%global ");
        out.append(defines[i].0.as_str());
        out.append(" ");
        out.append(defines[i].1.as_str());
        out.append("\n");
        assert(all.take(i + 1).drop_last() =~= all.take(i as int));
        i += 1;
    }
    assert(all.take(n as int) =~= all);
    out.append(MINIMAL_HEAD);
    out.append(version);
    out.append(MINIMAL_TAIL);
    out
}

/// The macros that a spec file defines, each with its last body and the names that the body
/// refers to.
pub fn macro_table(patterns: &SpecPatterns, content: &str) -> (r: Vec<MacroDef>)
    ensures
        distinct_keys(bodies(r@)),
        pairs_map(bodies(r@)) == pairs_map(defines_in(content@)),
        graph(r@) == pairs_map(defines_in(content@)).map_values(
            |body: Seq<char>| macros_in(body),
        ),
{
    let found = patterns.definitions(content);
    let mut table = Context::new();
    let n: usize = found.len();
    let mut i: usize = 0;
    let ghost all = pair_texts(found@);
    assert(all.take(0) =~= Seq::empty());
    while i < n
        invariant
            i <= n,
            n == found@.len(),
            all == pair_texts(found@),
            table@ == pairs_map(all.take(i as int)),
        decreases n - i,
    {
        table.insert(found[i].0.clone(), found[i].1.clone());
        assert(all.take(i + 1).drop_last() =~= all.take(i as int));
        i += 1;
    }
    assert(all.take(n as int) =~= all);
    let entries = table.entries();
    let mut defs: Vec<MacroDef> = Vec::new();
    let m: usize = entries.len();
    let mut k: usize = 0;
    while k < m
        invariant
            k <= m,
            m == entries@.len(),
            defs@.len() == k,
            forall|j: int|
                0 <= j < k ==> {
                    &&& (#[trigger] defs@[j]).name@ == entries@[j].0@
                    &&& defs@[j].body@ == entries@[j].1@
                    &&& texts(defs@[j].refs@) == macros_in(entries@[j].1@)
                },
        decreases m - k,
    {
        let name = entries[k].0.clone();
        let body = entries[k].1.clone();
        let refs = patterns.macro_names(body.as_str());
        defs.push(MacroDef { name, body, refs });
        k += 1;
    }
    proof {
        assert(bodies(defs@) =~= pair_texts(entries@));
        lemma_edges(defs@);
    }
    defs
}

/// Where each macro comes with the names that its body refers to, the graph maps the bodies.
proof fn lemma_edges(defs: Seq<MacroDef>)
    requires
        distinct_keys(bodies(defs)),
        forall|j: int|
            0 <= j < defs.len() ==> texts((#[trigger] defs[j]).refs@) == macros_in(
                defs[j].body@,
            ),
    ensures
        graph(defs) == pairs_map(bodies(defs)).map_values(|body: Seq<char>| macros_in(body)),
{
    let table = pairs_map(bodies(defs));
    let image = table.map_values(|body: Seq<char>| macros_in(body));
    assert forall|name: Seq<char>| #[trigger]
        graph(defs).dom().contains(name) <==> image.dom().contains(name) by {
        lemma_pairs_map_domain(edges(defs), name);
        lemma_pairs_map_domain(bodies(defs), name);
        if graph(defs).dom().contains(name) {
            let i = choose|i: int|
                0 <= i < edges(defs).len() && (#[trigger] edges(defs)[i]).0 == name;
            assert(bodies(defs)[i].0 == name);
        }
        if image.dom().contains(name) {
            let i = choose|i: int|
                0 <= i < bodies(defs).len() && (#[trigger] bodies(defs)[i]).0 == name;
            assert(edges(defs)[i].0 == name);
        }
    }
    assert forall|name: Seq<char>| #[trigger] graph(defs).dom().contains(name) implies graph(
        defs,
    )[name] == image[name] by {
        lemma_pairs_map_domain(edges(defs), name);
        let i = choose|i: int| 0 <= i < edges(defs).len() && (#[trigger] edges(defs)[i]).0 == name;
        assert forall|j: int| i < j < defs.len() implies (#[trigger] edges(defs)[j]).0
            != edges(defs)[i].0 by {
            assert(bodies(defs)[i].0 != bodies(defs)[j].0);
        }
        lemma_pairs_map_value(edges(defs), i);
        lemma_pairs_map_value(bodies(defs), i);
        assert(bodies(defs)[i] == (name, defs[i].body@));
        assert(edges(defs)[i] == (name, texts(defs[i].refs@)));
    }
    assert(graph(defs) =~= image);
}

/// Reads the version from the text of a spec file. A version that refers to macros in braces
/// becomes a minimal spec file with all definitions that those references need. A bare `%name`
/// is not followed, and a version with no other reference comes back as it is.
pub fn resolve_version_with_rpmspec(patterns: &SpecPatterns, content: &str) -> (r: Result<
    Resolution,
    SpecError,
>)
    ensures
        match version_in(content@) {
            None => r matches Err(error) && error@ == SpecErrorView::NoVersion,
            Some(version) => if occurs(version, MACRO_OPEN@) {
                r matches Ok(Resolution::Query(text)) && is_minimal_spec(
                    content@,
                    version,
                    text@,
                )
            } else {
                r matches Ok(Resolution::Version(text)) && text@ == version
            },
        },
{
    let version = match patterns.version(content) {
        Some(version) => version,
        None => return Err(SpecError::NoVersion),
    };
    if !has_text(version.as_str(), MACRO_OPEN) {
        return Ok(Resolution::Version(version));
    }
    let defs = macro_table(patterns, content);
    let seeds = patterns.macro_names(version.as_str());
    let needed = needed_macros(&seeds, &defs);
    let text = minimal_spec(&needed, version.as_str());
    assert(text@ == minimal_text(pair_texts(needed@), version@));
    Ok(Resolution::Query(text))
}

/// A spec file with `new` for the value of its `Version` field.
pub fn update_version(patterns: &SpecPatterns, new: &str, content: &str) -> (r: String)
    ensures
        r@ == with_version(content@, new@),
{
    patterns.replace_version(content, new)
}

/// How a run of `rpmspec` went.
#[derive(Debug)]
pub enum Outcome {
    /// It has ended, successfully or not, and printed this.
    Exited { success: bool, stdout: Vec<u8>, stderr: Vec<u8> },
    /// It could not be run, and why.
    NotStarted(String),
}

/// What has happened on the way to the version of a spec file.
#[derive(Debug)]
pub enum SpecEvent {
    /// The spec file is at this path, where the path is text.
    Started(Option<String>),
    /// `rpmspec` was asked about the spec file.
    Queried(Outcome),
    /// The spec file was read, or could not be, and why.
    Loaded(Result<String, String>),
    /// The minimal spec file could not be written, and why.
    NotWritten(String),
    /// `rpmspec` was asked about the minimal spec file.
    Resolved(Outcome),
}

/// What is to be done next.
#[derive(Debug)]
pub enum SpecAction {
    /// Run `rpmspec` with these arguments on the spec file.
    Query(Vec<String>),
    /// Read the spec file.
    Load,
    /// Write a minimal spec file with this text and run `rpmspec` on it.
    QueryMinimal(String),
    /// Nothing: here is the table of the spec file.
    Finish(Result<Context, SpecError>),
}

/// The arguments with which `rpmspec` prints the version of the spec file at `path`.
pub open spec fn query_texts(path: Seq<char>) -> Seq<Seq<char>> {
    seq!["-q"@, "--srpm"@, "--qf"@, "%{version}"@, path]
}

/// The arguments with which `rpmspec` prints the version of the spec file at `path`.
pub fn query_args(path: &str) -> (r: Vec<String>)
    ensures
        texts(r@) == query_texts(path@),
{
    let mut args: Vec<String> = Vec::new();
    args.push("-q".to_string());
    args.push("--srpm".to_string());
    args.push("--qf".to_string());
    args.push("%{version}".to_string());
    args.push(path.to_string());
    assert(texts(args@) =~= query_texts(path@));
    args
}

/// `String::from_utf8_lossy`: the characters of `bytes`, with replacement characters for what
/// is not UTF-8.
pub uninterp spec fn lossy_text(bytes: Seq<u8>) -> Seq<char>;

/// `String::from_utf8_lossy`: bytes that are UTF-8 are decoded; for others the result is named.
#[verifier::external_body]
fn decode_lossy(bytes: &Vec<u8>) -> (r: String)
    ensures
        r@ == lossy_text(bytes@),
        valid_utf8(bytes@) ==> r@ == decode_utf8(bytes@),
{
    String::from_utf8_lossy(bytes).into_owned()
}

/// `String::from_utf8`: the text of bytes that are UTF-8, and others back as they were.
#[verifier::external_body]
fn decode(bytes: Vec<u8>) -> (r: Result<String, Vec<u8>>)
    ensures
        match r {
            Ok(text) => valid_utf8(bytes@) && text@ == decode_utf8(bytes@),
            Err(back) => !valid_utf8(bytes@) && back@ == bytes@,
        },
{
    String::from_utf8(bytes).map_err(|e| e.into_bytes())
}

/// The outcome for a version that was found: a version that holds a macro is refused.
pub open spec fn accepted(
    version: Seq<char>,
    r: Result<Context, SpecError>,
) -> bool {
    if version.contains(MACRO_MARK) {
        r matches Err(error) && error@ == SpecErrorView::UnresolvedMacros(version)
    } else {
        r matches Ok(context) && context@ == Map::<Seq<char>, Seq<char>>::empty().insert(
            VERSION_KEY@,
            version,
        )
    }
}

/// Puts a version into the table of a spec file, unless it holds a macro.
pub fn accept_version(version: String) -> (r: Result<Context, SpecError>)
    ensures
        accepted(version@, r),
{
    if has_char(version.as_str(), MACRO_MARK) {
        return Err(SpecError::UnresolvedMacros(version));
    }
    let mut context = Context::new();
    context.insert(VERSION_KEY.to_string(), version);
    Ok(context)
}

/// What is done after `rpmspec` was asked about the spec file: a successful answer, without
/// the white space around it, is the version; else the spec file is read.
pub open spec fn after_query(outcome: Outcome, action: SpecAction) -> bool {
    match outcome {
        Outcome::Exited { success: true, stdout, .. } => if valid_utf8(stdout@) {
            action matches SpecAction::Finish(r) && accepted(trimmed(decode_utf8(stdout@)), r)
        } else {
            action matches SpecAction::Finish(Err(error)) && error@ == SpecErrorView::NotUtf8(
                stdout@,
            )
        },
        _ => action is Load,
    }
}

/// What is done after the spec file was read.
pub open spec fn after_load(loaded: Result<String, String>, action: SpecAction) -> bool {
    match loaded {
        Err(why) => action matches SpecAction::Finish(Err(error)) && error@
            == SpecErrorView::Read(why@),
        Ok(content) => match version_in(content@) {
            None => action matches SpecAction::Finish(Err(error)) && error@
                == SpecErrorView::NoVersion,
            Some(version) => if occurs(version, MACRO_OPEN@) {
                action matches SpecAction::QueryMinimal(text) && is_minimal_spec(
                    content@,
                    version,
                    text@,
                )
            } else {
                action matches SpecAction::Finish(r) && accepted(version, r)
            },
        },
    }
}

/// What is done after `rpmspec` was asked about the minimal spec file.
pub open spec fn after_minimal_query(outcome: Outcome, r: Result<Context, SpecError>) -> bool {
    match outcome {
        Outcome::Exited { success: true, stdout, .. } => if !valid_utf8(stdout@) {
            r matches Err(error) && error@ == SpecErrorView::NotUtf8(stdout@)
        } else if trimmed(decode_utf8(stdout@)).len() == 0 {
            r matches Err(error) && error@ == SpecErrorView::EmptyVersion
        } else {
            accepted(trimmed(decode_utf8(stdout@)), r)
        },
        Outcome::Exited { success: false, stderr, .. } => {
            &&& r matches Err(error)
            &&& error@ == SpecErrorView::QueryFailed(trimmed(lossy_text(stderr@)))
            &&& valid_utf8(stderr@) ==> error@ == SpecErrorView::QueryFailed(
                trimmed(decode_utf8(stderr@)),
            )
        },
        Outcome::NotStarted(why) => r matches Err(error) && error@ == SpecErrorView::QueryError(
            why@,
        ),
    }
}

/// What is done on each event.
pub open spec fn spec_step(event: SpecEvent, action: SpecAction) -> bool {
    match event {
        SpecEvent::Started(Some(path)) => action matches SpecAction::Query(args) && texts(args@)
            == query_texts(path@),
        SpecEvent::Started(None) => action matches SpecAction::Finish(Err(error)) && error@
            == SpecErrorView::InvalidPath,
        SpecEvent::Queried(outcome) => after_query(outcome, action),
        SpecEvent::Loaded(loaded) => after_load(loaded, action),
        SpecEvent::NotWritten(why) => action matches SpecAction::Finish(Err(error)) && error@
            == SpecErrorView::Write(why@),
        SpecEvent::Resolved(outcome) => action matches SpecAction::Finish(r)
            && after_minimal_query(outcome, r),
    }
}

/// A table of a spec file, whichever way it was found, holds a version and nothing else, and
/// the version holds no macro and has no white space around it.
pub proof fn law_accepted_versions_are_plain(event: SpecEvent, action: SpecAction)
    requires
        spec_step(event, action),
    ensures
        action matches SpecAction::Finish(Ok(context)) ==> {
            &&& context@.dom() == set![VERSION_KEY@]
            &&& !context@[VERSION_KEY@].contains(MACRO_MARK)
            &&& is_trimmed(context@[VERSION_KEY@])
        },
{
    if let SpecAction::Finish(Ok(context)) = action {
        match event {
            SpecEvent::Queried(Outcome::Exited { stdout, .. }) => {
                lemma_trimmed_is_trimmed(decode_utf8(stdout@));
            },
            SpecEvent::Resolved(Outcome::Exited { stdout, .. }) => {
                lemma_trimmed_is_trimmed(decode_utf8(stdout@));
            },
            SpecEvent::Loaded(Ok(content)) => {
                if let Some((_, value, end)) = version_field(content@) {
                    lemma_trimmed_is_trimmed(content@.subrange(value, end));
                }
            },
            _ => {},
        }
        assert(context@.dom() =~= set![VERSION_KEY@]);
    }
}

/// A version that was written into a spec file is the one that is found in its text, but for
/// the white space around it. This holds of a version that, without that white space, is not
/// empty and holds neither a newline nor a macro.
pub proof fn law_updated_spec_has_new_version(
    text: Seq<char>,
    new: Seq<char>,
    content: String,
    action: SpecAction,
)
    requires
        version_field(text) is Some,
        trimmed(new).len() > 0,
        !trimmed(new).contains('\n'),
        !trimmed(new).contains(MACRO_MARK),
        content@ == with_version(text, new),
        spec_step(SpecEvent::Loaded(Ok(content)), action),
    ensures
        action matches SpecAction::Finish(Ok(context)) && context@ == Map::<
            Seq<char>,
            Seq<char>,
        >::empty().insert(VERSION_KEY@, trimmed(new)),
{
    law_written_version_is_read(text, new);
    reveal_strlit("%{");
    let version = trimmed(new);
    if occurs(version, MACRO_OPEN@) {
        let i = choose|i: int| occurs_at(version, MACRO_OPEN@, i);
        assert(version.subrange(i, i + 2)[0] == version[i]);
        assert(version.contains(version[i]));
    }
}

/// The first step asks `rpmspec` for the version of the spec file at the given path; a path that
/// is no text is refused.
pub proof fn law_first_step_asks_about_the_path(path: String, args: Vec<String>, action: SpecAction)
    ensures
        spec_step(SpecEvent::Started(Some(path)), action) ==> {
            &&& action matches SpecAction::Query(args)
            &&& args@.len() == 5
            &&& args@[0]@ == "-q"@
            &&& args@[1]@ == "--srpm"@
            &&& args@[2]@ == "--qf"@
            &&& args@[3]@ == "%{version}"@
            &&& args@[4]@ == path@
        },
        spec_step(SpecEvent::Started(None), action) ==> action matches SpecAction::Finish(
            Err(SpecError::InvalidPath),
        ),
        texts(args@) == query_texts(path@) ==> {
            &&& args@.len() == 5
            &&& args@[0]@ == "-q"@
            &&& args@[1]@ == "--srpm"@
            &&& args@[2]@ == "--qf"@
            &&& args@[3]@ == "%{version}"@
            &&& args@[4]@ == path@
        },
{
    if texts(args@) == query_texts(path@) {
        lemma_query_args(args@, path@);
    }
    if spec_step(SpecEvent::Started(Some(path)), action) {
        if let SpecAction::Query(found) = action {
            lemma_query_args(found@, path@);
        }
    }
}

proof fn lemma_query_args(args: Seq<String>, path: Seq<char>)
    requires
        texts(args) == query_texts(path),
    ensures
        args.len() == 5,
        args[0]@ == "-q"@,
        args[1]@ == "--srpm"@,
        args[2]@ == "--qf"@,
        args[3]@ == "%{version}"@,
        args[4]@ == path,
{
    let all = query_texts(path);
    assert(texts(args).len() == args.len());
    assert forall|i: int| 0 <= i < args.len() implies #[trigger] args[i]@ == all[i] by {
        assert(texts(args)[i] == args[i]@);
    }
}

/// A successful answer of `rpmspec` is the version, whole, but for the white space around it;
/// one that still holds a percent sign is refused.
pub proof fn law_first_answer_is_the_version(
    stdout: Vec<u8>,
    stderr: Vec<u8>,
    left: Seq<char>,
    version: Seq<char>,
    right: Seq<char>,
    action: SpecAction,
)
    requires
        valid_utf8(stdout@),
        decode_utf8(stdout@) == left + version + right,
        forall|i: int| 0 <= i < left.len() ==> is_white_space(#[trigger] left[i]),
        forall|i: int| 0 <= i < right.len() ==> is_white_space(#[trigger] right[i]),
        version.len() > 0 ==> !is_white_space(version[0]) && !is_white_space(version.last()),
        spec_step(
            SpecEvent::Queried(Outcome::Exited { success: true, stdout, stderr }),
            action,
        ),
    ensures
        !version.contains('%') ==> (action matches SpecAction::Finish(Ok(table)) && table@ == Map::<
            Seq<char>,
            Seq<char>,
        >::empty().insert("VER"@, version)),
        version.contains('%') ==> (action matches SpecAction::Finish(
            Err(SpecError::UnresolvedMacros(text)),
        ) && text@ == version),
{
    law_trimming_takes_white_space_only(left, version, right);
}

/// A successful answer about the minimal spec file is the version, whole, but for the white
/// space around it; one that is blank or still holds a percent sign is refused.
pub proof fn law_second_answer_is_the_version(
    stdout: Vec<u8>,
    stderr: Vec<u8>,
    left: Seq<char>,
    version: Seq<char>,
    right: Seq<char>,
    action: SpecAction,
)
    requires
        valid_utf8(stdout@),
        decode_utf8(stdout@) == left + version + right,
        forall|i: int| 0 <= i < left.len() ==> is_white_space(#[trigger] left[i]),
        forall|i: int| 0 <= i < right.len() ==> is_white_space(#[trigger] right[i]),
        version.len() > 0 ==> !is_white_space(version[0]) && !is_white_space(version.last()),
        spec_step(
            SpecEvent::Resolved(Outcome::Exited { success: true, stdout, stderr }),
            action,
        ),
    ensures
        version.len() > 0 && !version.contains('%') ==> (action matches SpecAction::Finish(
            Ok(table),
        ) && table@ == Map::<Seq<char>, Seq<char>>::empty().insert("VER"@, version)),
        version.contains('%') ==> (action matches SpecAction::Finish(
            Err(SpecError::UnresolvedMacros(text)),
        ) && text@ == version),
        version.len() == 0 ==> action matches SpecAction::Finish(Err(SpecError::EmptyVersion)),
{
    law_trimming_takes_white_space_only(left, version, right);
}

/// An answer that is not UTF-8 is refused and handed back as it is.
pub proof fn law_answers_must_be_text(
    stdout: Vec<u8>,
    stderr: Vec<u8>,
    event: SpecEvent,
    action: SpecAction,
)
    requires
        !valid_utf8(stdout@),
        event == SpecEvent::Queried(Outcome::Exited { success: true, stdout, stderr }) || event
            == SpecEvent::Resolved(Outcome::Exited { success: true, stdout, stderr }),
        spec_step(event, action),
    ensures
        action matches SpecAction::Finish(Err(SpecError::NotUtf8(bytes))) && bytes@ == stdout@,
{
}

/// Where `rpmspec` cannot answer about the spec file, the file is read, whatever was printed.
pub proof fn law_without_answer_the_file_is_read(
    stdout: Vec<u8>,
    stderr: Vec<u8>,
    why: String,
    event: SpecEvent,
    action: SpecAction,
)
    requires
        event == SpecEvent::Queried(Outcome::Exited { success: false, stdout, stderr }) || event
            == SpecEvent::Queried(Outcome::NotStarted(why)),
        spec_step(event, action),
    ensures
        action is Load,
{
}

/// Where `rpmspec` fails on the minimal spec file, the error says what it printed to its error
/// output, without the white space around it, or why it could not be run.
pub proof fn law_failed_second_query_says_why(
    stdout: Vec<u8>,
    stderr: Vec<u8>,
    left: Seq<char>,
    text: Seq<char>,
    right: Seq<char>,
    why: String,
    action: SpecAction,
)
    requires
        forall|i: int| 0 <= i < left.len() ==> is_white_space(#[trigger] left[i]),
        forall|i: int| 0 <= i < right.len() ==> is_white_space(#[trigger] right[i]),
        text.len() > 0 ==> !is_white_space(text[0]) && !is_white_space(text.last()),
    ensures
        spec_step(
            SpecEvent::Resolved(Outcome::Exited { success: false, stdout, stderr }),
            action,
        ) && (lossy_text(stderr@) == left + text + right || (valid_utf8(stderr@) && decode_utf8(
            stderr@,
        ) == left + text + right)) ==> (action matches SpecAction::Finish(
            Err(SpecError::QueryFailed(said)),
        ) && said@ == text),
        spec_step(SpecEvent::Resolved(Outcome::NotStarted(why)), action) ==> (
        action matches SpecAction::Finish(Err(SpecError::QueryError(said))) && said@ == why@),
{
    law_trimming_takes_white_space_only(left, text, right);
}

/// Where a file cannot be read or written, the error says why.
pub proof fn law_failed_files_say_why(why: String, action: SpecAction)
    ensures
        spec_step(SpecEvent::Loaded(Err(why)), action) ==> (action matches SpecAction::Finish(
            Err(SpecError::Read(said)),
        ) && said@ == why@),
        spec_step(SpecEvent::NotWritten(why), action) ==> (action matches SpecAction::Finish(
            Err(SpecError::Write(said)),
        ) && said@ == why@),
{
}

/// The version in the text of a spec file is the version, whole: with a reference in braces it
/// leads to a second query, with any other percent sign it is refused. A text without a version
/// is refused too.
pub proof fn law_loaded_text_gives_the_version(content: String, i: int, action: SpecAction)
    requires
        spec_step(SpecEvent::Loaded(Ok(content)), action),
    ensures
        match version_in(content@) {
            None => action matches SpecAction::Finish(Err(SpecError::NoVersion)),
            Some(version) => {
                &&& !version.contains('%') ==> (action matches SpecAction::Finish(Ok(table))
                    && table@ == Map::<Seq<char>, Seq<char>>::empty().insert("VER"@, version))
                &&& 0 <= i < version.len() - 1 && version[i] == '%' && version[i + 1] == '{' ==> (
                action matches SpecAction::QueryMinimal(text) && is_minimal_spec(
                    content@,
                    version,
                    text@,
                ))
                &&& version.contains('%') && (forall|k: int|
                    0 <= k < version.len() - 1 && #[trigger] version[k] == '%' ==> version[k + 1]
                        != '{') ==> (action matches SpecAction::Finish(
                    Err(SpecError::UnresolvedMacros(text)),
                ) && text@ == version)
            },
        },
{
    reveal_strlit("%{");
    if let Some(version) = version_in(content@) {
        if occurs(version, MACRO_OPEN@) {
            let k = choose|k: int| occurs_at(version, MACRO_OPEN@, k);
            assert(version.subrange(k, k + 2)[0] == version[k]);
            assert(version.subrange(k, k + 2)[1] == version[k + 1]);
            assert(version.contains(version[k]));
        }
        if 0 <= i < version.len() - 1 && version[i] == '%' && version[i + 1] == '{' {
            assert(version.subrange(i, i + 2) =~= "%{"@);
            assert(occurs_at(version, MACRO_OPEN@, i));
            assert(version.contains(version[i]));
        }
    }
}

/// What each error says.
pub proof fn law_errors_say_what_happened(error: SpecError)
    ensures
        error_text(error@) == match error {
            SpecError::InvalidPath => Some("Invalid spec path"@),
            SpecError::Read(why) => Some(why@),
            SpecError::Write(why) => Some(why@),
            SpecError::NotUtf8(_) => None,
            SpecError::NoVersion => Some("No Version field in spec"@),
            SpecError::EmptyVersion => Some("rpmspec returned empty version"@),
            SpecError::QueryFailed(why) => Some("rpmspec failed: "@ + why@),
            SpecError::QueryError(why) => Some("rpmspec error: "@ + why@),
            SpecError::UnresolvedMacros(version) => Some(
                "Unresolved macros in version: "@ + version@,
            ),
        },
{
}

/// A version without a percent sign is put into the table under `VER`, whole and alone; with
/// one it is refused, and the error holds it.
pub proof fn law_accepted_versions_are_kept_whole(
    version: Seq<char>,
    r: Result<Context, SpecError>,
)
    requires
        accepted(version, r),
    ensures
        !version.contains('%') ==> (r matches Ok(table) && table@ == Map::<
            Seq<char>,
            Seq<char>,
        >::empty().insert("VER"@, version)),
        version.contains('%') ==> (r matches Err(SpecError::UnresolvedMacros(text)) && text@
            == version),
{
}

/// Ends the second query.
fn finish_query(outcome: Outcome) -> (r: Result<Context, SpecError>)
    ensures
        after_minimal_query(outcome, r),
{
    match outcome {
        Outcome::Exited { success, stdout, stderr } => {
            if !success {
                return Err(
                    SpecError::QueryFailed(decode_lossy(&stderr).as_str().trim().to_string()),
                );
            }
            match decode(stdout) {
                Ok(text) => {
                    let version = text.as_str().trim();
                    if version.is_empty() {
                        Err(SpecError::EmptyVersion)
                    } else {
                        accept_version(version.to_string())
                    }
                },
                Err(bytes) => Err(SpecError::NotUtf8(bytes)),
            }
        },
        Outcome::NotStarted(why) => Err(SpecError::QueryError(why)),
    }
}

/// One step on the way to the version of a spec file: what to do after `event`.
pub fn parse_spec(patterns: &SpecPatterns, event: SpecEvent) -> (action: SpecAction)
    ensures
        spec_step(event, action),
{
    match event {
        SpecEvent::Started(path) => match path {
            Some(path) => SpecAction::Query(query_args(path.as_str())),
            None => SpecAction::Finish(Err(SpecError::InvalidPath)),
        },
        SpecEvent::Queried(outcome) => match outcome {
            Outcome::Exited { success: true, stdout, .. } => match decode(stdout) {
                Ok(text) => SpecAction::Finish(accept_version(text.as_str().trim().to_string())),
                Err(bytes) => SpecAction::Finish(Err(SpecError::NotUtf8(bytes))),
            },
            _ => SpecAction::Load,
        },
        SpecEvent::Loaded(loaded) => match loaded {
            Ok(content) => match resolve_version_with_rpmspec(patterns, content.as_str()) {
                Ok(Resolution::Version(version)) => SpecAction::Finish(accept_version(version)),
                Ok(Resolution::Query(text)) => SpecAction::QueryMinimal(text),
                Err(error) => SpecAction::Finish(Err(error)),
            },
            Err(why) => SpecAction::Finish(Err(SpecError::Read(why))),
        },
        SpecEvent::NotWritten(why) => SpecAction::Finish(Err(SpecError::Write(why))),
        SpecEvent::Resolved(outcome) => SpecAction::Finish(finish_query(outcome)),
    }
}

} // verus!
