//! Which spec files are checked.

use crate::context::{distinct_keys, pair_texts, pairs_map, Context};
use crate::patterns::{regex_captures, NameFilter};
use crate::text::{ends_in, occurs_at, same_text};
use vstd::prelude::*;
use vstd::seq_lib::lemma_seq_contains_after_push;

verus! {

/// The least depth below the directory that is searched at which spec files lie.
pub const MIN_DEPTH: usize = 1;

/// The greatest depth below the directory that is searched at which spec files lie.
pub const MAX_DEPTH: usize = 3;

/// A file with this name is a spec file: `spec`, or anything that ends in `.spec`.
pub open spec fn is_spec_name(name: Seq<char>) -> bool {
    name == "spec"@ || occurs_at(name, ".spec"@, name.len() - ".spec"@.len())
}

/// Whether a file with this name is a spec file.
pub fn has_spec_name(name: &str) -> (r: bool)
    ensures
        r == is_spec_name(name@),
{
    same_text(name, "spec") || ends_in(name, ".spec")
}

/// The spec files among the files that were found, each of them with its name.
pub fn collect_spec<P>(entries: Vec<(String, P)>) -> (r: Vec<P>)
    ensures
        r@ == entries@.filter(|e: (String, P)| is_spec_name(e.0@)).map_values(
            |e: (String, P)| e.1,
        ),
{
    let mut out: Vec<P> = Vec::new();
    let ghost all = entries@;
    let ghost keep = |e: (String, P)| is_spec_name(e.0@);
    let ghost path = |e: (String, P)| e.1;
    proof {
        reveal(Seq::filter);
    }
    assert(out@ =~= all.take(0).filter(keep).map_values(path));
    for entry in it: entries
        invariant
            it.seq() == all,
            keep == (|e: (String, P)| is_spec_name(e.0@)),
            path == (|e: (String, P)| e.1),
            out@ == all.take(it.index()).filter(keep).map_values(path),
    {
        let ghost before = all.take(it.index());
        proof {
            reveal(Seq::filter);
            assert(all.take(it.index() + 1).drop_last() =~= before);
            assert(all.take(it.index() + 1).last() == entry);
        }
        let ghost rest = before.filter(keep);
        if has_spec_name(entry.0.as_str()) {
            assert(rest.push(entry).map_values(path) =~= rest.map_values(path).push(entry.1));
            out.push(entry.1);
        }
    }
    assert(all.take(all.len() as int) =~= all);
    out
}

/// The texts of a path: all of it, and its last component, where it has one.
#[derive(Debug)]
pub struct PathTexts {
    pub whole: String,
    pub file_name: Option<String>,
}

/// The name of the package whose spec file is at `path`: that of the directory in which the
/// file lies. A path that has no last component stands for itself, as one without a parent
/// does for its parent.
pub fn normalize_name(path: &PathTexts, parent: Option<&PathTexts>) -> (r: String)
    ensures
        r@ == {
            let directory = match parent {
                Some(texts) => *texts,
                None => *path,
            };
            match directory.file_name {
                Some(name) => name@,
                None => directory.whole@,
            }
        },
{
    let directory: &PathTexts = match parent {
        Some(texts) => texts,
        None => path,
    };
    match &directory.file_name {
        Some(name) => name.clone(),
        None => directory.whole.clone(),
    }
}

/// A spec file: where it lies, the text of the directory it lies in, where there is one, and
/// the name of its package.
#[derive(Debug)]
pub struct SpecFile<P> {
    pub path: P,
    pub parent: Option<String>,
    pub name: String,
}

/// The directory of a spec file matches `pattern`.
pub open spec fn is_included<P>(pattern: Seq<char>, file: SpecFile<P>) -> bool {
    match file.parent {
        Some(parent) => regex_captures(pattern, parent@).len() > 0,
        None => false,
    }
}

/// There is an update configuration for a spec file, and it is not empty.
pub open spec fn is_configured<P>(
    config: Map<Seq<char>, Seq<char>>,
    file: SpecFile<P>,
) -> bool {
    config.dom().contains(file.name@) && config[file.name@].len() > 0
}

/// Of the files that are kept for their update configuration, each has one.
pub proof fn law_kept_files_are_configured<P>(
    files: Seq<SpecFile<P>>,
    config: Map<Seq<char>, Seq<char>>,
    i: int,
)
    requires
        0 <= i < files.filter(|f: SpecFile<P>| is_configured(config, f)).len(),
    ensures
        ({
            let kept = files.filter(|f: SpecFile<P>| is_configured(config, f));
            &&& files.contains(kept[i])
            &&& config.dom().contains(kept[i].name@)
            &&& config[kept[i].name@].len() > 0
        }),
{
    let keep = |f: SpecFile<P>| is_configured(config, f);
    files.lemma_filter_contains_rev(keep, files.filter(keep)[i]);
    files.lemma_filter_pred(keep, i);
}

/// A filter keeps the members of a list that it is meant to keep, and no other.
proof fn lemma_filter_members<A>(list: Seq<A>, keep: spec_fn(A) -> bool, a: A)
    ensures
        list.filter(keep).contains(a) <==> list.contains(a) && keep(a),
    decreases list.len(),
{
    reveal(Seq::filter);
    if list.len() > 0 {
        let front = list.drop_last();
        let last = list.last();
        lemma_filter_members(front, keep, a);
        assert(list =~= front.push(last));
        lemma_seq_contains_after_push(front, last, a);
        lemma_seq_contains_after_push(front.filter(keep), last, a);
    }
}

/// A file is kept by a pattern exactly if it has a directory and the pattern matches somewhere
/// in the text of that directory, whatever the file and its package are called.
pub proof fn law_files_are_kept_by_directory<P>(
    files: Seq<SpecFile<P>>,
    pattern: Seq<char>,
    file: SpecFile<P>,
)
    ensures
        files.filter(|f: SpecFile<P>| is_included(pattern, f)).contains(file) <==> files.contains(
            file,
        ) && (file.parent matches Some(parent) && regex_captures(pattern, parent@).len() > 0),
{
    lemma_filter_members(files, |f: SpecFile<P>| is_included(pattern, f), file);
}

/// Two files in the same directory are both kept by a pattern or both left out.
pub proof fn law_directories_are_kept_whole<P>(
    pattern: Seq<char>,
    first: SpecFile<P>,
    second: SpecFile<P>,
)
    requires
        first.parent is Some <==> second.parent is Some,
        first.parent is Some ==> first.parent->0@ == second.parent->0@,
    ensures
        is_included(pattern, first) <==> is_included(pattern, second),
{
}

/// A file is kept for its update configuration exactly if there is one under the name of its
/// package and it is not empty, wherever the file lies.
pub proof fn law_files_are_kept_by_configuration<P>(
    files: Seq<SpecFile<P>>,
    config: Map<Seq<char>, Seq<char>>,
    file: SpecFile<P>,
)
    ensures
        files.filter(|f: SpecFile<P>| is_configured(config, f)).contains(file) <==> files.contains(
            file,
        ) && config.dom().contains(file.name@) && config[file.name@] != Seq::<char>::empty(),
{
    lemma_filter_members(files, |f: SpecFile<P>| is_configured(config, f), file);
    assert(config[file.name@].len() == 0 ==> config[file.name@] =~= Seq::<char>::empty());
}

/// A spec file is called `spec`, or anything with `.spec` behind it, and nothing else.
pub proof fn law_spec_names(stem: Seq<char>, name: Seq<char>)
    ensures
        is_spec_name("spec"@),
        is_spec_name(stem + ".spec"@),
        is_spec_name(name) ==> name == "spec"@ || exists|s: Seq<char>| name == #[trigger] (s
            + ".spec"@),
{
    let whole = stem + ".spec"@;
    let n = stem.len() as int;
    assert(whole.subrange(n, n + ".spec"@.len()) =~= ".spec"@);
    if is_spec_name(name) && name != "spec"@ {
        let s = name.take(name.len() - ".spec"@.len());
        assert(name =~= s + ".spec"@);
    }
}

/// The spec files whose directories the filter accepts, in order.
pub fn retain_included<P>(files: Vec<SpecFile<P>>, filter: &NameFilter) -> (r: Vec<SpecFile<P>>)
    ensures
        r@ == files@.filter(|f: SpecFile<P>| is_included(filter@, f)),
        forall|f: SpecFile<P>| #[trigger]
            r@.contains(f) <==> files@.contains(f) && (f.parent matches Some(parent)
                && regex_captures(filter@, parent@).len() > 0),
{
    let mut out: Vec<SpecFile<P>> = Vec::new();
    let ghost all = files@;
    let ghost keep = |f: SpecFile<P>| is_included(filter@, f);
    proof {
        reveal(Seq::filter);
    }
    assert(out@ =~= all.take(0).filter(keep));
    for file in it: files
        invariant
            it.seq() == all,
            keep == (|f: SpecFile<P>| is_included(filter@, f)),
            out@ == all.take(it.index()).filter(keep),
    {
        proof {
            reveal(Seq::filter);
            assert(all.take(it.index() + 1).drop_last() =~= all.take(it.index()));
            assert(all.take(it.index() + 1).last() == file);
        }
        let included = match &file.parent {
            Some(parent) => filter.accepts(parent.as_str()),
            None => false,
        };
        if included {
            out.push(file);
        }
    }
    assert(all.take(all.len() as int) =~= all);
    proof {
        assert forall|f: SpecFile<P>| #[trigger] out@.contains(f) <==> all.contains(f) && (
        f.parent matches Some(parent) && regex_captures(filter@, parent@).len() > 0) by {
            law_files_are_kept_by_directory(all, filter@, f);
        }
    }
    out
}

/// The spec files for which there is an update configuration, in order.
pub fn retain_configured<P>(files: Vec<SpecFile<P>>, config: &Context) -> (r: Vec<SpecFile<P>>)
    ensures
        r@ == files@.filter(|f: SpecFile<P>| is_configured(config@, f)),
        forall|f: SpecFile<P>| #[trigger]
            r@.contains(f) <==> files@.contains(f) && config@.dom().contains(f.name@)
                && config@[f.name@].len() > 0,
{
    let mut out: Vec<SpecFile<P>> = Vec::new();
    let ghost all = files@;
    let ghost keep = |f: SpecFile<P>| is_configured(config@, f);
    proof {
        reveal(Seq::filter);
    }
    assert(out@ =~= all.take(0).filter(keep));
    for file in it: files
        invariant
            it.seq() == all,
            keep == (|f: SpecFile<P>| is_configured(config@, f)),
            out@ == all.take(it.index()).filter(keep),
    {
        proof {
            reveal(Seq::filter);
            assert(all.take(it.index() + 1).drop_last() =~= all.take(it.index()));
            assert(all.take(it.index() + 1).last() == file);
        }
        let configured = match config.get(file.name.as_str()) {
            Some(value) => !value.is_empty(),
            None => false,
        };
        if configured {
            out.push(file);
        }
    }
    assert(all.take(all.len() as int) =~= all);
    proof {
        assert forall|f: SpecFile<P>| #[trigger] out@.contains(f) <==> all.contains(f)
            && config@.dom().contains(f.name@) && config@[f.name@].len() > 0 by {
            law_files_are_kept_by_configuration(all, config@, f);
        }
    }
    out
}

/// Why a TOML document was refused.
#[verifier::external_type_specification]
#[verifier::external_body]
pub struct ExTomlError(toml::de::Error);

/// The table that `toml::from_str` reads from a document whose values are all strings; none
/// where it refuses the document.
pub uninterp spec fn toml_strings(document: Seq<char>) -> Option<Map<Seq<char>, Seq<char>>>;

/// `toml::from_str` to a map from strings to strings: the table is named, not stated. A map
/// has each key once.
#[verifier::external_body]
fn read_toml(document: &str) -> (r: Result<Vec<(String, String)>, toml::de::Error>)
    ensures
        match r {
            Ok(pairs) => distinct_keys(pair_texts(pairs@)) && toml_strings(document@) == Some(
                pairs_map(pair_texts(pairs@)),
            ),
            Err(_) => toml_strings(document@) is None,
        },
{
    let table: std::collections::HashMap<String, String> = toml::from_str(document)?;
    Ok(table.into_iter().collect())
}

/// The table of some pairs.
pub fn table_of(pairs: Vec<(String, String)>) -> (r: Context)
    ensures
        r@ == pairs_map(pair_texts(pairs@)),
{
    let mut table = Context::new();
    let ghost all = pairs@;
    assert(pair_texts(all.take(0)) =~= Seq::empty());
    for pair in it: pairs
        invariant
            it.seq() == all,
            table@ == pairs_map(pair_texts(all.take(it.index()))),
    {
        proof {
            let upto = pair_texts(all.take(it.index() + 1));
            assert(upto.drop_last() =~= pair_texts(all.take(it.index())));
            assert(upto.last() == (pair.0@, pair.1@));
        }
        table.insert(pair.0, pair.1);
    }
    assert(all.take(all.len() as int) =~= all);
    table
}

/// Reads the update configurations of all packages, by their names, from a TOML document.
pub fn read_toml_config(document: &str) -> (r: Result<Context, toml::de::Error>)
    ensures
        match r {
            Ok(config) => toml_strings(document@) == Some(config@),
            Err(_) => toml_strings(document@) is None,
        },
{
    let pairs = read_toml(document)?;
    Ok(table_of(pairs))
}

} // verus!
