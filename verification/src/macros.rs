//! Which macro definitions a version depends on, directly or through other macros.

use crate::context::{
    distinct_keys, lemma_pairs_map_domain, lemma_pairs_map_value, pair_texts, pairs_map,
};
use crate::text::{same_text, texts};
use vstd::prelude::*;
use vstd::seq_lib::lemma_seq_contains_after_push;

verus! {

/// The macro that always expands to nothing; it is never looked up.
pub const NIL: &'static str = "nil";

/// A macro with its body and the names of the macros that the body refers to.
#[derive(Debug)]
pub struct MacroDef {
    pub name: String,
    pub body: String,
    pub refs: Vec<String>,
}

/// The names and bodies of some macros.
pub open spec fn bodies(defs: Seq<MacroDef>) -> Seq<(Seq<char>, Seq<char>)> {
    defs.map_values(|d: MacroDef| (d.name@, d.body@))
}

/// The names that the body of each macro refers to.
pub open spec fn graph(defs: Seq<MacroDef>) -> Map<Seq<char>, Seq<Seq<char>>> {
    pairs_map(edges(defs))
}

/// The names of some macros, and the names that their bodies refer to.
pub open spec fn edges(defs: Seq<MacroDef>) -> Seq<(Seq<char>, Seq<Seq<char>>)> {
    defs.map_values(|d: MacroDef| (d.name@, texts(d.refs@)))
}

/// `name` is defined, and its body refers to `other`.
pub open spec fn refers(
    refs: Map<Seq<char>, Seq<Seq<char>>>,
    name: Seq<char>,
    other: Seq<char>,
) -> bool {
    refs.dom().contains(name) && refs[name].contains(other)
}

/// `name` is one of `seeds`, or is reached from one of them over at most `steps` references.
pub open spec fn reachable_within(
    seeds: Seq<Seq<char>>,
    refs: Map<Seq<char>, Seq<Seq<char>>>,
    name: Seq<char>,
    steps: nat,
) -> bool
    decreases steps,
{
    &&& name != NIL@
    &&& {
        ||| seeds.contains(name)
        ||| steps > 0 && exists|via: Seq<char>| #[trigger]
            refers(refs, via, name) && reachable_within(seeds, refs, via, (steps - 1) as nat)
    }
}

/// `name` is one of `seeds`, or is reached from one of them over references.
pub open spec fn reachable(
    seeds: Seq<Seq<char>>,
    refs: Map<Seq<char>, Seq<Seq<char>>>,
    name: Seq<char>,
) -> bool {
    exists|steps: nat| reachable_within(seeds, refs, name, steps)
}

/// The definitions of the macros that are reachable.
pub open spec fn needed_bodies(
    seeds: Seq<Seq<char>>,
    bodies: Map<Seq<char>, Seq<char>>,
    refs: Map<Seq<char>, Seq<Seq<char>>>,
) -> Map<Seq<char>, Seq<char>> {
    bodies.restrict(Set::new(|name: Seq<char>| reachable(seeds, refs, name)))
}

/// What the version names is reachable, but for `nil`.
pub proof fn law_seeds_are_reachable(
    seeds: Seq<Seq<char>>,
    refs: Map<Seq<char>, Seq<Seq<char>>>,
    name: Seq<char>,
)
    requires
        seeds.contains(name),
        name != NIL@,
    ensures
        reachable(seeds, refs, name),
{
    assert(reachable_within(seeds, refs, name, 0));
}

/// What the body of a reachable macro refers to is reachable too, but for `nil`.
pub proof fn law_references_are_reachable(
    seeds: Seq<Seq<char>>,
    refs: Map<Seq<char>, Seq<Seq<char>>>,
    via: Seq<char>,
    name: Seq<char>,
)
    requires
        reachable(seeds, refs, via),
        refers(refs, via, name),
        name != NIL@,
    ensures
        reachable(seeds, refs, name),
{
    let steps = choose|steps: nat| reachable_within(seeds, refs, via, steps);
    assert(reachable_within(seeds, refs, name, steps + 1));
}

/// Nothing else is reachable: a set of names that holds the seeds and is closed under
/// references, but for `nil`, holds every reachable name.
pub proof fn law_reachable_is_least(
    seeds: Seq<Seq<char>>,
    refs: Map<Seq<char>, Seq<Seq<char>>>,
    names: Set<Seq<char>>,
    name: Seq<char>,
)
    requires
        forall|n: Seq<char>| #[trigger] seeds.contains(n) && n != NIL@ ==> names.contains(n),
        forall|via: Seq<char>, n: Seq<char>| #[trigger]
            refers(refs, via, n) && names.contains(via) && n != NIL@ ==> names.contains(n),
        reachable(seeds, refs, name),
    ensures
        names.contains(name),
{
    let steps = choose|steps: nat| reachable_within(seeds, refs, name, steps);
    lemma_reachable_within_is_least(seeds, refs, names, name, steps);
}

proof fn lemma_reachable_within_is_least(
    seeds: Seq<Seq<char>>,
    refs: Map<Seq<char>, Seq<Seq<char>>>,
    names: Set<Seq<char>>,
    name: Seq<char>,
    steps: nat,
)
    requires
        forall|n: Seq<char>| #[trigger] seeds.contains(n) && n != NIL@ ==> names.contains(n),
        forall|via: Seq<char>, n: Seq<char>| #[trigger]
            refers(refs, via, n) && names.contains(via) && n != NIL@ ==> names.contains(n),
        reachable_within(seeds, refs, name, steps),
    ensures
        names.contains(name),
    decreases steps,
{
    if !seeds.contains(name) {
        let via = choose|via: Seq<char>| #[trigger]
            refers(refs, via, name) && reachable_within(seeds, refs, via, (steps - 1) as nat);
        lemma_reachable_within_is_least(seeds, refs, names, via, (steps - 1) as nat);
    }
}

/// `nil` is never reachable.
pub proof fn law_nil_is_not_reachable(
    seeds: Seq<Seq<char>>,
    refs: Map<Seq<char>, Seq<Seq<char>>>,
)
    ensures
        !reachable(seeds, refs, NIL@),
{
}

/// The names, bodies and references of macros are seen as they are, one for one.
pub proof fn law_views_of_macros(defs: Seq<MacroDef>, i: int)
    requires
        0 <= i < defs.len(),
    ensures
        bodies(defs).len() == defs.len(),
        bodies(defs)[i] == (defs[i].name@, defs[i].body@),
        (forall|j: int| i < j < defs.len() ==> (#[trigger] defs[j]).name@ != defs[i].name@) ==> {
            &&& graph(defs).dom().contains(defs[i].name@)
            &&& graph(defs)[defs[i].name@] == texts(defs[i].refs@)
        },
{
    if forall|j: int| i < j < defs.len() ==> (#[trigger] defs[j]).name@ != defs[i].name@ {
        assert forall|j: int| i < j < edges(defs).len() implies (#[trigger] edges(defs)[j]).0
            != edges(defs)[i].0 by {
            assert(defs[j].name@ != defs[i].name@);
        }
        lemma_pairs_map_value(edges(defs), i);
    }
}

/// What is needed of some macros: the definitions of the seeds, and of what needed definitions
/// refer to, but for `nil`, each with its own body; and no other.
pub proof fn law_needed_definitions(
    seeds: Seq<String>,
    defs: Seq<MacroDef>,
    names: Set<Seq<char>>,
    d: int,
    e: int,
)
    requires
        forall|i: int, j: int|
            0 <= i < j < defs.len() ==> (#[trigger] defs[i]).name@ != (#[trigger] defs[j]).name@,
        0 <= d < defs.len(),
        0 <= e < defs.len(),
    ensures
        ({
            let needed = needed_bodies(texts(seeds), pairs_map(bodies(defs)), graph(defs));
            let (name, other) = (defs[d].name@, defs[e].name@);
            &&& name != "nil"@ && (exists|i: int|
                0 <= i < seeds.len() && #[trigger] seeds[i]@ == name) ==> needed.dom().contains(
                name,
            )
            &&& other != "nil"@ && needed.dom().contains(name) && (exists|k: int|
                0 <= k < defs[d].refs@.len() && #[trigger] defs[d].refs@[k]@ == other)
                ==> needed.dom().contains(other)
            &&& needed.dom().contains(name) ==> needed[name] == defs[d].body@ && name != "nil"@
            &&& forall|n: Seq<char>| #[trigger]
                needed.dom().contains(n) ==> exists|i: int|
                    0 <= i < defs.len() && (#[trigger] defs[i]).name@ == n
            &&& needed.dom().contains(name) && (forall|i: int|
                0 <= i < seeds.len() && seeds[i]@ != "nil"@ ==> names.contains(
                    #[trigger] seeds[i]@,
                )) && (forall|i: int, k: int|
                #![trigger defs[i].refs@[k]]
                0 <= i < defs.len() && names.contains(defs[i].name@) && 0 <= k
                    < defs[i].refs@.len() && defs[i].refs@[k]@ != "nil"@ ==> names.contains(
                    defs[i].refs@[k]@,
                )) ==> names.contains(name)
        }),
{
    let start = texts(seeds);
    let refs = graph(defs);
    let table = pairs_map(bodies(defs));
    let needed = needed_bodies(start, table, refs);
    let (name, other) = (defs[d].name@, defs[e].name@);
    assert(distinct_keys(bodies(defs))) by {
        assert forall|i: int, j: int| 0 <= i < j < bodies(defs).len() implies (
        #[trigger] bodies(defs)[i]).0 != (#[trigger] bodies(defs)[j]).0 by {
            assert(defs[i].name@ != defs[j].name@);
        }
    }
    lemma_only_def(defs, d);
    lemma_only_def(defs, e);
    assert(bodies(defs)[d] == (name, defs[d].body@));
    assert(bodies(defs)[e] == (other, defs[e].body@));
    lemma_pairs_map_value(bodies(defs), d);
    lemma_pairs_map_value(bodies(defs), e);
    if name != "nil"@ && exists|i: int| 0 <= i < seeds.len() && #[trigger] seeds[i]@ == name {
        let i = choose|i: int| 0 <= i < seeds.len() && #[trigger] seeds[i]@ == name;
        assert(start[i] == name);
        law_seeds_are_reachable(start, refs, name);
    }
    if other != "nil"@ && needed.dom().contains(name) && exists|k: int|
        0 <= k < defs[d].refs@.len() && #[trigger] defs[d].refs@[k]@ == other {
        let k = choose|k: int|
            0 <= k < defs[d].refs@.len() && #[trigger] defs[d].refs@[k]@ == other;
        assert(texts(defs[d].refs@)[k] == other);
        law_references_are_reachable(start, refs, name, other);
    }
    law_nil_is_not_reachable(start, refs);
    assert forall|n: Seq<char>| #[trigger] needed.dom().contains(n) implies exists|i: int|
        0 <= i < defs.len() && (#[trigger] defs[i]).name@ == n by {
        lemma_pairs_map_domain(bodies(defs), n);
        let i = choose|i: int| 0 <= i < bodies(defs).len() && (#[trigger] bodies(defs)[i]).0 == n;
        assert(defs[i].name@ == n);
    }
    if needed.dom().contains(name) && (forall|i: int|
        0 <= i < seeds.len() && seeds[i]@ != "nil"@ ==> names.contains(#[trigger] seeds[i]@)) && (
    forall|i: int, k: int|
        #![trigger defs[i].refs@[k]]
        0 <= i < defs.len() && names.contains(defs[i].name@) && 0 <= k < defs[i].refs@.len()
            && defs[i].refs@[k]@ != "nil"@ ==> names.contains(defs[i].refs@[k]@)) {
        assert forall|n: Seq<char>| #[trigger]
            start.contains(n) && n != NIL@ implies names.contains(n) by {
            let i = choose|i: int| 0 <= i < start.len() && start[i] == n;
            assert(seeds[i]@ == n);
        }
        assert forall|via: Seq<char>, n: Seq<char>| #[trigger]
            refers(refs, via, n) && names.contains(via) && n != NIL@ implies names.contains(n) by {
            lemma_pairs_map_domain(edges(defs), via);
            let i = choose|i: int|
                0 <= i < edges(defs).len() && (#[trigger] edges(defs)[i]).0 == via;
            lemma_only_def(defs, i);
            assert(defs[i].name@ == via);
            let k = choose|k: int|
                0 <= k < texts(defs[i].refs@).len() && texts(defs[i].refs@)[k] == n;
            assert(defs[i].refs@[k]@ == n);
        }
        law_reachable_is_least(start, refs, names, name);
    }
}

/// Whether `name` is among `names`.
fn is_among(names: &Vec<String>, name: &str) -> (r: bool)
    ensures
        r == texts(names@).contains(name@),
{
    let n: usize = names.len();
    let mut i: usize = 0;
    while i < n
        invariant
            i <= n,
            n == names@.len(),
            forall|k: int| 0 <= k < i ==> (#[trigger] texts(names@)[k]) != name@,
        decreases n - i,
    {
        if same_text(names[i].as_str(), name) {
            assert(texts(names@)[i as int] == name@);
            return true;
        }
        i += 1;
    }
    false
}

/// The place of the definition of `name`.
fn find_def(defs: &Vec<MacroDef>, name: &str) -> (r: Option<usize>)
    ensures
        match r {
            Some(i) => i < defs@.len() && defs@[i as int].name@ == name@,
            None => forall|i: int| 0 <= i < defs@.len() ==> (#[trigger] defs@[i]).name@ != name@,
        },
{
    let n: usize = defs.len();
    let mut i: usize = 0;
    while i < n
        invariant
            i <= n,
            n == defs@.len(),
            forall|k: int| 0 <= k < i ==> (#[trigger] defs@[k]).name@ != name@,
        decreases n - i,
    {
        if same_text(defs[i].name.as_str(), name) {
            return Some(i);
        }
        i += 1;
    }
    None
}

/// Appends to `seen` those of `names` that it lacks, but for `nil`.
fn visit(seen: &mut Vec<String>, names: &Vec<String>)
    requires
        texts(old(seen)@).no_duplicates(),
    ensures
        texts(final(seen)@).no_duplicates(),
        old(seen)@.len() <= final(seen)@.len(),
        final(seen)@.take(old(seen)@.len() as int) == old(seen)@,
        forall|n: Seq<char>| #[trigger]
            texts(final(seen)@).contains(n) <==> texts(old(seen)@).contains(n) || (texts(
                names@,
            ).contains(n) && n != NIL@),
{
    let ghost before = seen@;
    let n: usize = names.len();
    let mut i: usize = 0;
    let ghost all = texts(names@);
    while i < n
        invariant
            i <= n,
            n == names@.len(),
            all == texts(names@),
            texts(seen@).no_duplicates(),
            before.len() <= seen@.len(),
            seen@.take(before.len() as int) == before,
            forall|s: Seq<char>| #[trigger]
                texts(seen@).contains(s) <==> texts(before).contains(s) || (all.take(
                    i as int,
                ).contains(s) && s != NIL@),
        decreases n - i,
    {
        let name = names[i].as_str();
        let ghost earlier = seen@;
        let ghost upto = all.take(i as int);
        assert(all.take(i + 1) =~= upto.push(name@));
        assert forall|s: Seq<char>| #[trigger]
            all.take(i + 1).contains(s) <==> upto.contains(s) || s == name@ by {
            lemma_seq_contains_after_push(upto, name@, s);
        }
        if !same_text(name, NIL) && !is_among(seen, name) {
            seen.push(name.to_string());
            assert(texts(seen@) =~= texts(earlier).push(name@));
            assert forall|s: Seq<char>| #[trigger]
                texts(seen@).contains(s) <==> texts(earlier).contains(s) || s == name@ by {
                lemma_seq_contains_after_push(texts(earlier), name@, s);
            }
            assert(seen@.take(before.len() as int) =~= earlier.take(before.len() as int));
            assert(texts(seen@).no_duplicates()) by {
                assert forall|a: int, b: int|
                    0 <= a < texts(seen@).len() && 0 <= b < texts(seen@).len() && a
                        != b implies texts(seen@)[a] != texts(seen@)[b] by {
                    if a == earlier.len() {
                        assert(texts(earlier).contains(texts(earlier)[b]));
                    }
                    if b == earlier.len() {
                        assert(texts(earlier).contains(texts(earlier)[a]));
                    }
                }
            }
        }
        i += 1;
    }
    assert(all.take(n as int) =~= all);
}

/// The definitions that are reached from `seeds`, each of them once.
///
/// The names that were met stand in one list, in the order in which they were met; those
/// before `next` have been looked up, the others are still to be.
pub fn needed_macros(seeds: &Vec<String>, defs: &Vec<MacroDef>) -> (r: Vec<(String, String)>)
    requires
        distinct_keys(bodies(defs@)),
    ensures
        distinct_keys(pair_texts(r@)),
        pairs_map(pair_texts(r@)) == needed_bodies(
            texts(seeds@),
            pairs_map(bodies(defs@)),
            graph(defs@),
        ),
{
    let mut seen: Vec<String> = Vec::new();
    let mut needed: Vec<(String, String)> = Vec::new();
    let mut next: usize = 0;
    let ghost start = texts(seeds@);
    let ghost refs = graph(defs@);
    let ghost mut open: Set<int> = Set::new(|d: int| 0 <= d < defs@.len());
    proof {
        vstd::set_lib::lemma_int_range(0, defs@.len() as int);
        assert(open =~= vstd::set_lib::set_int_range(0, defs@.len() as int));
        assert(texts(seen@) =~= Seq::empty());
    }
    visit(&mut seen, seeds);
    proof {
        assert forall|n: Seq<char>| #[trigger] texts(seen@).contains(n) implies reachable(
            start,
            refs,
            n,
        ) by {
            law_seeds_are_reachable(start, refs, n);
        }
    }
    while next < seen.len()
        invariant
            start == texts(seeds@),
            refs == graph(defs@),
            distinct_keys(bodies(defs@)),
            next <= seen@.len(),
            texts(seen@).no_duplicates(),
            forall|n: Seq<char>| #[trigger]
                texts(seen@).contains(n) ==> reachable(start, refs, n),
            forall|n: Seq<char>| #[trigger]
                start.contains(n) && n != NIL@ ==> texts(seen@).contains(n),
            forall|k: int, n: Seq<char>|
                0 <= k < next && n != NIL@ && #[trigger] refers(refs, texts(seen@)[k], n)
                    ==> texts(seen@).contains(n),
            open.finite(),
            forall|d: int| #[trigger]
                open.contains(d) <==> 0 <= d < defs@.len() && !texts(seen@).take(
                    next as int,
                ).contains(defs@[d].name@),
            distinct_keys(pair_texts(needed@)),
            forall|k: int|
                0 <= k < needed@.len() ==> {
                    &&& texts(seen@).take(next as int).contains((#[trigger] needed@[k]).0@)
                    &&& bodies(defs@).contains((needed@[k].0@, needed@[k].1@))
                },
            forall|d: int|
                0 <= d < defs@.len() && texts(seen@).take(next as int).contains(
                    (#[trigger] defs@[d]).name@,
                ) ==> pair_texts(needed@).contains((defs@[d].name@, defs@[d].body@)),
        decreases open.len(), seen@.len() - next,
    {
        let name = seen[next].clone();
        let ghost seen0 = seen@;
        let ghost needed0 = needed@;
        let ghost at = next as int;
        proof {
            assert(texts(seen0).take(at + 1) =~= texts(seen0).take(at).push(name@));
            assert forall|s: Seq<char>| #[trigger]
                texts(seen0).take(at + 1).contains(s) <==> texts(seen0).take(at).contains(s) || s
                    == name@ by {
                lemma_seq_contains_after_push(texts(seen0).take(at), name@, s);
            }
            assert(texts(seen0)[at] == name@);
            assert(texts(seen0).contains(name@));
            if texts(seen0).take(at).contains(name@) {
                let k = choose|k: int| 0 <= k < at && texts(seen0).take(at)[k] == name@;
                assert(texts(seen0)[k] == name@);
            }
        }
        next += 1;
        match find_def(defs, name.as_str()) {
            Some(d) => {
                needed.push((name.clone(), defs[d].body.clone()));
                visit(&mut seen, &defs[d].refs);
                proof {
                    let di = d as int;
                    let added = (name@, defs@[di].body@);
                    assert(open.contains(di));
                    open = open.remove(di);
                    lemma_prefix_texts(seen0, seen@);
                    assert(texts(seen@).take(at + 1) =~= texts(seen0).take(at + 1));
                    lemma_only_def(defs@, di);
                    assert(pair_texts(needed@) =~= pair_texts(needed0).push(added));
                    assert(bodies(defs@)[di] == added);
                    // What was met is reachable.
                    assert forall|n: Seq<char>| #[trigger]
                        texts(seen@).contains(n) implies reachable(start, refs, n) by {
                        if !texts(seen0).contains(n) {
                            assert(refers(refs, name@, n));
                            law_references_are_reachable(start, refs, name@, n);
                        }
                    }
                    // The references of what was looked up have been met.
                    assert forall|k: int, n: Seq<char>|
                        0 <= k < next && n != NIL@ && #[trigger] refers(
                            refs,
                            texts(seen@)[k],
                            n,
                        ) implies texts(seen@).contains(n) by {
                        assert(texts(seen@)[k] == texts(seen0)[k]);
                        if k == at {
                            assert(texts(defs@[di].refs@).contains(n));
                        } else {
                            assert(texts(seen0).contains(n));
                        }
                    }
                    // The new definition is not listed yet.
                    assert(distinct_keys(pair_texts(needed@))) by {
                        assert forall|a: int, b: int|
                            0 <= a < b < pair_texts(needed@).len() implies (
                        #[trigger] pair_texts(needed@)[a]).0 != (
                        #[trigger] pair_texts(needed@)[b]).0 by {
                            assert(pair_texts(needed@)[a] == pair_texts(needed0)[a]);
                            assert(texts(seen0).take(at).contains(needed0[a].0@));
                            if b < needed0.len() {
                                assert(pair_texts(needed@)[b] == pair_texts(needed0)[b]);
                            }
                        }
                    }
                    assert forall|k: int| 0 <= k < needed@.len() implies {
                        &&& texts(seen@).take(next as int).contains((#[trigger] needed@[k]).0@)
                        &&& bodies(defs@).contains((needed@[k].0@, needed@[k].1@))
                    } by {
                        if k < needed0.len() {
                            assert(needed@[k] == needed0[k]);
                        }
                    }
                    assert forall|e: int|
                        0 <= e < defs@.len() && texts(seen@).take(next as int).contains(
                            (#[trigger] defs@[e]).name@,
                        ) implies pair_texts(needed@).contains(
                        (defs@[e].name@, defs@[e].body@),
                    ) by {
                        lemma_seq_contains_after_push(
                            pair_texts(needed0),
                            added,
                            (defs@[e].name@, defs@[e].body@),
                        );
                        if defs@[e].name@ == name@ {
                            assert(e == di);
                        }
                    }
                }
            },
            None => {
                proof {
                    lemma_undefined(defs@, name@);
                    assert forall|d: int| #[trigger]
                        open.contains(d) <==> 0 <= d < defs@.len() && !texts(seen@).take(
                            next as int,
                        ).contains(defs@[d].name@) by {
                        if 0 <= d < defs@.len() {
                            assert(defs@[d].name@ != name@);
                        }
                    }
                }
            },
        }
    }
    proof {
        assert(texts(seen@).take(next as int) =~= texts(seen@));
        lemma_needed(start, defs@, texts(seen@), pair_texts(needed@));
    }
    needed
}

proof fn lemma_prefix_texts(short: Seq<String>, long: Seq<String>)
    requires
        short.len() <= long.len(),
        long.take(short.len() as int) == short,
    ensures
        forall|k: int| 0 <= k < short.len() ==> #[trigger] texts(long)[k] == texts(short)[k],
{
    assert forall|k: int| 0 <= k < short.len() implies #[trigger] texts(long)[k] == texts(
        short,
    )[k] by {
        assert(long.take(short.len() as int)[k] == long[k]);
    }
}

/// Where names are distinct, a name has one definition.
proof fn lemma_only_def(defs: Seq<MacroDef>, d: int)
    requires
        distinct_keys(bodies(defs)),
        0 <= d < defs.len(),
    ensures
        forall|e: int|
            0 <= e < defs.len() && (#[trigger] defs[e]).name@ == defs[d].name@ ==> e == d,
        graph(defs).dom().contains(defs[d].name@),
        graph(defs)[defs[d].name@] == texts(defs[d].refs@),
{
    assert forall|e: int|
        0 <= e < defs.len() && (#[trigger] defs[e]).name@ == defs[d].name@ implies e == d by {
        assert(bodies(defs)[e].0 == bodies(defs)[d].0);
    }
    assert forall|e: int| d < e < edges(defs).len() implies (#[trigger] edges(defs)[e]).0
        != edges(defs)[d].0 by {
        assert(bodies(defs)[d].0 != bodies(defs)[e].0);
    }
    lemma_pairs_map_value(edges(defs), d);
}

/// What has no definition refers to nothing.
proof fn lemma_undefined(defs: Seq<MacroDef>, name: Seq<char>)
    requires
        forall|i: int| 0 <= i < defs.len() ==> (#[trigger] defs[i]).name@ != name,
    ensures
        !graph(defs).dom().contains(name),
{
    lemma_pairs_map_domain(edges(defs), name);
    assert forall|i: int| 0 <= i < edges(defs).len() implies (#[trigger] edges(defs)[i]).0
        != name by {
        assert(defs[i].name@ != name);
    }
}

/// A list of pairs is the table of what is needed, where it holds the definitions of the names
/// that were met, and the names that were met are those that are reachable.
proof fn lemma_needed(
    seeds: Seq<Seq<char>>,
    defs: Seq<MacroDef>,
    seen: Seq<Seq<char>>,
    needed: Seq<(Seq<char>, Seq<char>)>,
)
    requires
        distinct_keys(bodies(defs)),
        distinct_keys(needed),
        forall|n: Seq<char>| #[trigger] seen.contains(n) ==> reachable(seeds, graph(defs), n),
        forall|n: Seq<char>| #[trigger] seeds.contains(n) && n != NIL@ ==> seen.contains(n),
        forall|k: int, n: Seq<char>|
            0 <= k < seen.len() && n != NIL@ && #[trigger] refers(graph(defs), seen[k], n)
                ==> seen.contains(n),
        forall|k: int|
            0 <= k < needed.len() ==> {
                &&& seen.contains((#[trigger] needed[k]).0)
                &&& bodies(defs).contains((needed[k].0, needed[k].1))
            },
        forall|d: int|
            0 <= d < defs.len() && seen.contains((#[trigger] defs[d]).name@) ==> needed.contains(
                (defs[d].name@, defs[d].body@),
            ),
    ensures
        pairs_map(needed) == needed_bodies(seeds, pairs_map(bodies(defs)), graph(defs)),
{
    let names = Set::new(|n: Seq<char>| seen.contains(n));
    let all = needed_bodies(seeds, pairs_map(bodies(defs)), graph(defs));
    assert forall|via: Seq<char>, n: Seq<char>| #[trigger]
        refers(graph(defs), via, n) && names.contains(via) && n != NIL@ implies names.contains(
        n,
    ) by {
        let k = choose|k: int| 0 <= k < seen.len() && seen[k] == via;
        assert(refers(graph(defs), seen[k], n));
    }
    assert forall|name: Seq<char>| #[trigger]
        pairs_map(needed).dom().contains(name) <==> all.dom().contains(name) by {
        lemma_pairs_map_domain(needed, name);
        lemma_pairs_map_domain(bodies(defs), name);
        if pairs_map(needed).dom().contains(name) {
            let k = choose|k: int| 0 <= k < needed.len() && (#[trigger] needed[k]).0 == name;
            let d = choose|d: int|
                0 <= d < bodies(defs).len() && bodies(defs)[d] == (needed[k].0, needed[k].1);
            assert(bodies(defs)[d].0 == name);
            assert(reachable(seeds, graph(defs), name));
        }
        if all.dom().contains(name) {
            law_reachable_is_least(seeds, graph(defs), names, name);
            let d = choose|d: int|
                0 <= d < bodies(defs).len() && (#[trigger] bodies(defs)[d]).0 == name;
            assert(defs[d].name@ == name);
            let pair = (defs[d].name@, defs[d].body@);
            let k = choose|k: int| 0 <= k < needed.len() && needed[k] == pair;
            assert(needed[k].0 == name);
        }
    }
    assert forall|name: Seq<char>| #[trigger] pairs_map(needed).dom().contains(
        name,
    ) implies pairs_map(needed)[name] == all[name] by {
        lemma_pairs_map_domain(needed, name);
        let k = choose|k: int| 0 <= k < needed.len() && (#[trigger] needed[k]).0 == name;
        let d = choose|d: int|
            0 <= d < bodies(defs).len() && bodies(defs)[d] == (needed[k].0, needed[k].1);
        lemma_pairs_map_value(needed, k);
        lemma_pairs_map_value(bodies(defs), d);
    }
    assert(pairs_map(needed) =~= all);
}

} // verus!
