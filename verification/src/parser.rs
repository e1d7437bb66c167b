//! The update configuration of a package, a line of the form `type::key=value;key=value;`.
//!
//! Each parser takes its input by mutable reference and moves it past what it has read.
//! The specification functions give, for an input, what is read and what input is left,
//! on failure too.

use crate::context::{lemma_pairs_map_domain, lemma_pairs_map_value, pairs_map, Context};
use crate::text::{
    find_text, first_at, first_occurrence, lemma_first_occurrence, occurs, occurs_at,
};
use vstd::prelude::*;

verus! {

/// What stands between the type of a configuration and its pairs.
pub const CONFIG_SEPARATOR: &'static str = "::";

/// What stands between a key and its value.
pub const KEY_SEPARATOR: &'static str = "=";

/// What stands behind a value.
pub const PAIR_END: &'static str = ";";

/// The key under which a configuration holds its type.
pub const TYPE_KEY: &'static str = "type";

/// The input is no configuration line.
#[derive(Clone, Copy, Debug, PartialEq, Eq, Structural)]
pub struct InvalidConfig;

impl InvalidConfig {
    /// The error as text.
    pub fn message(&self) -> (r: String)
        ensures
            r@ == "Invalid config line: Parsing Error: ContextError { context: [], cause: None }"@,
    {
        "Invalid config line: Parsing Error: ContextError { context: [], cause: None }".to_string()
    }
}

/// What a key is made of: ASCII letters, ASCII digits and underscores.
pub open spec fn is_key_char(c: char) -> bool {
    ||| 'a' <= c <= 'z'
    ||| 'A' <= c <= 'Z'
    ||| '0' <= c <= '9'
    ||| c == '_'
}

/// The number of key characters at the front of `s`.
pub open spec fn key_len(s: Seq<char>) -> nat
    decreases s.len(),
{
    if s.len() > 0 && is_key_char(s[0]) {
        1 + key_len(s.drop_first())
    } else {
        0
    }
}

/// The text before the first `mark`, which stays in the input.
pub open spec fn read_until(s: Seq<char>, mark: Seq<char>) -> (Option<Seq<char>>, Seq<char>) {
    match first_occurrence(s, mark) {
        Some(i) => (Some(s.take(i)), s.skip(i)),
        None => (None, s),
    }
}

/// As many key characters as there are, at least one.
pub open spec fn read_key(s: Seq<char>) -> (Option<Seq<char>>, Seq<char>) {
    let n = key_len(s) as int;
    if n > 0 {
        (Some(s.take(n)), s.skip(n))
    } else {
        (None, s)
    }
}

/// A key, an equals sign and the value up to the first semicolon, which stays in the input.
/// A failure leaves the input behind the last part that was read.
pub open spec fn read_pair(s: Seq<char>) -> (Option<(Seq<char>, Seq<char>)>, Seq<char>) {
    match read_key(s) {
        (None, rest) => (None, rest),
        (Some(key), rest) => if rest.len() > 0 && rest[0] == '=' {
            match read_until(rest.skip(1), PAIR_END@) {
                (None, end) => (None, end),
                (Some(value), end) => (Some((key, value)), end),
            }
        } else {
            (None, rest)
        },
    }
}

/// As many pairs as there are, each with its semicolon.
pub open spec fn read_more_pairs(s: Seq<char>) -> (Seq<(Seq<char>, Seq<char>)>, Seq<char>)
    decreases s.len(),
{
    match read_pair(s) {
        (Some(pair), rest) if 0 < rest.len() <= s.len() => {
            let (pairs, end) = read_more_pairs(rest.skip(1));
            (seq![pair] + pairs, end)
        },
        _ => (Seq::empty(), s),
    }
}

/// As many pairs as there are, at least one.
pub open spec fn read_pairs(s: Seq<char>) -> (
    Option<Seq<(Seq<char>, Seq<char>)>>,
    Seq<char>,
) {
    match read_pair(s) {
        (None, rest) => (None, rest),
        (Some(pair), rest) => {
            let (pairs, end) = read_more_pairs(rest.skip(1));
            (Some(seq![pair] + pairs), end)
        },
    }
}

/// A type, the separator and pairs.
pub open spec fn read_line(s: Seq<char>) -> (
    Option<(Seq<char>, Seq<(Seq<char>, Seq<char>)>)>,
    Seq<char>,
) {
    match read_until(s, CONFIG_SEPARATOR@) {
        (None, rest) => (None, rest),
        (Some(kind), rest) => match read_pairs(rest.skip(2)) {
            (None, end) => (None, end),
            (Some(pairs), end) => (Some((kind, pairs)), end),
        },
    }
}

/// The table of a configuration: its type under the key `type`, then the pairs in order.
pub open spec fn config_map(
    kind: Seq<char>,
    pairs: Seq<(Seq<char>, Seq<char>)>,
) -> Map<Seq<char>, Seq<char>> {
    pairs_map(seq![(TYPE_KEY@, kind)] + pairs)
}

/// The views of some borrowed pairs.
pub open spec fn str_pairs(pairs: Seq<(&str, &str)>) -> Seq<(Seq<char>, Seq<char>)> {
    pairs.map_values(|p: (&str, &str)| (p.0@, p.1@))
}

proof fn lemma_key_len(s: Seq<char>)
    ensures
        key_len(s) <= s.len(),
        forall|i: int| 0 <= i < key_len(s) ==> is_key_char(#[trigger] s[i]),
        key_len(s) < s.len() ==> !is_key_char(s[key_len(s) as int]),
    decreases s.len(),
{
    if s.len() > 0 && is_key_char(s[0]) {
        let rest = s.drop_first();
        lemma_key_len(rest);
        assert forall|i: int| 0 <= i < key_len(s) implies is_key_char(#[trigger] s[i]) by {
            if i > 0 {
                assert(s[i] == rest[i - 1]);
            }
        }
    }
}

proof fn lemma_key_len_is(s: Seq<char>, n: nat)
    requires
        n <= s.len(),
        forall|i: int| 0 <= i < n ==> is_key_char(#[trigger] s[i]),
        n < s.len() ==> !is_key_char(s[n as int]),
    ensures
        key_len(s) == n,
{
    lemma_key_len(s);
    let m = key_len(s);
    if m < n {
        assert(is_key_char(s[m as int]));
    }
}

/// Where an occurrence is found, it lies inside the text and is the leftmost.
proof fn lemma_occurrence_bounds(s: Seq<char>, pat: Seq<char>)
    ensures
        first_occurrence(s, pat) matches Some(i) ==> first_at(s, pat, i),
{
    if occurs(s, pat) {
        let k = choose|k: int| occurs_at(s, pat, k);
        lemma_least_occurrence(s, pat, k);
    }
}

proof fn lemma_least_occurrence(s: Seq<char>, pat: Seq<char>, k: int)
    requires
        occurs_at(s, pat, k),
    ensures
        exists|i: int| first_at(s, pat, i),
    decreases k,
{
    if forall|j: int| 0 <= j < k ==> !occurs_at(s, pat, j) {
        assert(first_at(s, pat, k));
    } else {
        let j = choose|j: int| 0 <= j < k && occurs_at(s, pat, j);
        lemma_least_occurrence(s, pat, j);
    }
}

/// A pair that was read and the semicolon behind it are what the input starts with.
proof fn lemma_read_pair(s: Seq<char>)
    ensures
        read_pair(s).1.len() <= s.len(),
        read_pair(s) matches (Some(pair), rest) ==> {
            &&& valid_pair(pair)
            &&& rest.len() > 0
            &&& rest[0] == ';'
            &&& rest.len() + 2 <= s.len()
            &&& s == rendered_pair(pair) + rest.skip(1)
        },
{
    reveal_strlit(";");
    reveal_strlit("=");
    lemma_key_len(s);
    let n = key_len(s) as int;
    let rest = s.skip(n);
    if n > 0 && rest.len() > 0 && rest[0] == '=' {
        let tail = rest.skip(1);
        lemma_occurrence_bounds(tail, ";"@);
        if let Some(i) = first_occurrence(tail, ";"@) {
            let key = s.take(n);
            let value = tail.take(i);
            let end = tail.skip(i);
            assert(tail.subrange(i, i + 1)[0] == ';');
            assert(end[0] == ';');
            assert forall|j: int| 0 <= j < value.len() implies #[trigger] value[j] != ';' by {
                assert(!occurs_at(tail, ";"@, j));
                if tail[j] == ';' {
                    assert(tail.subrange(j, j + 1) =~= ";"@);
                }
            }
            assert(s =~= key + "="@ + value + ";"@ + end.skip(1));
        }
    }
}

/// A pair that a configuration line can hold: the key is made of key characters and not
/// empty, the value has no semicolon.
pub open spec fn valid_pair(pair: (Seq<char>, Seq<char>)) -> bool {
    &&& pair.0.len() > 0
    &&& forall|i: int| 0 <= i < pair.0.len() ==> is_key_char(#[trigger] pair.0[i])
    &&& forall|i: int| 0 <= i < pair.1.len() ==> #[trigger] pair.1[i] != ';'
}

/// A pair as it is written.
pub open spec fn rendered_pair(pair: (Seq<char>, Seq<char>)) -> Seq<char> {
    pair.0 + KEY_SEPARATOR@ + pair.1 + PAIR_END@
}

/// Pairs as they are written.
pub open spec fn rendered_pairs(pairs: Seq<(Seq<char>, Seq<char>)>) -> Seq<char>
    decreases pairs.len(),
{
    if pairs.len() == 0 {
        Seq::empty()
    } else {
        rendered_pair(pairs[0]) + rendered_pairs(pairs.drop_first())
    }
}

/// A configuration as it is written.
pub open spec fn rendered_line(
    kind: Seq<char>,
    pairs: Seq<(Seq<char>, Seq<char>)>,
) -> Seq<char> {
    kind + CONFIG_SEPARATOR@ + rendered_pairs(pairs)
}

proof fn lemma_read_rendered_pair(pair: (Seq<char>, Seq<char>), tail: Seq<char>)
    requires
        valid_pair(pair),
    ensures
        read_pair(rendered_pair(pair) + tail).0 == Some(pair),
        read_pair(rendered_pair(pair) + tail).1 == PAIR_END@ + tail,
{
    reveal_strlit(";");
    reveal_strlit("=");
    let s = rendered_pair(pair) + tail;
    let n = pair.0.len();
    assert(s[n as int] == '=');
    assert forall|i: int| 0 <= i < n implies is_key_char(#[trigger] s[i]) by {
        assert(s[i] == pair.0[i]);
    }
    lemma_key_len_is(s, n);
    assert(s.take(n as int) =~= pair.0);
    let after = s.skip(n as int).skip(1);
    let m = pair.1.len() as int;
    assert(after =~= pair.1 + ";"@ + tail);
    assert(after.subrange(m, m + 1) =~= ";"@);
    assert forall|j: int| 0 <= j < m implies !occurs_at(after, ";"@, j) by {
        assert(pair.1[j] != ';');
        assert(after[j] == pair.1[j]);
        if occurs_at(after, ";"@, j) {
            assert(after.subrange(j, j + 1)[0] == after[j]);
        }
    }
    lemma_first_occurrence(after, ";"@, m);
    assert(after.take(m) =~= pair.1);
    assert(after.skip(m) =~= ";"@ + tail);
}

proof fn lemma_read_rendered_pairs(pairs: Seq<(Seq<char>, Seq<char>)>, tail: Seq<char>)
    requires
        forall|i: int| 0 <= i < pairs.len() ==> valid_pair(#[trigger] pairs[i]),
    ensures
        read_more_pairs(rendered_pairs(pairs) + tail) == (
            pairs + read_more_pairs(tail).0,
            read_more_pairs(tail).1,
        ),
    decreases pairs.len(),
{
    reveal_strlit(";");
    let s = rendered_pairs(pairs) + tail;
    if pairs.len() > 0 {
        let others = pairs.drop_first();
        assert forall|i: int| 0 <= i < others.len() implies valid_pair(#[trigger] others[i]) by {
            assert(others[i] == pairs[i + 1]);
        }
        lemma_read_rendered_pairs(others, tail);
        assert(s =~= rendered_pair(pairs[0]) + (rendered_pairs(others) + tail));
        lemma_read_rendered_pair(pairs[0], rendered_pairs(others) + tail);
        lemma_read_pair(s);
        let rest = read_pair(s).1;
        assert(rest.skip(1) =~= rendered_pairs(others) + tail);
        let more = read_more_pairs(tail).0;
        assert(seq![pairs[0]] + (others + more) =~= pairs + more);
    } else {
        assert(s =~= tail);
        assert(pairs + read_more_pairs(tail).0 =~= read_more_pairs(tail).0);
    }
}

proof fn lemma_read_more_pairs(s: Seq<char>)
    ensures
        ({
            let (pairs, rest) = read_more_pairs(s);
            &&& s == rendered_pairs(pairs) + rest
            &&& forall|i: int| 0 <= i < pairs.len() ==> valid_pair(#[trigger] pairs[i])
        }),
    decreases s.len(),
{
    let (pairs, end) = read_more_pairs(s);
    lemma_read_pair(s);
    match read_pair(s) {
        (Some(pair), rest) if 0 < rest.len() <= s.len() => {
            lemma_read_more_pairs(rest.skip(1));
            let others = read_more_pairs(rest.skip(1)).0;
            assert(pairs.drop_first() =~= others);
            assert forall|i: int| 0 <= i < pairs.len() implies valid_pair(
                #[trigger] pairs[i],
            ) by {
                if i > 0 {
                    assert(pairs[i] == others[i - 1]);
                }
            }
            assert(s =~= rendered_pairs(pairs) + end);
        },
        _ => {
            assert(s =~= rendered_pairs(pairs) + end);
        },
    }
}

/// A configuration that is written down reads back as it was, and what stands behind it is
/// left, unless that starts with another pair; then the pairs that follow are read too. The
/// type must not run into the separator: neither it nor it with one more colon may hold the
/// separator.
pub proof fn law_config_round_trip(
    kind: Seq<char>,
    pairs: Seq<(Seq<char>, Seq<char>)>,
    tail: Seq<char>,
)
    requires
        !occurs(kind + seq![':'], CONFIG_SEPARATOR@),
        pairs.len() > 0,
        forall|i: int| 0 <= i < pairs.len() ==> valid_pair(#[trigger] pairs[i]),
    ensures
        read_pair(tail).0 is None ==> read_line(rendered_line(kind, pairs) + tail) == (
            Some((kind, pairs)),
            tail,
        ),
        read_line(rendered_line(kind, pairs) + tail) == (
            Some((kind, pairs + read_more_pairs(tail).0)),
            read_more_pairs(tail).1,
        ),
{
    reveal_strlit("::");
    reveal_strlit(";");
    let s = rendered_line(kind, pairs) + tail;
    let n = kind.len() as int;
    let sep = CONFIG_SEPARATOR@;
    assert(s.subrange(n, n + 2) =~= sep);
    assert forall|j: int| 0 <= j < n implies !occurs_at(s, sep, j) by {
        if occurs_at(s, sep, j) {
            assert(s.subrange(j, j + 2)[0] == s[j]);
            assert(s.subrange(j, j + 2)[1] == s[j + 1]);
            let t = kind + seq![':'];
            assert(t.subrange(j, j + 2) =~= sep);
            assert(occurs_at(t, sep, j));
        }
    }
    lemma_first_occurrence(s, sep, n);
    assert(s.take(n) =~= kind);
    assert(s.skip(n).skip(2) =~= rendered_pairs(pairs) + tail);
    lemma_read_rendered_pairs(pairs, tail);
    lemma_read_pair(rendered_pairs(pairs) + tail);
    if read_pair(tail).0 is None {
        assert(pairs + read_more_pairs(tail).0 =~= pairs);
    }
}

/// The semicolon behind the last pair can be left out of an update configuration: with one
/// added, the line reads the same whether it had one or not.
pub proof fn law_last_semicolon_is_optional(
    kind: Seq<char>,
    pairs: Seq<(Seq<char>, Seq<char>)>,
    raw: Seq<char>,
)
    requires
        !occurs(kind + seq![':'], CONFIG_SEPARATOR@),
        pairs.len() > 0,
        forall|i: int| 0 <= i < pairs.len() ==> valid_pair(#[trigger] pairs[i]),
        raw == rendered_line(kind, pairs) || raw + PAIR_END@ == rendered_line(kind, pairs),
    ensures
        read_line(raw + PAIR_END@).0 == Some((kind, pairs)),
{
    reveal_strlit(";");
    law_config_round_trip(kind, pairs, Seq::empty());
    law_config_round_trip(kind, pairs, PAIR_END@);
    assert(rendered_line(kind, pairs) + Seq::empty() =~= rendered_line(kind, pairs));
}

/// A line that is accepted is the configuration read from it, as it would be written, and
/// then the input that is left. There is at least one pair, and every pair is valid.
pub proof fn law_config_consumed(s: Seq<char>)
    ensures
        read_line(s) matches (Some((kind, pairs)), rest) ==> {
            &&& s == rendered_line(kind, pairs) + rest
            &&& pairs.len() > 0
            &&& forall|i: int| 0 <= i < pairs.len() ==> valid_pair(#[trigger] pairs[i])
        },
{
    reveal_strlit("::");
    let sep = CONFIG_SEPARATOR@;
    if let (Some((kind, pairs)), rest) = read_line(s) {
        lemma_occurrence_bounds(s, sep);
        let i = first_occurrence(s, sep)->0;
        let body = s.skip(i).skip(2);
        lemma_read_pair(body);
        lemma_read_more_pairs(body);
        assert(read_more_pairs(body) == (pairs, rest));
        assert(s.subrange(i, i + 2) == sep);
        assert(s =~= kind + sep + body);
        assert(s =~= rendered_line(kind, pairs) + rest);
    }
}

/// The type that is read holds no separator, nor does it with one more colon.
pub proof fn law_type_ends_at_first_separator(s: Seq<char>)
    ensures
        read_line(s) matches (Some((kind, _)), _) ==> !occurs(kind, CONFIG_SEPARATOR@) && !occurs(
            kind + seq![':'],
            CONFIG_SEPARATOR@,
        ),
{
    let sep = CONFIG_SEPARATOR@;
    if let (Some((kind, _)), _) = read_line(s) {
        reveal_strlit("::");
        lemma_occurrence_bounds(s, sep);
        let i = first_occurrence(s, sep)->0;
        let more = kind + seq![':'];
        assert(s.subrange(i, i + 2)[0] == s[i]);
        assert(more =~= s.take(i + 1));
        if occurs(more, sep) {
            let j = choose|j: int| occurs_at(more, sep, j);
            assert(s.subrange(j, j + 2) =~= more.subrange(j, j + 2));
            assert(occurs_at(s, sep, j));
        }
        if occurs(kind, sep) {
            let j = choose|j: int| occurs_at(kind, sep, j);
            assert(more.subrange(j, j + 2) =~= kind.subrange(j, j + 2));
            assert(occurs_at(more, sep, j));
        }
    }
}

/// Reading a line, writing down what was read and reading that gives the same again, with
/// nothing left.
pub proof fn law_read_configs_read_back(s: Seq<char>)
    ensures
        read_line(s) matches (Some((kind, pairs)), _) ==> read_line(rendered_line(kind, pairs))
            == (Some((kind, pairs)), Seq::<char>::empty()),
{
    if let (Some((kind, pairs)), _) = read_line(s) {
        law_config_consumed(s);
        law_type_ends_at_first_separator(s);
        law_config_round_trip(kind, pairs, Seq::empty());
        assert(rendered_line(kind, pairs) + Seq::empty() =~= rendered_line(kind, pairs));
    }
}

/// The last pair with a key gives the value of that key, be it `type` or another.
pub proof fn law_last_pair_wins(
    kind: Seq<char>,
    pairs: Seq<(Seq<char>, Seq<char>)>,
    i: int,
)
    requires
        0 <= i < pairs.len(),
        forall|j: int| i < j < pairs.len() ==> (#[trigger] pairs[j]).0 != pairs[i].0,
    ensures
        config_map(kind, pairs).dom().contains(pairs[i].0),
        config_map(kind, pairs)[pairs[i].0] == pairs[i].1,
{
    let all = seq![(TYPE_KEY@, kind)] + pairs;
    assert(all[i + 1] == pairs[i]);
    assert forall|j: int| i + 1 < j < all.len() implies (#[trigger] all[j]).0 != all[i + 1].0 by {
        assert(all[j] == pairs[j - 1]);
    }
    lemma_pairs_map_value(all, i + 1);
}

/// Where no pair has the key `type`, that key gives the type.
pub proof fn law_type_is_kept(kind: Seq<char>, pairs: Seq<(Seq<char>, Seq<char>)>)
    requires
        forall|j: int| 0 <= j < pairs.len() ==> (#[trigger] pairs[j]).0 != TYPE_KEY@,
    ensures
        config_map(kind, pairs).dom().contains(TYPE_KEY@),
        config_map(kind, pairs)[TYPE_KEY@] == kind,
{
    let all = seq![(TYPE_KEY@, kind)] + pairs;
    assert forall|j: int| 0 < j < all.len() implies (#[trigger] all[j]).0 != all[0].0 by {
        assert(all[j] == pairs[j - 1]);
    }
    lemma_pairs_map_value(all, 0);
}

/// What a search finds is the leftmost place at which the text stands; where it finds none,
/// there is no such place.
pub proof fn law_search_finds_the_leftmost(text: Seq<char>, pat: Seq<char>)
    ensures
        occurs(text, pat) <==> first_occurrence(text, pat) is Some,
        match first_occurrence(text, pat) {
            Some(i) => {
                &&& 0 <= i
                &&& i + pat.len() <= text.len()
                &&& text.subrange(i, i + pat.len()) == pat
                &&& forall|j: int| 0 <= j < i ==> #[trigger] text.subrange(j, j + pat.len()) != pat
            },
            None => forall|j: int|
                0 <= j && j + pat.len() <= text.len() ==> #[trigger] text.subrange(
                    j,
                    j + pat.len(),
                ) != pat,
        },
{
    lemma_occurrence_bounds(text, pat);
    match first_occurrence(text, pat) {
        Some(i) => {
            assert forall|j: int| 0 <= j < i implies #[trigger] text.subrange(j, j + pat.len())
                != pat by {
                assert(!occurs_at(text, pat, j));
            }
        },
        None => {
            assert forall|j: int|
                0 <= j && j + pat.len() <= text.len() implies #[trigger] text.subrange(
                j,
                j + pat.len(),
            ) != pat by {
                assert(!occurs_at(text, pat, j));
            }
        },
    }
}

/// Every key of ASCII digits, ASCII letters and underscores is read to its end; what does not
/// start with such a character has no key.
pub proof fn law_keys_are_ascii_words(key: Seq<char>, tail: Seq<char>)
    requires
        forall|i: int|
            0 <= i < key.len() ==> 48 <= #[trigger] key[i] as int <= 57 || 65 <= key[i] as int
                <= 90 || key[i] as int == 95 || 97 <= key[i] as int <= 122,
        tail.len() > 0 ==> !(48 <= tail[0] as int <= 57 || 65 <= tail[0] as int <= 90
            || tail[0] as int == 95 || 97 <= tail[0] as int <= 122),
    ensures
        key.len() > 0 ==> read_key(key + tail) == (Some(key), tail),
        read_key(tail) == (None::<Seq<char>>, tail),
{
    let s = key + tail;
    assert forall|i: int| 0 <= i < key.len() implies is_key_char(#[trigger] s[i]) by {
        assert(s[i] == key[i]);
    }
    if tail.len() > 0 {
        assert(s[key.len() as int] == tail[0]);
        assert(!is_key_char(tail[0]));
    }
    lemma_key_len_is(s, key.len());
    assert(s.take(key.len() as int) =~= key);
    assert(s.skip(key.len() as int) =~= tail);
    lemma_key_len_is(tail, 0);
}

/// Every pair of a key of ASCII digits, ASCII letters and underscores and a value without a
/// semicolon is read, whatever stands behind it.
pub proof fn law_pairs_are_read(key: Seq<char>, value: Seq<char>, tail: Seq<char>)
    requires
        key.len() > 0,
        forall|i: int|
            0 <= i < key.len() ==> 48 <= #[trigger] key[i] as int <= 57 || 65 <= key[i] as int
                <= 90 || key[i] as int == 95 || 97 <= key[i] as int <= 122,
        forall|i: int| 0 <= i < value.len() ==> #[trigger] value[i] != ';',
    ensures
        read_pair(key + "="@ + value + ";"@ + tail) == (Some((key, value)), ";"@ + tail),
{
    let pair = (key, value);
    assert forall|i: int| 0 <= i < pair.0.len() implies is_key_char(#[trigger] pair.0[i]) by {
        assert(pair.0[i] == key[i]);
    }
    lemma_read_rendered_pair(pair, tail);
}

/// A pair that was read stands in the input: a key of ASCII digits, ASCII letters and
/// underscores, an equals sign, a value without a semicolon, and then what is left, a
/// semicolon first.
pub proof fn law_pairs_stand_in_the_input(s: Seq<char>)
    ensures
        read_pair(s) matches (Some((key, value)), rest) ==> {
            &&& s == key + "="@ + value + rest
            &&& rest.len() > 0
            &&& rest[0] == ';'
            &&& key.len() > 0
            &&& forall|i: int|
                0 <= i < key.len() ==> 48 <= #[trigger] key[i] as int <= 57 || 65 <= key[i] as int
                    <= 90 || key[i] as int == 95 || 97 <= key[i] as int <= 122
            &&& forall|i: int| 0 <= i < value.len() ==> #[trigger] value[i] != ';'
        },
{
    if let (Some((key, value)), rest) = read_pair(s) {
        lemma_read_pair(s);
        reveal_strlit(";");
        assert(rest =~= ";"@ + rest.skip(1));
        assert(s =~= key + "="@ + value + rest);
        assert forall|i: int| 0 <= i < key.len() implies 48 <= #[trigger] key[i] as int <= 57
            || 65 <= key[i] as int <= 90 || key[i] as int == 95 || 97 <= key[i] as int <= 122 by {
            assert(is_key_char((key, value).0[i]));
        }
        assert forall|i: int| 0 <= i < value.len() implies #[trigger] value[i] != ';' by {
            assert((key, value).1[i] != ';');
        }
    }
}

/// Where there is no pair, the input is left behind the key that is there and its equals sign.
pub proof fn law_failed_pairs_leave_the_rest(key: Seq<char>, tail: Seq<char>)
    requires
        forall|i: int|
            0 <= i < key.len() ==> 48 <= #[trigger] key[i] as int <= 57 || 65 <= key[i] as int
                <= 90 || key[i] as int == 95 || 97 <= key[i] as int <= 122,
    ensures
        (tail.len() > 0 ==> !(48 <= tail[0] as int <= 57 || 65 <= tail[0] as int <= 90
            || tail[0] as int == 95 || 97 <= tail[0] as int <= 122) && (key.len() > 0 ==> tail[0]
            != '=')) ==> read_pair(key + tail) == (None::<(Seq<char>, Seq<char>)>, tail),
        key.len() > 0 && (forall|i: int| 0 <= i < tail.len() ==> #[trigger] tail[i] != ';')
            ==> read_pair(key + "="@ + tail) == (None::<(Seq<char>, Seq<char>)>, tail),
{
    if tail.len() > 0 ==> !(48 <= tail[0] as int <= 57 || 65 <= tail[0] as int <= 90
        || tail[0] as int == 95 || 97 <= tail[0] as int <= 122) && (key.len() > 0 ==> tail[0]
        != '=') {
        law_keys_are_ascii_words(key, tail);
        if key.len() == 0 {
            assert(key + tail =~= tail);
        }
    }
    if key.len() > 0 && forall|i: int| 0 <= i < tail.len() ==> #[trigger] tail[i] != ';' {
        reveal_strlit("=");
        reveal_strlit(";");
        law_keys_are_ascii_words(key, "="@ + tail);
        assert(key + "="@ + tail =~= key + ("="@ + tail));
        assert(("="@ + tail).skip(1) =~= tail);
        if occurs(tail, ";"@) {
            let j = choose|j: int| occurs_at(tail, ";"@, j);
            assert(tail.subrange(j, j + 1)[0] == tail[j]);
        }
    }
}

/// A pair and its semicolon are followed by the pairs of what stands behind them; where there
/// is no pair, none is read.
pub proof fn law_pairs_follow_one_another(key: Seq<char>, value: Seq<char>, tail: Seq<char>)
    requires
        key.len() > 0,
        forall|i: int|
            0 <= i < key.len() ==> 48 <= #[trigger] key[i] as int <= 57 || 65 <= key[i] as int
                <= 90 || key[i] as int == 95 || 97 <= key[i] as int <= 122,
        forall|i: int| 0 <= i < value.len() ==> #[trigger] value[i] != ';',
    ensures
        ({
            let (more, end) = read_more_pairs(tail);
            let all = seq![(key, value)] + more;
            &&& read_more_pairs(key + "="@ + value + ";"@ + tail) == (all, end)
            &&& read_pairs(key + "="@ + value + ";"@ + tail) == (Some(all), end)
        }),
        read_pair(tail).0 is None ==> read_more_pairs(tail) == (
            Seq::<(Seq<char>, Seq<char>)>::empty(),
            tail,
        ) && read_pairs(tail) == (None::<Seq<(Seq<char>, Seq<char>)>>, read_pair(tail).1),
{
    law_pairs_are_read(key, value, tail);
    reveal_strlit(";");
    reveal_strlit("=");
    let s = key + "="@ + value + ";"@ + tail;
    assert((";"@ + tail).skip(1) =~= tail);
}

/// The type of a line goes up to the first two colons in a row, and what stands behind them
/// are the pairs. A line without two colons in a row is refused and stays in the input.
pub proof fn law_lines_split_at_the_colons(kind: Seq<char>, body: Seq<char>)
    ensures
        (forall|j: int| 0 <= j < kind.len() ==> #[trigger] kind[j] != ':' || (j + 1 < kind.len()
            && kind[j + 1] != ':')) ==> {
            let line = kind + "::"@ + body;
            &&& read_until(line, "::"@) == (Some(kind), "::"@ + body)
            &&& match read_pairs(body) {
                (Some(pairs), rest) => read_line(line) == (Some((kind, pairs)), rest),
                (None, rest) => read_line(line) == (
                    None::<(Seq<char>, Seq<(Seq<char>, Seq<char>)>)>,
                    rest,
                ),
            }
        },
        (forall|j: int| 0 <= j < kind.len() - 1 ==> #[trigger] kind[j] != ':' || kind[j + 1]
            != ':') ==> {
            &&& read_until(kind, "::"@) == (None::<Seq<char>>, kind)
            &&& read_line(kind) == (None::<(Seq<char>, Seq<(Seq<char>, Seq<char>)>)>, kind)
        },
{
    reveal_strlit("::");
    if forall|j: int| 0 <= j < kind.len() ==> #[trigger] kind[j] != ':' || (j + 1 < kind.len()
        && kind[j + 1] != ':') {
        let line = kind + "::"@ + body;
        let n = kind.len() as int;
        assert(line.subrange(n, n + 2) =~= "::"@);
        assert forall|j: int| 0 <= j < n implies !occurs_at(line, "::"@, j) by {
            if occurs_at(line, "::"@, j) {
                assert(line.subrange(j, j + 2)[0] == line[j]);
                assert(line.subrange(j, j + 2)[1] == line[j + 1]);
                assert(line[j] == kind[j]);
            }
        }
        lemma_first_occurrence(line, "::"@, n);
        assert(line.take(n) =~= kind);
        assert(line.skip(n) =~= "::"@ + body);
        assert(line.skip(n).skip(2) =~= body);
    }
    if forall|j: int| 0 <= j < kind.len() - 1 ==> #[trigger] kind[j] != ':' || kind[j + 1] != ':' {
        if occurs(kind, "::"@) {
            let j = choose|j: int| occurs_at(kind, "::"@, j);
            assert(kind.subrange(j, j + 2)[0] == kind[j]);
            assert(kind.subrange(j, j + 2)[1] == kind[j + 1]);
        }
    }
}

/// The table of a configuration has the key `type` and the keys of the pairs, and no other.
pub proof fn law_config_table_has_no_other_keys(
    kind: Seq<char>,
    pairs: Seq<(Seq<char>, Seq<char>)>,
    key: Seq<char>,
)
    ensures
        config_map(kind, pairs).dom().contains(key) <==> key == "type"@ || exists|i: int|
            0 <= i < pairs.len() && (#[trigger] pairs[i]).0 == key,
{
    let all = seq![(TYPE_KEY@, kind)] + pairs;
    lemma_pairs_map_domain(all, key);
    if exists|i: int| 0 <= i < all.len() && (#[trigger] all[i]).0 == key {
        let i = choose|i: int| 0 <= i < all.len() && (#[trigger] all[i]).0 == key;
        if i > 0 {
            assert(pairs[i - 1].0 == key);
        }
    }
    if key == "type"@ {
        assert(all[0].0 == key);
    }
    if exists|i: int| 0 <= i < pairs.len() && (#[trigger] pairs[i]).0 == key {
        let i = choose|i: int| 0 <= i < pairs.len() && (#[trigger] pairs[i]).0 == key;
        assert(all[i + 1].0 == key);
    }
}

/// The views of borrowed pairs are the characters of both their parts.
pub proof fn law_views_of_borrowed_pairs(pairs: Seq<(&str, &str)>)
    ensures
        str_pairs(pairs).len() == pairs.len(),
        forall|i: int|
            0 <= i < pairs.len() ==> #[trigger] str_pairs(pairs)[i] == (pairs[i].0@, pairs[i].1@),
{
}

/// Reads up to the first separator, which stays in the input.
pub fn take_type<'a>(input: &mut &'a str) -> (r: Result<&'a str, InvalidConfig>)
    ensures
        match r {
            Ok(kind) => read_until(old(input)@, CONFIG_SEPARATOR@) == (
                Some(kind@),
                final(input)@,
            ),
            Err(_) => read_until(old(input)@, CONFIG_SEPARATOR@) == (
                None::<Seq<char>>,
                final(input)@,
            ),
        },
{
    take_until(input, CONFIG_SEPARATOR)
}

/// Reads up to the first `mark`, which stays in the input.
fn take_until<'a>(input: &mut &'a str, mark: &str) -> (r: Result<&'a str, InvalidConfig>)
    ensures
        match r {
            Ok(head) => read_until(old(input)@, mark@) == (Some(head@), final(input)@),
            Err(_) => read_until(old(input)@, mark@) == (None::<Seq<char>>, final(input)@),
        },
{
    let text: &'a str = *input;
    match find_text(text, mark) {
        Some(i) => {
            let head = text.substring_char(0, i);
            *input = text.substring_char(i, text.unicode_len());
            Ok(head)
        },
        None => Err(InvalidConfig),
    }
}

/// Whether `c` can stand in a key.
fn is_key(c: char) -> (r: bool)
    ensures
        r == is_key_char(c),
{
    ('a' <= c && c <= 'z') || ('A' <= c && c <= 'Z') || ('0' <= c && c <= '9') || c == '_'
}

/// Moves the input past a key.
pub fn kv_key_inner(input: &mut &str) -> (r: Result<(), InvalidConfig>)
    ensures
        read_key(old(input)@).1 == final(input)@,
        r is Ok <==> read_key(old(input)@).0 is Some,
{
    let text = *input;
    let chars = crate::text::chars_of(text);
    let n: usize = chars.len();
    let mut i: usize = 0;
    while i < n && is_key(chars[i])
        invariant
            i <= n,
            n == chars@.len(),
            chars@ == text@,
            forall|j: int| 0 <= j < i ==> is_key_char(#[trigger] text@[j]),
        decreases n - i,
    {
        i += 1;
    }
    proof {
        lemma_key_len_is(text@, i as nat);
    }
    if i == 0 {
        Err(InvalidConfig)
    } else {
        *input = text.substring_char(i, n);
        Ok(())
    }
}

/// Reads a key.
pub fn kv_key<'a>(input: &mut &'a str) -> (r: Result<&'a str, InvalidConfig>)
    ensures
        match r {
            Ok(key) => read_key(old(input)@) == (Some(key@), final(input)@),
            Err(_) => read_key(old(input)@) == (None::<Seq<char>>, final(input)@),
        },
{
    let text: &'a str = *input;
    kv_key_inner(input)?;
    proof {
        lemma_key_len(text@);
    }
    Ok(text.substring_char(0, text.unicode_len() - input.unicode_len()))
}

/// Reads a key, an equals sign and a value up to the semicolon, which stays in the input.
pub fn kv_pair<'a>(input: &mut &'a str) -> (r: Result<(&'a str, &'a str), InvalidConfig>)
    ensures
        match r {
            Ok(pair) => read_pair(old(input)@) == (Some((pair.0@, pair.1@)), final(input)@),
            Err(_) => read_pair(old(input)@) == (
                None::<(Seq<char>, Seq<char>)>,
                final(input)@,
            ),
        },
{
    let key = kv_key(input)?;
    let rest: &'a str = *input;
    let n: usize = rest.unicode_len();
    if n == 0 || rest.get_char(0) != '=' {
        return Err(InvalidConfig);
    }
    *input = rest.substring_char(1, n);
    let value = take_until(input, PAIR_END)?;
    Ok((key, value))
}

/// Reads a pair and moves the input past its semicolon.
fn kv_item<'a>(input: &mut &'a str) -> (r: Result<(&'a str, &'a str), InvalidConfig>)
    ensures
        match r {
            Ok(pair) => read_pair(old(input)@).0 == Some((pair.0@, pair.1@)) && read_pair(
                old(input)@,
            ).1.skip(1) == final(input)@,
            Err(_) => read_pair(old(input)@) == (
                None::<(Seq<char>, Seq<char>)>,
                final(input)@,
            ),
        },
{
    let ghost start = input@;
    let pair = kv_pair(input)?;
    proof {
        lemma_read_pair(start);
    }
    let rest: &'a str = *input;
    *input = rest.substring_char(1, rest.unicode_len());
    Ok(pair)
}

/// Reads as many pairs as there are, at least one.
pub fn kv_pairs<'a>(input: &mut &'a str) -> (r: Result<Vec<(&'a str, &'a str)>, InvalidConfig>)
    ensures
        match r {
            Ok(pairs) => read_pairs(old(input)@) == (
                Some(str_pairs(pairs@)),
                final(input)@,
            ),
            Err(_) => read_pairs(old(input)@) == (
                None::<Seq<(Seq<char>, Seq<char>)>>,
                final(input)@,
            ),
        },
{
    let ghost start = input@;
    let first = kv_item(input)?;
    let mut pairs: Vec<(&'a str, &'a str)> = Vec::new();
    pairs.push(first);
    let mut rest: &'a str = *input;
    let ghost whole = read_pairs(start);
    assert(str_pairs(pairs@) =~= seq![(first.0@, first.1@)]);
    loop
        invariant_except_break
            ({
                let (more, end) = read_more_pairs(rest@);
                whole == (Some(str_pairs(pairs@) + more), end)
            }),
        ensures
            whole == (Some(str_pairs(pairs@)), rest@),
        decreases rest@.len(),
    {
        let mut ahead: &'a str = rest;
        proof {
            lemma_read_pair(rest@);
        }
        match kv_item(&mut ahead) {
            Ok(pair) => {
                let ghost before = str_pairs(pairs@);
                let ghost more = read_more_pairs(ahead@).0;
                pairs.push(pair);
                assert(str_pairs(pairs@) =~= before.push((pair.0@, pair.1@)));
                assert(before + (seq![(pair.0@, pair.1@)] + more) =~= str_pairs(pairs@) + more);
                rest = ahead;
            },
            Err(_) => {
                assert(str_pairs(pairs@) + Seq::empty() =~= str_pairs(pairs@));
                break;
            },
        }
    }
    *input = rest;
    Ok(pairs)
}

/// Reads a configuration line: a type, the separator and pairs.
pub fn config_line<'a>(input: &mut &'a str) -> (r: Result<
    (&'a str, Vec<(&'a str, &'a str)>),
    InvalidConfig,
>)
    ensures
        match r {
            Ok(line) => read_line(old(input)@) == (
                Some((line.0@, str_pairs(line.1@))),
                final(input)@,
            ),
            Err(_) => read_line(old(input)@) == (
                None::<(Seq<char>, Seq<(Seq<char>, Seq<char>)>)>,
                final(input)@,
            ),
        },
{
    let ghost start = input@;
    let kind = take_type(input)?;
    proof {
        reveal_strlit("::");
        lemma_occurrence_bounds(start, CONFIG_SEPARATOR@);
    }
    let rest: &'a str = *input;
    *input = rest.substring_char(2, rest.unicode_len());
    let pairs = kv_pairs(input)?;
    Ok((kind, pairs))
}

/// Reads a configuration line into a table that holds the type under the key `type` and
/// then the pairs in order, so that a later pair replaces an earlier one with the same key.
pub fn parse_check_update(content: &mut &str) -> (r: Result<Context, InvalidConfig>)
    ensures
        read_line(old(content)@).1 == final(content)@,
        match r {
            Ok(context) => read_line(old(content)@).0 matches Some((kind, pairs))
                && context@ == config_map(kind, pairs),
            Err(_) => read_line(old(content)@).0 is None,
        },
{
    let parsed = config_line(content)?;
    let mut context = Context::new();
    context.insert(TYPE_KEY.to_string(), parsed.0.to_string());
    let config = parsed.1;
    let n: usize = config.len();
    let mut i: usize = 0;
    let ghost all = seq![(TYPE_KEY@, parsed.0@)] + str_pairs(config@);
    assert(all.take(1) =~= seq![(TYPE_KEY@, parsed.0@)]);
    assert(all.take(1).drop_last() =~= Seq::empty());
    assert(context@ =~= pairs_map(all.take(1))) by {
        reveal_with_fuel(pairs_map, 2);
    }
    while i < n
        invariant
            i <= n,
            n == config@.len(),
            all == seq![(TYPE_KEY@, parsed.0@)] + str_pairs(config@),
            context@ == pairs_map(all.take(i + 1)),
        decreases n - i,
    {
        let (key, value) = config[i];
        context.insert(key.to_string(), value.to_string());
        proof {
            let upto = all.take(i + 2);
            assert(upto.drop_last() =~= all.take(i + 1));
            assert(upto.last() == (key@, value@));
        }
        i += 1;
    }
    assert(all.take(n + 1) =~= all);
    Ok(context)
}

} // verus!
