//! Strings as sequences of characters: searching, trimming, padding and joining.

use vstd::prelude::*;

verus! {

/// The Unicode property `White_Space`.
pub open spec fn is_white_space(c: char) -> bool {
    ||| '\u{9}' <= c <= '\u{d}'
    ||| c == ' '
    ||| c == '\u{85}'
    ||| c == '\u{a0}'
    ||| c == '\u{1680}'
    ||| '\u{2000}' <= c <= '\u{200a}'
    ||| c == '\u{2028}'
    ||| c == '\u{2029}'
    ||| c == '\u{202f}'
    ||| c == '\u{205f}'
    ||| c == '\u{3000}'
}

/// `text` without its leading white space.
pub open spec fn trim_start(text: Seq<char>) -> Seq<char>
    decreases text.len(),
{
    if text.len() > 0 && is_white_space(text[0]) {
        trim_start(text.drop_first())
    } else {
        text
    }
}

/// `text` without its trailing white space.
pub open spec fn trim_end(text: Seq<char>) -> Seq<char>
    decreases text.len(),
{
    if text.len() > 0 && is_white_space(text.last()) {
        trim_end(text.drop_last())
    } else {
        text
    }
}

/// `text` without the white space around it.
pub open spec fn trimmed(text: Seq<char>) -> Seq<char> {
    trim_end(trim_start(text))
}

/// Neither the first nor the last character of `text` is white space.
pub open spec fn is_trimmed(text: Seq<char>) -> bool {
    text.len() > 0 ==> !is_white_space(text[0]) && !is_white_space(text.last())
}

/// `pat` stands in `text` from position `i` on.
pub open spec fn occurs_at(text: Seq<char>, pat: Seq<char>, i: int) -> bool {
    &&& 0 <= i
    &&& i + pat.len() <= text.len()
    &&& text.subrange(i, i + pat.len()) == pat
}

/// `pat` stands somewhere in `text`.
pub open spec fn occurs(text: Seq<char>, pat: Seq<char>) -> bool {
    exists|i: int| occurs_at(text, pat, i)
}

/// `i` is the leftmost position at which `pat` stands in `text`.
pub open spec fn first_at(text: Seq<char>, pat: Seq<char>, i: int) -> bool {
    &&& occurs_at(text, pat, i)
    &&& forall|j: int| 0 <= j < i ==> !occurs_at(text, pat, j)
}

/// The leftmost position of `pat` in `text`, if it stands there at all.
pub open spec fn first_occurrence(text: Seq<char>, pat: Seq<char>) -> Option<int> {
    if occurs(text, pat) {
        Some(choose|i: int| first_at(text, pat, i))
    } else {
        None
    }
}

/// `n` spaces.
pub open spec fn spaces(n: nat) -> Seq<char> {
    Seq::new(n, |i: int| ' ')
}

/// The spaces that `text` lacks to be `width` characters wide.
pub open spec fn missing(text: Seq<char>, width: nat) -> nat {
    if text.len() < width {
        (width - text.len()) as nat
    } else {
        0
    }
}

/// `text` flush left in a column of `width` characters.
pub open spec fn flush_left(text: Seq<char>, width: nat) -> Seq<char> {
    text + spaces(missing(text, width))
}

/// `text` flush right in a column of `width` characters.
pub open spec fn flush_right(text: Seq<char>, width: nat) -> Seq<char> {
    spaces(missing(text, width)) + text
}

/// `text` in the middle of a column of `width` characters; an odd space goes to the right.
pub open spec fn centered(text: Seq<char>, width: nat) -> Seq<char> {
    let lack = missing(text, width);
    spaces(lack / 2) + text + spaces((lack - lack / 2) as nat)
}

/// The parts in order, with `sep` between neighbours.
pub open spec fn joined(parts: Seq<Seq<char>>, sep: Seq<char>) -> Seq<char>
    decreases parts.len(),
{
    if parts.len() == 0 {
        Seq::empty()
    } else if parts.len() == 1 {
        parts[0]
    } else {
        joined(parts.drop_last(), sep) + sep + parts.last()
    }
}

/// The views of some strings.
pub open spec fn texts(strings: Seq<String>) -> Seq<Seq<char>> {
    strings.map_values(|s: String| s@)
}

/// The view of a string that may be absent.
pub open spec fn optional_text(text: Option<String>) -> Option<Seq<char>> {
    match text {
        Some(s) => Some(s@),
        None => None,
    }
}

/// The view of a slice that may be absent.
pub open spec fn optional_str(text: Option<&str>) -> Option<Seq<char>> {
    match text {
        Some(s) => Some(s@),
        None => None,
    }
}

/// The leftmost position is unique.
pub proof fn lemma_first_occurrence(text: Seq<char>, pat: Seq<char>, i: int)
    requires
        first_at(text, pat, i),
    ensures
        first_occurrence(text, pat) == Some(i),
{
    let j = choose|j: int| first_at(text, pat, j);
    assert(first_at(text, pat, j));
    assert(!(i < j));
    assert(!(j < i));
}

/// What is trimmed already stays as it is.
pub proof fn lemma_trimmed(text: Seq<char>)
    requires
        is_trimmed(text),
    ensures
        trimmed(text) == text,
{
}

/// Where trimming starts and ends: all that is left out is white space, and what is left, if
/// anything, neither starts nor ends with it.
pub proof fn lemma_trimmed_bounds(text: Seq<char>) -> (r: (int, int))
    ensures
        0 <= r.0 <= r.1 <= text.len(),
        trimmed(text) == text.subrange(r.0, r.1),
        forall|k: int| 0 <= k < r.0 || r.1 <= k < text.len() ==> is_white_space(#[trigger] text[k]),
        r.0 < r.1 ==> !is_white_space(text[r.0]) && !is_white_space(text[r.1 - 1]),
{
    let a = lemma_trim_start(text);
    let front = text.skip(a);
    let n = lemma_trim_end(front);
    assert(front.take(n) =~= text.subrange(a, a + n));
    assert forall|k: int| a + n <= k < text.len() implies is_white_space(#[trigger] text[k]) by {
        assert(front[k - a] == text[k]);
    }
    if n > 0 {
        assert(front[n - 1] == text[a + n - 1]);
        assert(front[0] == text[a]);
    }
    (a, a + n)
}

proof fn lemma_trim_start(text: Seq<char>) -> (a: int)
    ensures
        0 <= a <= text.len(),
        trim_start(text) == text.skip(a),
        forall|k: int| 0 <= k < a ==> is_white_space(#[trigger] text[k]),
        a < text.len() ==> !is_white_space(text[a]),
    decreases text.len(),
{
    if text.len() > 0 && is_white_space(text[0]) {
        let rest = text.drop_first();
        let a = lemma_trim_start(rest);
        assert(rest.skip(a) =~= text.skip(a + 1));
        assert forall|k: int| 0 <= k < a + 1 implies is_white_space(#[trigger] text[k]) by {
            if k > 0 {
                assert(rest[k - 1] == text[k]);
            }
        }
        a + 1
    } else {
        assert(text.skip(0) =~= text);
        0
    }
}

proof fn lemma_trim_end(text: Seq<char>) -> (n: int)
    ensures
        0 <= n <= text.len(),
        trim_end(text) == text.take(n),
        forall|k: int| n <= k < text.len() ==> is_white_space(#[trigger] text[k]),
        n > 0 ==> !is_white_space(text[n - 1]),
    decreases text.len(),
{
    if text.len() > 0 && is_white_space(text.last()) {
        let rest = text.drop_last();
        let n = lemma_trim_end(rest);
        assert(rest.take(n) =~= text.take(n));
        assert forall|k: int| n <= k < text.len() implies is_white_space(#[trigger] text[k]) by {
            if k < rest.len() {
                assert(rest[k] == text[k]);
            }
        }
        n
    } else {
        assert(text.take(text.len() as int) =~= text);
        text.len() as int
    }
}

/// What stands between white space is what trimming leaves.
pub proof fn lemma_trimmed_is(text: Seq<char>, a: int, b: int)
    requires
        0 <= a < b <= text.len(),
        forall|k: int| 0 <= k < a || b <= k < text.len() ==> is_white_space(#[trigger] text[k]),
        !is_white_space(text[a]),
        !is_white_space(text[b - 1]),
    ensures
        trimmed(text) == text.subrange(a, b),
{
    let (c, d) = lemma_trimmed_bounds(text);
    assert(c <= a);
    assert(b <= d);
    assert(!(c < a));
    assert(!(b < d));
}

/// What is left of a text after trimming has no white space around it.
pub proof fn lemma_trimmed_is_trimmed(text: Seq<char>)
    ensures
        is_trimmed(trimmed(text)),
{
    let (a, b) = lemma_trimmed_bounds(text);
}

/// White space by its code points.
pub proof fn law_white_space_by_code(c: char)
    ensures
        is_white_space(c) <==> {
            let code = c as int;
            ||| 9 <= code <= 13
            ||| code == 32
            ||| code == 133
            ||| code == 160
            ||| code == 5760
            ||| 8192 <= code <= 8202
            ||| code == 8232
            ||| code == 8233
            ||| code == 8239
            ||| code == 8287
            ||| code == 12288
        },
{
}

/// Trimming takes away the white space on both sides and nothing else.
pub proof fn law_trimming_takes_white_space_only(
    left: Seq<char>,
    text: Seq<char>,
    right: Seq<char>,
)
    requires
        forall|i: int| 0 <= i < left.len() ==> is_white_space(#[trigger] left[i]),
        forall|i: int| 0 <= i < right.len() ==> is_white_space(#[trigger] right[i]),
        text.len() > 0 ==> !is_white_space(text[0]) && !is_white_space(text.last()),
    ensures
        trimmed(left + text + right) == text,
{
    let all = left + text + right;
    let a = left.len() as int;
    let b = a + text.len();
    assert forall|k: int| 0 <= k < a || b <= k < all.len() implies is_white_space(
        #[trigger] all[k],
    ) by {
        if k < a {
            assert(all[k] == left[k]);
        } else {
            assert(all[k] == right[k - b]);
        }
    }
    if text.len() > 0 {
        assert(all[a] == text[0]);
        assert(all[b - 1] == text.last());
        lemma_trimmed_is(all, a, b);
        assert(all.subrange(a, b) =~= text);
    } else {
        let (c, d) = lemma_trimmed_bounds(all);
        assert(trimmed(all) =~= text);
    }
}

/// A text stands at a place exactly if all its characters do, one behind the other.
pub proof fn law_occurrence_by_character(text: Seq<char>, pat: Seq<char>, i: int)
    ensures
        occurs_at(text, pat, i) <==> 0 <= i && i + pat.len() <= text.len() && (forall|k: int|
            0 <= k < pat.len() ==> text[i + k] == #[trigger] pat[k]),
{
    if 0 <= i && i + pat.len() <= text.len() {
        let part = text.subrange(i, i + pat.len());
        if occurs_at(text, pat, i) {
            assert forall|k: int| 0 <= k < pat.len() implies text[i + k] == #[trigger] pat[k] by {
                assert(part[k] == text[i + k]);
            }
        } else if forall|k: int| 0 <= k < pat.len() ==> text[i + k] == #[trigger] pat[k] {
            assert forall|k: int| 0 <= k < pat.len() implies part[k] == pat[k] by {
                assert(text[i + k] == pat[k]);
            }
            assert(part =~= pat);
        }
    }
}

/// A column holds the text and otherwise spaces, and is as wide as it is asked to be or as the
/// text is: the text stands at the left, at the right or, with an odd space behind it, in the
/// middle.
pub proof fn law_columns(text: Seq<char>, width: nat)
    ensures
        ({
            let n = text.len() as int;
            let lack = if n < width {
                width - n
            } else {
                0
            };
            let (left, right, middle) = (
                flush_left(text, width),
                flush_right(text, width),
                centered(text, width),
            );
            &&& left.len() == n + lack && right.len() == n + lack && middle.len() == n + lack
            &&& left.subrange(0, n) == text
            &&& right.subrange(lack, n + lack) == text
            &&& middle.subrange(lack / 2, lack / 2 + n) == text
            &&& forall|i: int| n <= i < n + lack ==> #[trigger] left[i] == ' '
            &&& forall|i: int| 0 <= i < lack ==> #[trigger] right[i] == ' '
            &&& forall|i: int|
                0 <= i < lack / 2 || lack / 2 + n <= i < n + lack ==> #[trigger] middle[i] == ' '
        }),
{
    let n = text.len() as int;
    let lack = missing(text, width) as int;
    assert(flush_left(text, width).subrange(0, n) =~= text);
    assert(flush_right(text, width).subrange(lack, n + lack) =~= text);
    assert(centered(text, width).subrange(lack / 2, lack / 2 + n) =~= text);
}

/// Joining puts the separator between neighbours, and nowhere else.
pub proof fn law_joining_parts(
    a: Seq<Seq<char>>,
    b: Seq<Seq<char>>,
    part: Seq<char>,
    sep: Seq<char>,
)
    ensures
        joined(Seq::empty(), sep) == Seq::<char>::empty(),
        joined(seq![part], sep) == part,
        a.len() > 0 && b.len() > 0 ==> joined(a + b, sep) == joined(a, sep) + sep + joined(b, sep),
    decreases b.len(),
{
    if a.len() > 0 && b.len() > 0 {
        let all = a + b;
        assert(all.drop_last() =~= a + b.drop_last());
        assert(all.last() == b.last());
        if b.len() == 1 {
            assert(a + b.drop_last() =~= a);
        } else {
            law_joining_parts(a, b.drop_last(), part, sep);
            assert(joined(all, sep) =~= joined(a, sep) + sep + joined(b, sep));
        }
    }
}

/// The views of strings are their characters, one view for each string.
pub proof fn law_views_of_strings(strings: Seq<String>, string: String, slice: &str)
    ensures
        texts(strings).len() == strings.len(),
        forall|i: int| 0 <= i < strings.len() ==> #[trigger] texts(strings)[i] == strings[i]@,
        optional_text(Some(string)) == Some(string@),
        optional_text(None) is None,
        optional_str(Some(slice)) == Some(slice@),
        optional_str(None) is None,
{
}

/// `str::trim`: the text without its leading and trailing characters that have
/// the Unicode property `White_Space`.
pub assume_specification[ str::trim ](s: &str) -> (r: &str)
    ensures
        r@ == trimmed(s@),
;

/// The characters of `s`.
pub fn chars_of(s: &str) -> (r: Vec<char>)
    ensures
        r@ == s@,
{
    let mut out: Vec<char> = Vec::new();
    for c in it: s.chars()
        invariant
            it.seq() == s@,
            out@ == s@.take(it.index()),
    {
        out.push(c);
    }
    out
}

/// Whether `a` and `b` hold the same characters.
pub fn same_text(a: &str, b: &str) -> (r: bool)
    ensures
        r == (a@ == b@),
{
    let x = a.as_bytes();
    let y = b.as_bytes();
    proof {
        vstd::utf8::encode_utf8_decode_utf8(a@);
        vstd::utf8::encode_utf8_decode_utf8(b@);
    }
    if x.len() != y.len() {
        return false;
    }
    let n: usize = x.len();
    let mut i: usize = 0;
    while i < n
        invariant
            i <= n,
            n == x@.len(),
            n == y@.len(),
            x@.take(i as int) == y@.take(i as int),
            x@ == vstd::utf8::encode_utf8(a@),
            y@ == vstd::utf8::encode_utf8(b@),
        decreases n - i,
    {
        if x[i] != y[i] {
            assert(x@[i as int] != y@[i as int]);
            return false;
        }
        assert(x@.take(i + 1) =~= x@.take(i as int).push(x@[i as int]));
        assert(y@.take(i + 1) =~= y@.take(i as int).push(y@[i as int]));
        i += 1;
    }
    assert(x@ =~= x@.take(n as int));
    assert(y@ =~= y@.take(n as int));
    true
}

/// Whether `pat` stands in `text` from position `at` on.
fn matches_at(text: &Vec<char>, pat: &Vec<char>, at: usize) -> (r: bool)
    requires
        at + pat@.len() <= text@.len(),
    ensures
        r == occurs_at(text@, pat@, at as int),
{
    let n: usize = text.len();
    let m: usize = pat.len();
    let mut k: usize = 0;
    while k < m
        invariant
            k <= m,
            n == text@.len(),
            m == pat@.len(),
            at + m <= n,
            forall|j: int| 0 <= j < k ==> text@[at + j] == pat@[j],
        decreases m - k,
    {
        if text[at + k] != pat[k] {
            assert(text@.subrange(at as int, at + m)[k as int] != pat@[k as int]);
            return false;
        }
        k += 1;
    }
    assert(text@.subrange(at as int, at + m) =~= pat@);
    true
}

/// The leftmost position of `pat` in `text`.
pub fn find_text(text: &str, pat: &str) -> (r: Option<usize>)
    ensures
        match r {
            Some(i) => first_occurrence(text@, pat@) == Some(i as int) && occurs_at(
                text@,
                pat@,
                i as int,
            ),
            None => first_occurrence(text@, pat@) is None,
        },
{
    let t = chars_of(text);
    let p = chars_of(pat);
    let n: usize = t.len();
    let m: usize = p.len();
    if m > n {
        return None;
    }
    let mut i: usize = 0;
    while i < n - m && !matches_at(&t, &p, i)
        invariant
            i <= n - m,
            m <= n,
            n == t@.len(),
            m == p@.len(),
            t@ == text@,
            p@ == pat@,
            forall|j: int| 0 <= j < i ==> !occurs_at(text@, pat@, j),
        decreases n - i,
    {
        i += 1;
    }
    if matches_at(&t, &p, i) {
        proof {
            lemma_first_occurrence(text@, pat@, i as int);
        }
        Some(i)
    } else {
        assert(forall|j: int| !occurs_at(text@, pat@, j));
        None
    }
}

/// Whether `pat` stands somewhere in `text`.
pub fn has_text(text: &str, pat: &str) -> (r: bool)
    ensures
        r == occurs(text@, pat@),
{
    find_text(text, pat).is_some()
}

/// Whether `c` is among the characters of `text`.
pub fn has_char(text: &str, c: char) -> (r: bool)
    ensures
        r == text@.contains(c),
{
    let t = chars_of(text);
    let n: usize = t.len();
    let mut i: usize = 0;
    while i < n
        invariant
            i <= n,
            n == t@.len(),
            t@ == text@,
            forall|j: int| 0 <= j < i ==> text@[j] != c,
        decreases n - i,
    {
        if t[i] == c {
            assert(text@[i as int] == c);
            return true;
        }
        i += 1;
    }
    false
}

/// Whether `text` ends in `tail`.
pub fn ends_in(text: &str, tail: &str) -> (r: bool)
    ensures
        r == occurs_at(text@, tail@, text@.len() - tail@.len()),
{
    let t = chars_of(text);
    let p = chars_of(tail);
    p.len() <= t.len() && matches_at(&t, &p, t.len() - p.len())
}

/// `a` with `b` behind it.
pub fn chain(a: &str, b: &str) -> (r: String)
    ensures
        r@ == a@ + b@,
{
    let mut out = a.to_string();
    out.append(b);
    out
}

/// `a`, `b` and `c` one behind the other.
pub fn chain3(a: &str, b: &str, c: &str) -> (r: String)
    ensures
        r@ == a@ + b@ + c@,
{
    let mut out = a.to_string();
    out.append(b);
    out.append(c);
    out
}

/// Appends `n` spaces to `out`.
fn append_spaces(out: &mut String, n: usize)
    ensures
        final(out)@ == old(out)@ + spaces(n as nat),
{
    let ghost start = out@;
    let mut i: usize = 0;
    assert(start + spaces(0) =~= start);
    while i < n
        invariant
            i <= n,
            out@ == start + spaces(i as nat),
        decreases n - i,
    {
        proof {
            reveal_strlit(" ");
        }
        out.append(" ");
        assert(start + spaces(i as nat) + " "@ =~= start + spaces((i + 1) as nat));
        i += 1;
    }
}

/// The spaces that `text` lacks to be `width` characters wide.
fn count_missing(text: &str, width: usize) -> (r: usize)
    ensures
        r == missing(text@, width as nat),
{
    let n: usize = text.unicode_len();
    if n < width {
        width - n
    } else {
        0
    }
}

/// `text` flush left in a column of `width` characters.
pub fn pad_right(text: &str, width: usize) -> (r: String)
    ensures
        r@ == flush_left(text@, width as nat),
{
    let mut out = text.to_string();
    append_spaces(&mut out, count_missing(text, width));
    out
}

/// `text` flush right in a column of `width` characters.
pub fn pad_left(text: &str, width: usize) -> (r: String)
    ensures
        r@ == flush_right(text@, width as nat),
{
    let mut out = String::new();
    append_spaces(&mut out, count_missing(text, width));
    assert(out@ =~= spaces(missing(text@, width as nat)));
    out.append(text);
    out
}

/// `text` in the middle of a column of `width` characters.
pub fn pad_both(text: &str, width: usize) -> (r: String)
    ensures
        r@ == centered(text@, width as nat),
{
    let lack: usize = count_missing(text, width);
    let left: usize = lack / 2;
    let mut out = String::new();
    append_spaces(&mut out, left);
    assert(out@ =~= spaces(left as nat));
    out.append(text);
    append_spaces(&mut out, lack - left);
    out
}

/// The parts in order, with `sep` between neighbours.
pub fn join(parts: &Vec<String>, sep: &str) -> (r: String)
    ensures
        r@ == joined(texts(parts@), sep@),
{
    let mut out = String::new();
    let n: usize = parts.len();
    let mut i: usize = 0;
    let ghost all = texts(parts@);
    while i < n
        invariant
            i <= n,
            n == parts@.len(),
            all == texts(parts@),
            out@ == joined(all.take(i as int), sep@),
        decreases n - i,
    {
        let ghost before = out@;
        if i > 0 {
            out.append(sep);
        }
        out.append(parts[i].as_str());
        proof {
            let upto = all.take(i + 1);
            assert(upto.drop_last() =~= all.take(i as int));
            assert(upto.last() == parts@[i as int]@);
            if i == 0 {
                assert(before =~= Seq::<char>::empty());
                assert(out@ =~= upto[0]);
            }
        }
        i += 1;
    }
    assert(all.take(n as int) =~= all);
    out
}

} // verus!
