//! Scanning text by characters: finding a passage, cutting a text at a
//! separator, and trimming white space.
//!
//! Positions count characters, not bytes, and every function speaks of the
//! sequence of characters that a string denotes.

use vstd::prelude::*;
use vstd::std_specs::iter::IteratorSpec;
use vstd::string::*;

verus! {

/// Whether `needle` stands in `hay` at position `i`.
pub open spec fn occurs_at(hay: Seq<char>, needle: Seq<char>, i: int) -> bool {
    &&& 0 <= i
    &&& i + needle.len() <= hay.len()
    &&& hay.subrange(i, i + needle.len()) == needle
}

/// Whether `needle` stands in `hay` at `i` and nowhere before `i`.
pub open spec fn first_at(hay: Seq<char>, needle: Seq<char>, i: int) -> bool {
    &&& occurs_at(hay, needle, i)
    &&& forall|j: int| 0 <= j < i ==> !occurs_at(hay, needle, j)
}

/// The position of the first occurrence of `needle` in `hay`, if there is
/// one. The empty needle occurs at position zero of every text.
pub open spec fn find_first(hay: Seq<char>, needle: Seq<char>) -> Option<int> {
    if exists|i: int| first_at(hay, needle, i) {
        Some(choose|i: int| first_at(hay, needle, i))
    } else {
        None
    }
}

/// Whether `needle` occurs somewhere in `hay`, character for character.
pub open spec fn contains(hay: Seq<char>, needle: Seq<char>) -> bool {
    exists|i: int| occurs_at(hay, needle, i)
}

/// Whether `hay` begins with `prefix`.
pub open spec fn starts_with(hay: Seq<char>, prefix: Seq<char>) -> bool {
    occurs_at(hay, prefix, 0)
}

/// A first occurrence is the only one that `find_first` can report.
pub proof fn lemma_find_first_is(hay: Seq<char>, needle: Seq<char>, i: int)
    requires
        first_at(hay, needle, i),
    ensures
        find_first(hay, needle) == Some(i),
{
    let k = choose|k: int| first_at(hay, needle, k);
    assert(first_at(hay, needle, k));
    if k < i {
        assert(!occurs_at(hay, needle, k));
    } else if i < k {
        assert(!occurs_at(hay, needle, i));
    }
}

/// Where nothing occurs, nothing is found; where something is found, it
/// occurs.
pub proof fn lemma_find_first_none(hay: Seq<char>, needle: Seq<char>)
    ensures
        find_first(hay, needle) is None <==> !contains(hay, needle),
        find_first(hay, needle) matches Some(i) ==> first_at(hay, needle, i),
{
    if contains(hay, needle) {
        let w = choose|i: int| occurs_at(hay, needle, i);
        lemma_least_occurrence(hay, needle, w);
    }
    if find_first(hay, needle) is Some {
        let k = choose|k: int| first_at(hay, needle, k);
        assert(occurs_at(hay, needle, k));
    }
}

/// Below any occurrence there is a first one.
proof fn lemma_least_occurrence(hay: Seq<char>, needle: Seq<char>, w: int)
    requires
        occurs_at(hay, needle, w),
    ensures
        exists|i: int| first_at(hay, needle, i),
    decreases w,
{
    if exists|j: int| 0 <= j < w && occurs_at(hay, needle, j) {
        let j = choose|j: int| 0 <= j < w && occurs_at(hay, needle, j);
        lemma_least_occurrence(hay, needle, j);
    } else {
        assert(first_at(hay, needle, w));
    }
}

/// The characters of `s`, one element each.
pub fn chars_of(s: &str) -> (v: Vec<char>)
    ensures
        v@ == s@,
{
    let mut v: Vec<char> = Vec::new();
    for c in it: s.chars()
        invariant
            v@ == s@.take(it.index() as int),
            it.seq() == s@,
    {
        v.push(c);
    }
    v
}

/// Whether `a` and `b` are the same text.
pub fn str_eq(a: &str, b: &str) -> (same: bool)
    ensures
        same == (a@ == b@),
{
    broadcast use group_string_axioms;

    let mut rest_a = a.chars();
    let mut rest_b = b.chars();
    let ghost mut i: int = 0;
    loop
        invariant
            0 <= i <= a@.len(),
            0 <= i <= b@.len(),
            rest_a.remaining() == a@.skip(i),
            rest_b.remaining() == b@.skip(i),
            a@.take(i) == b@.take(i),
            rest_a.obeys_prophetic_iter_laws(),
            rest_b.obeys_prophetic_iter_laws(),
        decreases a@.len() - i,
    {
        let x = rest_a.next();
        let y = rest_b.next();
        match (x, y) {
            (None, None) => {
                proof {
                    assert(a@.take(i) == a@);
                    assert(b@.take(i) == b@);
                }
                return true;
            },
            (Some(c), Some(d)) => {
                if c != d {
                    proof {
                        assert(a@[i] == c);
                        assert(b@[i] == d);
                    }
                    return false;
                }
                proof {
                    assert(a@.take(i + 1) == a@.take(i).push(a@[i]));
                    assert(b@.take(i + 1) == b@.take(i).push(b@[i]));
                    i = i + 1;
                }
            },
            _ => {
                return false;
            },
        }
    }
}

/// Whether `a` stands before `b` in the dictionary: by their first different
/// character, compared by code point, and a text before every longer text
/// that begins with it.
pub open spec fn lex_lt(a: Seq<char>, b: Seq<char>) -> bool
    decreases a.len(),
{
    if b.len() == 0 {
        false
    } else if a.len() == 0 {
        true
    } else if a[0] != b[0] {
        (a[0] as u32) < (b[0] as u32)
    } else {
        lex_lt(a.drop_first(), b.drop_first())
    }
}

/// No text stands before itself.
pub proof fn lemma_lex_irreflexive(a: Seq<char>)
    ensures
        !lex_lt(a, a),
    decreases a.len(),
{
    if a.len() > 0 {
        lemma_lex_irreflexive(a.drop_first());
    }
}

/// What stands before a text stands before everything behind that text.
pub proof fn lemma_lex_transitive(a: Seq<char>, b: Seq<char>, c: Seq<char>)
    requires
        lex_lt(a, b),
        lex_lt(b, c),
    ensures
        lex_lt(a, c),
    decreases a.len(),
{
    if a.len() > 0 && a[0] == b[0] && b[0] == c[0] {
        lemma_lex_transitive(a.drop_first(), b.drop_first(), c.drop_first());
    }
}

/// Of two different texts one stands before the other.
pub proof fn lemma_lex_total(a: Seq<char>, b: Seq<char>)
    requires
        a != b,
    ensures
        lex_lt(a, b) || lex_lt(b, a),
    decreases a.len(),
{
    if a.len() == 0 || b.len() == 0 {
        assert(a.len() > 0 || b.len() > 0) by {
            if a.len() == 0 && b.len() == 0 {
                assert(a =~= b);
            }
        }
    } else if a[0] == b[0] {
        if a.drop_first() == b.drop_first() {
            assert(a =~= seq![a[0]] + a.drop_first());
            assert(b =~= seq![b[0]] + b.drop_first());
        }
        lemma_lex_total(a.drop_first(), b.drop_first());
    } else {
        vstd::utf8::char_u32_cast(a[0], a[0] as u32);
        vstd::utf8::char_u32_cast(b[0], b[0] as u32);
    }
}

/// Whether `a` stands before `b` in the dictionary; see [`lex_lt`].
pub fn str_lt(a: &str, b: &str) -> (before: bool)
    ensures
        before == lex_lt(a@, b@),
{
    broadcast use group_string_axioms;

    let mut rest_a = a.chars();
    let mut rest_b = b.chars();
    let ghost mut i: int = 0;
    proof {
        assert(a@.skip(0) == a@);
        assert(b@.skip(0) == b@);
    }
    loop
        invariant
            0 <= i <= a@.len(),
            0 <= i <= b@.len(),
            rest_a.remaining() == a@.skip(i),
            rest_b.remaining() == b@.skip(i),
            lex_lt(a@, b@) == lex_lt(a@.skip(i), b@.skip(i)),
            rest_a.obeys_prophetic_iter_laws(),
            rest_b.obeys_prophetic_iter_laws(),
        decreases a@.len() - i,
    {
        let x = rest_a.next();
        let y = rest_b.next();
        match (x, y) {
            (_, None) => {
                return false;
            },
            (None, Some(_)) => {
                return true;
            },
            (Some(c), Some(d)) => {
                proof {
                    assert(a@.skip(i)[0] == c);
                    assert(b@.skip(i)[0] == d);
                }
                if c != d {
                    return (c as u32) < (d as u32);
                }
                proof {
                    assert(a@.skip(i).drop_first() == a@.skip(i + 1));
                    assert(b@.skip(i).drop_first() == b@.skip(i + 1));
                    i = i + 1;
                }
            },
        }
    }
}

/// Whether `needle` stands in `hay` at position `at`.
fn matches_at(hay: &Vec<char>, at: usize, needle: &Vec<char>) -> (r: bool)
    requires
        at + needle.len() <= hay.len(),
    ensures
        r == occurs_at(hay@, needle@, at as int),
{
    let n = needle.len();
    let mut k: usize = 0;
    while k < n
        invariant
            k <= n,
            n == needle.len(),
            at + n <= hay.len(),
            forall|j: int| 0 <= j < k ==> hay@[at + j] == needle@[j],
        decreases n - k,
    {
        if hay[at + k] != needle[k] {
            assert(hay@.subrange(at as int, at + n)[k as int] != needle@[k as int]);
            return false;
        }
        k += 1;
    }
    assert(hay@.subrange(at as int, at + n) =~= needle@);
    true
}

/// Finds the first occurrence of `needle` in the characters of `hay` from
/// position `lo` up to, and without, position `hi`.
///
/// The result is a position in `hay`; the occurrence lies wholly inside the
/// window.
pub fn find_in(hay: &Vec<char>, lo: usize, hi: usize, needle: &Vec<char>) -> (r: Option<usize>)
    requires
        lo <= hi <= hay.len(),
    ensures
        match r {
            Some(i) => lo <= i && i + needle.len() <= hi && find_first(
                hay@.subrange(lo as int, hi as int),
                needle@,
            ) == Some(i - lo),
            None => find_first(hay@.subrange(lo as int, hi as int), needle@) is None,
        },
{
    let n = needle.len();
    let ghost window = hay@.subrange(lo as int, hi as int);
    if hi - lo < n {
        proof {
            lemma_find_first_none(window, needle@);
        }
        return None;
    }
    if n == 0 {
        proof {
            assert(window.subrange(0, 0) =~= needle@);
            lemma_find_first_is(window, needle@, 0);
        }
        return Some(lo);
    }
    let last = hi - n;
    let mut i: usize = lo;
    while i <= last
        invariant
            lo <= i <= last + 1,
            last + n == hi,
            0 < n == needle.len(),
            lo <= hi <= hay.len(),
            window == hay@.subrange(lo as int, hi as int),
            forall|j: int| 0 <= j < i - lo ==> !occurs_at(window, needle@, j),
        decreases last + 1 - i,
    {
        let here = matches_at(hay, i, needle);
        proof {
            assert(window.subrange(i - lo, i - lo + n) =~= hay@.subrange(i as int, i + n));
        }
        if here {
            proof {
                lemma_find_first_is(window, needle@, i - lo);
            }
            return Some(i);
        }
        i += 1;
    }
    proof {
        lemma_find_first_none(window, needle@);
    }
    None
}

/// Whether `needle` occurs somewhere in `hay`. The comparison is by
/// character, with no folding of case.
pub fn str_contains(hay: &str, needle: &str) -> (r: bool)
    ensures
        r == contains(hay@, needle@),
{
    let h = chars_of(hay);
    let n = chars_of(needle);
    let found = find_in(&h, 0, h.len(), &n);
    proof {
        assert(h@.subrange(0, h.len() as int) =~= hay@);
        lemma_find_first_none(hay@, needle@);
    }
    found.is_some()
}

/// Whether `c` is white space in the sense of Unicode's `White_Space`
/// property, as `char::is_whitespace` of the standard library decides it.
pub uninterp spec fn is_whitespace(c: char) -> bool;

/// `char::is_whitespace` of the standard library: the contract gives its
/// answer the name [`is_whitespace`] and claims nothing else of it.
#[verifier::external_body]
fn whitespace(c: char) -> (r: bool)
    ensures
        r == is_whitespace(c),
{
    c.is_whitespace()
}

/// `s` without the white space it begins with.
pub open spec fn trim_start(s: Seq<char>) -> Seq<char>
    decreases s.len(),
{
    if s.len() > 0 && is_whitespace(s.first()) {
        trim_start(s.drop_first())
    } else {
        s
    }
}

/// `s` without the white space it ends with.
pub open spec fn trim_end(s: Seq<char>) -> Seq<char>
    decreases s.len(),
{
    if s.len() > 0 && is_whitespace(s.last()) {
        trim_end(s.drop_last())
    } else {
        s
    }
}

/// `s` without the white space at either end.
pub open spec fn trimmed(s: Seq<char>) -> Seq<char> {
    trim_end(trim_start(s))
}

/// The pieces between the occurrences of `sep` in `s`, in order. A text
/// without `sep` is one piece, the empty text too; `n` separators give
/// `n + 1` pieces, of which some may be empty.
pub open spec fn split(s: Seq<char>, sep: char) -> Seq<Seq<char>>
    decreases s.len(),
{
    let found = find_first(s, seq![sep]);
    if found is Some && 0 <= found->0 < s.len() {
        seq![s.take(found->0)] + split(s.skip(found->0 + 1), sep)
    } else {
        seq![s]
    }
}

/// The pieces of `s` between separators, each trimmed.
pub open spec fn split_trimmed(s: Seq<char>, sep: char) -> Seq<Seq<char>> {
    split(s, sep).map_values(|piece: Seq<char>| trimmed(piece))
}

/// Trims the window of `hay` from `lo` up to, and without, `hi`: the result
/// is the window of what stays.
pub fn trim_in(hay: &Vec<char>, lo: usize, hi: usize) -> (r: (usize, usize))
    requires
        lo <= hi <= hay.len(),
    ensures
        lo <= r.0 <= r.1 <= hi,
        hay@.subrange(r.0 as int, r.1 as int) == trimmed(hay@.subrange(lo as int, hi as int)),
{
    let mut a: usize = lo;
    while a < hi && whitespace(hay[a])
        invariant
            lo <= a <= hi <= hay.len(),
            trim_start(hay@.subrange(lo as int, hi as int)) == trim_start(
                hay@.subrange(a as int, hi as int),
            ),
        decreases hi - a,
    {
        proof {
            assert(hay@.subrange(a as int, hi as int).drop_first() =~= hay@.subrange(
                a + 1,
                hi as int,
            ));
        }
        a += 1;
    }
    let mut b: usize = hi;
    while a < b && whitespace(hay[b - 1])
        invariant
            a <= b <= hi <= hay.len(),
            trim_end(hay@.subrange(a as int, hi as int)) == trim_end(
                hay@.subrange(a as int, b as int),
            ),
        decreases b - a,
    {
        proof {
            assert(hay@.subrange(a as int, b as int).drop_last() =~= hay@.subrange(
                a as int,
                b - 1,
            ));
        }
        b -= 1;
    }
    (a, b)
}

/// Cuts `s` at every `sep` and trims each piece.
pub fn split_and_trim(s: &str, sep: char) -> (pieces: Vec<String>)
    ensures
        pieces.deep_view() == split_trimmed(s@, sep),
{
    let hay = chars_of(s);
    let mut needle: Vec<char> = Vec::new();
    needle.push(sep);
    let mut out: Vec<String> = Vec::new();
    let mut start: usize = 0;
    let ghost mut raw: Seq<Seq<char>> = Seq::empty();
    proof {
        assert(s@.skip(0) == s@);
        assert(raw + split(s@, sep) == split(s@, sep));
    }
    loop
        invariant
            start <= hay.len(),
            hay@ == s@,
            needle@ == seq![sep],
            split(s@, sep) == raw + split(s@.skip(start as int), sep),
            out.len() == raw.len(),
            forall|k: int| 0 <= k < raw.len() ==> (#[trigger] out@[k])@ == trimmed(raw[k]),
        decreases hay.len() - start,
    {
        let ghost rest = s@.skip(start as int);
        assert(hay@.subrange(start as int, hay.len() as int) == rest);
        let end = match find_in(&hay, start, hay.len(), &needle) {
            Some(i) => i,
            None => hay.len(),
        };
        let (a, b) = trim_in(&hay, start, end);
        let piece = s.substring_char(a, b).to_owned();
        let ghost old_raw = raw;
        proof {
            raw = raw.push(hay@.subrange(start as int, end as int));
            assert(rest.take(end - start) == hay@.subrange(start as int, end as int));
        }
        out.push(piece);
        if end == hay.len() {
            proof {
                assert(split(rest, sep) == seq![rest]);
                assert(rest.take(end - start) == rest);
                assert(split(s@, sep) == raw);
                assert(out.deep_view() =~= split_trimmed(s@, sep));
            }
            return out;
        }
        proof {
            assert(rest.skip(end - start + 1) == s@.skip(end + 1));
            assert(split(rest, sep) == seq![rest.take(end - start)] + split(
                rest.skip(end - start + 1),
                sep,
            ));
            assert(old_raw + (seq![rest.take(end - start)] + split(s@.skip(end + 1), sep)) == raw
                + split(s@.skip(end + 1), sep));
        }
        start = end + 1;
    }
}

/// Whether `c` is one of the ten decimal digits.
pub open spec fn is_digit(c: char) -> bool {
    48 <= c as u32 <= 57
}

/// Whether `s` consists of decimal digits only.
pub open spec fn all_digits(s: Seq<char>) -> bool {
    forall|i: int| 0 <= i < s.len() ==> is_digit(#[trigger] s[i])
}

/// The number that the decimal digits of `s` denote.
pub open spec fn decimal_value(s: Seq<char>) -> nat
    decreases s.len(),
{
    if s.len() == 0 {
        0
    } else {
        (decimal_value(s.drop_last()) * 10 + (s.last() as u32 - 48)) as nat
    }
}

/// The number that `s` denotes as a decimal numeral: one or more digits,
/// with or without a `+` in front, and a value that fits the machine word.
/// Anything else denotes no number.
pub open spec fn parsed_decimal(s: Seq<char>) -> Option<usize> {
    let digits = if s.len() > 0 && s[0] == '+' {
        s.skip(1)
    } else {
        s
    };
    if digits.len() > 0 && all_digits(digits) && decimal_value(digits) <= usize::MAX {
        Some(decimal_value(digits) as usize)
    } else {
        None
    }
}

/// Reads `text` as a decimal numeral; see [`parsed_decimal`].
pub fn parse_decimal(text: &str) -> (number: Option<usize>)
    ensures
        number == parsed_decimal(text@),
{
    let all = chars_of(text);
    let start: usize = if all.len() > 0 && all[0] == '+' {
        1
    } else {
        0
    };
    let ghost digits = text@.skip(start as int);
    proof {
        assert(text@.skip(0) == text@);
    }
    if all.len() == start {
        return None;
    }
    let mut value: usize = 0;
    let mut fits = true;
    let mut i: usize = start;
    proof {
        assert(digits.take(0) == Seq::<char>::empty());
    }
    while i < all.len()
        invariant
            start <= i <= all.len(),
            all@ == text@,
            digits == text@.skip(start as int),
            parsed_decimal(text@) == if digits.len() > 0 && all_digits(digits) && decimal_value(
                digits,
            ) <= usize::MAX {
                Some(decimal_value(digits) as usize)
            } else {
                None
            },
            all_digits(digits.take(i - start)),
            fits ==> value == decimal_value(digits.take(i - start)),
            !fits ==> decimal_value(digits.take(i - start)) > usize::MAX,
        decreases all.len() - i,
    {
        let u: u32 = all[i] as u32;
        let ghost k = i - start;
        if u < 48 || u > 57 {
            assert(!all_digits(digits)) by {
                assert(!is_digit(digits[k]));
            }
            return None;
        }
        let d: usize = (u - 48) as usize;
        proof {
            assert(digits.take(k + 1).drop_last() == digits.take(k));
            assert(digits.take(k + 1).last() == digits[k]);
            assert forall|j: int| 0 <= j < k + 1 implies is_digit(
                #[trigger] digits.take(k + 1)[j],
            ) by {
                if j < k {
                    assert(digits.take(k)[j] == digits[j]);
                }
            }
        }
        if fits {
            if value > (usize::MAX - d) / 10 {
                fits = false;
            } else {
                value = value * 10 + d;
            }
        }
        i += 1;
    }
    assert(digits.take(digits.len() as int) == digits);
    if fits {
        Some(value)
    } else {
        None
    }
}

} // verus!
