//! Character-level helpers shared by the configuration and routing code.
use vstd::prelude::*;

verus! {

/// Unicode `White_Space` property, which `char::is_whitespace` and therefore
/// `str::trim` use.
pub open spec fn is_white_space(c: char) -> bool {
    ||| '\u{9}' <= c <= '\u{d}'
    ||| c == ' '
    ||| c == '\u{85}'
    ||| c == '\u{a0}'
    ||| c == '\u{1680}'
    ||| '\u{2000}' <= c <= '\u{200a}'
    ||| c == '\u{2028}'
    ||| c == '\u{2029}'
    ||| c == '\u{202f}'
    ||| c == '\u{205f}'
    ||| c == '\u{3000}'
}

/// `s` without its leading white space.
pub open spec fn trim_start(s: Seq<char>) -> Seq<char>
    decreases s.len(),
{
    if s.len() > 0 && is_white_space(s[0]) {
        trim_start(s.drop_first())
    } else {
        s
    }
}

/// `s` without its trailing white space.
pub open spec fn trim_end(s: Seq<char>) -> Seq<char>
    decreases s.len(),
{
    if s.len() > 0 && is_white_space(s.last()) {
        trim_end(s.drop_last())
    } else {
        s
    }
}

/// `s` without leading and trailing white space (what `str::trim` returns).
pub open spec fn trim(s: Seq<char>) -> Seq<char> {
    trim_end(trim_start(s))
}

/// Whether every character of `s` is white space (`s.trim().is_empty()`).
pub open spec fn is_blank(s: Seq<char>) -> bool {
    forall|i: int| 0 <= i < s.len() ==> is_white_space(#[trigger] s[i])
}

/// Index of the first occurrence of `c` in `s`.
pub open spec fn find_char(s: Seq<char>, c: char) -> Option<nat>
    decreases s.len(),
{
    if s.len() == 0 {
        None
    } else if s[0] == c {
        Some(0)
    } else {
        match find_char(s.drop_first(), c) {
            Some(k) => Some(k + 1),
            None => None,
        }
    }
}

/// Index of the first occurrence of the two-character pattern `a b` in `s`.
pub open spec fn find_pair(s: Seq<char>, a: char, b: char) -> Option<nat>
    decreases s.len(),
{
    if s.len() < 2 {
        None
    } else if s[0] == a && s[1] == b {
        Some(0)
    } else {
        match find_pair(s.drop_first(), a, b) {
            Some(k) => Some(k + 1),
            None => None,
        }
    }
}

/// Whether `c` has the Unicode `White_Space` property (`char::is_whitespace`).
pub fn is_white_space_char(c: char) -> (b: bool)
    ensures
        b == is_white_space(c),
{
    ('\u{9}' <= c && c <= '\u{d}') || c == ' ' || c == '\u{85}' || c == '\u{a0}' || c
        == '\u{1680}' || ('\u{2000}' <= c && c <= '\u{200a}') || c == '\u{2028}' || c
        == '\u{2029}' || c == '\u{202f}' || c == '\u{205f}' || c == '\u{3000}'
}

/// The characters of `s`, in order.
pub fn chars_of(s: &str) -> (v: Vec<char>)
    ensures
        v@ == s@,
{
    broadcast use vstd::string::group_string_axioms;

    let mut v: Vec<char> = Vec::new();
    for c in it: s.chars()
        invariant
            v@ == it.seq().take(it.index()),
    {
        v.push(c);
    }
    v
}

/// Builds a `String` from characters (`FromIterator<&char> for String`).
#[verifier::external_body]
pub fn string_from_chars(v: &Vec<char>) -> (s: String)
    ensures
        s@ == v@,
{
    v.iter().collect()
}

/// Copies `s[from..to]` into a new vector.
pub fn slice_chars(s: &Vec<char>, from: usize, to: usize) -> (v: Vec<char>)
    requires
        from <= to <= s.len(),
    ensures
        v@ == s@.subrange(from as int, to as int),
{
    let mut v: Vec<char> = Vec::new();
    let mut i = from;
    while i < to
        invariant
            from <= i <= to <= s.len(),
            v@ == s@.subrange(from as int, i as int),
        decreases to - i,
    {
        v.push(s[i]);
        i = i + 1;
    }
    v
}

/// A match found by `find_char` lies inside the sequence and holds `c`,
/// and no earlier position holds `c`.
pub proof fn lemma_find_char(s: Seq<char>, c: char)
    ensures
        match find_char(s, c) {
            Some(k) => k < s.len() && s[k as int] == c && forall|m: int| 0 <= m < k ==> s[m] != c,
            None => forall|m: int| 0 <= m < s.len() ==> s[m] != c,
        },
    decreases s.len(),
{
    if s.len() > 0 {
        lemma_find_char(s.drop_first(), c);
        assert forall|m: int| 1 <= m < s.len() implies s[m] == s.drop_first()[m - 1] by {}
    }
}

/// A match found by `find_pair` lies inside the sequence.
pub proof fn lemma_find_pair(s: Seq<char>, a: char, b: char)
    ensures
        match find_pair(s, a, b) {
            Some(k) => k + 2 <= s.len(),
            None => true,
        },
    decreases s.len(),
{
    if s.len() >= 2 {
        lemma_find_pair(s.drop_first(), a, b);
    }
}

/// Bounds of `trim(s[from..to])` inside `s`.
pub fn trim_range(s: &Vec<char>, from: usize, to: usize) -> (r: (usize, usize))
    requires
        from <= to <= s.len(),
    ensures
        from <= r.0 <= r.1 <= to,
        s@.subrange(r.0 as int, r.1 as int) == trim(s@.subrange(from as int, to as int)),
{
    let mut a = from;
    while a < to && is_white_space_char(s[a])
        invariant
            from <= a <= to <= s.len(),
            trim_start(s@.subrange(from as int, to as int)) == trim_start(
                s@.subrange(a as int, to as int),
            ),
        decreases to - a,
    {
        assert(s@.subrange(a as int, to as int).drop_first() =~= s@.subrange(
            a as int + 1,
            to as int,
        ));
        a = a + 1;
    }
    assert(trim_start(s@.subrange(a as int, to as int)) == s@.subrange(a as int, to as int));
    let mut b = to;
    while b > a && is_white_space_char(s[b - 1])
        invariant
            from <= a <= b <= to <= s.len(),
            trim_end(s@.subrange(a as int, to as int)) == trim_end(s@.subrange(a as int, b as int)),
        decreases b - a,
    {
        assert(s@.subrange(a as int, b as int).drop_last() =~= s@.subrange(
            a as int,
            b as int - 1,
        ));
        b = b - 1;
    }
    assert(trim_end(s@.subrange(a as int, b as int)) == s@.subrange(a as int, b as int));
    (a, b)
}

/// First index in `from..to` holding `c`, or `to` when there is none.
pub fn find_char_in(s: &Vec<char>, from: usize, to: usize, c: char) -> (k: usize)
    requires
        from <= to <= s.len(),
    ensures
        from <= k <= to,
        k < to ==> find_char(s@.subrange(from as int, to as int), c) == Some((k - from) as nat),
        k == to ==> find_char(s@.subrange(from as int, to as int), c) is None,
{
    let mut j = from;
    while j < to && s[j] != c
        invariant
            from <= j <= to <= s.len(),
            find_char(s@.subrange(from as int, to as int), c) == match find_char(
                s@.subrange(j as int, to as int),
                c,
            ) {
                Some(k) => Some((k + j - from) as nat),
                None => None,
            },
        decreases to - j,
    {
        assert(s@.subrange(j as int, to as int).drop_first() =~= s@.subrange(
            j as int + 1,
            to as int,
        ));
        j = j + 1;
    }
    j
}

/// First index `k` in `from..to - 1` with `s[k] == a && s[k + 1] == b`, or `to`.
pub fn find_pair_in(s: &Vec<char>, from: usize, to: usize, a: char, b: char) -> (k: usize)
    requires
        from <= to <= s.len(),
    ensures
        k == to || from <= k && k + 2 <= to,
        k < to ==> find_pair(s@.subrange(from as int, to as int), a, b) == Some((k - from) as nat),
        k == to ==> find_pair(s@.subrange(from as int, to as int), a, b) is None,
{
    let mut j = from;
    while to - j > 1 && !(s[j] == a && s[j + 1] == b)
        invariant
            from <= j <= to <= s.len(),
            find_pair(s@.subrange(from as int, to as int), a, b) == match find_pair(
                s@.subrange(j as int, to as int),
                a,
                b,
            ) {
                Some(k) => Some((k + j - from) as nat),
                None => None,
            },
        decreases to - j,
    {
        assert(s@.subrange(j as int, to as int).drop_first() =~= s@.subrange(
            j as int + 1,
            to as int,
        ));
        j = j + 1;
    }
    if to - j > 1 {
        j
    } else {
        to
    }
}

} // verus!
