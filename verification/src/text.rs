//! Character-level text operations on which the parser is built.
//!
//! A text is modelled by its sequence of `char`s (the view of a `str` or
//! `String`).  Executable code works on a `Vec<char>` together with a range
//! `lo..hi` of it; each function states its result over the subrange.
//! Columns of the language server protocol are counted in UTF-8 bytes; they
//! are given by `utf8_len`.
use vstd::prelude::*;

verus! {

/// Whether `c` has the Unicode `White_Space` property (what `char::is_whitespace`
/// returns): U+0009 to U+000D, U+0020, U+0085, U+00A0, U+1680, U+2000 to U+200A,
/// U+2028, U+2029, U+202F, U+205F and U+3000.
pub open spec fn unicode_white_space(c: char) -> bool {
    let u = c as u32;
    ||| 0x09 <= u <= 0x0D
    ||| u == 0x20
    ||| u == 0x85
    ||| u == 0xA0
    ||| u == 0x1680
    ||| 0x2000 <= u <= 0x200A
    ||| u == 0x2028
    ||| u == 0x2029
    ||| u == 0x202F
    ||| u == 0x205F
    ||| u == 0x3000
}

/// Whether `c` is Unicode `Alphabetic` or `Numeric`: what `char::is_alphanumeric` returns.
pub uninterp spec fn unicode_alphanumeric(c: char) -> bool;

/// Whether `c` is an ASCII letter or digit.
pub open spec fn ascii_alphanumeric(c: char) -> bool {
    ('a' <= c <= 'z') || ('A' <= c <= 'Z') || ('0' <= c <= '9')
}

/// Calls `char::is_whitespace`, which tells whether `c` has the `White_Space`
/// property; the set of such characters is spelled out in `unicode_white_space`.
#[verifier::external_body]
pub(crate) fn char_is_whitespace(c: char) -> (r: bool)
    ensures
        r == unicode_white_space(c),
{
    c.is_whitespace()
}

/// Calls `char::is_alphanumeric`. Its result is `unicode_alphanumeric(c)`; for
/// an ASCII character that is whether it is a letter or a digit. Which other
/// characters are alphanumeric is left to the Unicode tables of the standard
/// library and not stated here.
#[verifier::external_body]
pub(crate) fn char_is_alphanumeric(c: char) -> (r: bool)
    ensures
        r == unicode_alphanumeric(c),
        (c as u32) < 0x80 ==> (r <==> ascii_alphanumeric(c)),
{
    c.is_alphanumeric()
}

/// Calls `String::push`, which appends `c` to the string.
#[verifier::external_body]
pub(crate) fn string_push(s: &mut String, c: char)
    ensures
        final(s)@ == old(s)@.push(c),
{
    s.push(c);
}

/// The classes of characters that the scanners of this crate look for.
#[derive(Clone, Copy)]
pub enum CharClass {
    /// Exactly the given character.
    Is(char),
    /// A character with the `White_Space` property.
    Whitespace,
    /// A character without the `White_Space` property.
    NotWhitespace,
    /// A character that cannot occur in a task name: neither alphanumeric nor `-` nor `_`.
    NotNameChar,
    /// The end of a parameter name: `=` or whitespace.
    ParamNameEnd,
}

/// Whether a character may occur in a task name.
pub open spec fn is_name_char(c: char) -> bool {
    unicode_alphanumeric(c) || c == '-' || c == '_'
}

/// Whether `c` belongs to the class `k`.
pub open spec fn in_class(c: char, k: CharClass) -> bool {
    match k {
        CharClass::Is(x) => c == x,
        CharClass::Whitespace => unicode_white_space(c),
        CharClass::NotWhitespace => !unicode_white_space(c),
        CharClass::NotNameChar => !is_name_char(c),
        CharClass::ParamNameEnd => c == '=' || unicode_white_space(c),
    }
}

/// Decides `in_class`.
pub fn class_matches(c: char, k: CharClass) -> (r: bool)
    ensures
        r == in_class(c, k),
{
    match k {
        CharClass::Is(x) => c == x,
        CharClass::Whitespace => char_is_whitespace(c),
        CharClass::NotWhitespace => !char_is_whitespace(c),
        CharClass::NotNameChar => !(char_is_alphanumeric(c) || c == '-' || c == '_'),
        CharClass::ParamNameEnd => c == '=' || char_is_whitespace(c),
    }
}

/// The index of the first character of `s` in class `k`, or `s.len()` when there is none.
pub open spec fn first_in(s: Seq<char>, k: CharClass) -> int
    decreases s.len(),
{
    if s.len() == 0 {
        0
    } else if in_class(s[0], k) {
        0
    } else {
        1 + first_in(s.drop_first(), k)
    }
}

/// The index of the last character of `s` in class `k`, or `-1` when there is none.
pub open spec fn last_in(s: Seq<char>, k: CharClass) -> int
    decreases s.len(),
{
    if s.len() == 0 {
        -1
    } else if in_class(s.last(), k) {
        s.len() - 1
    } else {
        last_in(s.drop_last(), k)
    }
}

/// `first_in` is the only index before which no character is in the class.
pub proof fn lemma_first_in(s: Seq<char>, k: CharClass, i: int)
    requires
        0 <= i <= s.len(),
        forall|j: int| 0 <= j < i ==> !in_class(#[trigger] s[j], k),
        i < s.len() ==> in_class(s[i], k),
    ensures
        first_in(s, k) == i,
    decreases s.len(),
{
    if s.len() > 0 && i > 0 {
        assert(!in_class(s[0], k));
        assert forall|j: int| 0 <= j < i - 1 implies !in_class(#[trigger] s.drop_first()[j], k) by {
            assert(s.drop_first()[j] == s[j + 1]);
        }
        lemma_first_in(s.drop_first(), k, i - 1);
    }
}

/// What `first_in` is: the characters before it are outside the class, the one at it inside.
pub proof fn lemma_first_in_props(s: Seq<char>, k: CharClass)
    ensures
        0 <= first_in(s, k) <= s.len(),
        forall|j: int| 0 <= j < first_in(s, k) ==> !in_class(#[trigger] s[j], k),
        first_in(s, k) < s.len() ==> in_class(s[first_in(s, k)], k),
    decreases s.len(),
{
    if s.len() > 0 && !in_class(s[0], k) {
        lemma_first_in_props(s.drop_first(), k);
        assert forall|j: int| 0 <= j < first_in(s, k) implies !in_class(#[trigger] s[j], k) by {
            if j > 0 {
                assert(s[j] == s.drop_first()[j - 1]);
            }
        }
    }
}

/// `last_in` is the only index after which no character is in the class.
pub proof fn lemma_last_in(s: Seq<char>, k: CharClass, i: int)
    requires
        -1 <= i < s.len(),
        forall|j: int| i < j < s.len() ==> !in_class(#[trigger] s[j], k),
        i >= 0 ==> in_class(s[i], k),
    ensures
        last_in(s, k) == i,
    decreases s.len(),
{
    if s.len() > 0 && i < s.len() - 1 {
        assert(!in_class(s[s.len() - 1], k));
        assert forall|j: int| i < j < s.len() - 1 implies !in_class(#[trigger] s.drop_last()[j], k) by {
            assert(s.drop_last()[j] == s[j]);
        }
        lemma_last_in(s.drop_last(), k, i);
    }
}

/// What `last_in` is: the characters after it are outside the class, the one at it inside.
pub proof fn lemma_last_in_props(s: Seq<char>, k: CharClass)
    ensures
        -1 <= last_in(s, k) < s.len(),
        forall|j: int| last_in(s, k) < j < s.len() ==> !in_class(#[trigger] s[j], k),
        last_in(s, k) >= 0 ==> in_class(s[last_in(s, k)], k),
    decreases s.len(),
{
    if s.len() > 0 && !in_class(s.last(), k) {
        lemma_last_in_props(s.drop_last(), k);
        assert forall|j: int| last_in(s, k) < j < s.len() implies !in_class(#[trigger] s[j], k) by {
            if j < s.len() - 1 {
                assert(s[j] == s.drop_last()[j]);
            }
        }
    }
}

/// The number of whitespace characters at the start of `s`.
pub open spec fn leading_ws(s: Seq<char>) -> int {
    first_in(s, CharClass::NotWhitespace)
}

/// `s` without its leading whitespace (`str::trim_start`).
pub open spec fn trim_start(s: Seq<char>) -> Seq<char> {
    s.skip(leading_ws(s))
}

/// `s` without its trailing whitespace (`str::trim_end`).
pub open spec fn trim_end(s: Seq<char>) -> Seq<char> {
    s.take(last_in(s, CharClass::NotWhitespace) + 1)
}

/// `s` without leading and trailing whitespace (`str::trim`).
pub open spec fn trim(s: Seq<char>) -> Seq<char> {
    trim_end(trim_start(s))
}

/// Whether `s` begins with `p`.
pub open spec fn starts_with(s: Seq<char>, p: Seq<char>) -> bool {
    p.len() <= s.len() && s.take(p.len() as int) == p
}

/// The number of bytes of the UTF-8 encoding of `c`.
pub open spec fn utf8_width(c: char) -> nat {
    if (c as u32) < 0x80 {
        1
    } else if (c as u32) < 0x800 {
        2
    } else if (c as u32) < 0x10000 {
        3
    } else {
        4
    }
}

/// The number of bytes of the UTF-8 encoding of `s`: what `str::len` returns.
pub open spec fn utf8_len(s: Seq<char>) -> nat
    decreases s.len(),
{
    if s.len() == 0 {
        0
    } else {
        utf8_len(s.drop_last()) + utf8_width(s.last())
    }
}

/// The byte length of a concatenation is the sum of the byte lengths.
pub proof fn lemma_utf8_len_concat(a: Seq<char>, b: Seq<char>)
    ensures
        utf8_len(a + b) == utf8_len(a) + utf8_len(b),
    decreases b.len(),
{
    if b.len() > 0 {
        assert((a + b).drop_last() =~= a + b.drop_last());
        lemma_utf8_len_concat(a, b.drop_last());
    } else {
        assert(a + b =~= a);
    }
}

/// A text has at least as many bytes as characters, and at most four times as many.
pub proof fn lemma_utf8_len_bounds(s: Seq<char>)
    ensures
        s.len() <= utf8_len(s) <= 4 * s.len(),
    decreases s.len(),
{
    if s.len() > 0 {
        lemma_utf8_len_bounds(s.drop_last());
    }
}

/// The byte length of a prefix grows by the width of the next character.
pub proof fn lemma_utf8_len_take_step(s: Seq<char>, i: int)
    requires
        0 <= i < s.len(),
    ensures
        utf8_len(s.take(i + 1)) == utf8_len(s.take(i)) + utf8_width(s[i]),
{
    assert(s.take(i + 1).drop_last() =~= s.take(i));
}

/// A subrange has no more bytes than the whole text.
pub proof fn lemma_utf8_len_subrange(s: Seq<char>, lo: int, hi: int)
    requires
        0 <= lo <= hi <= s.len(),
    ensures
        utf8_len(s.subrange(lo, hi)) + utf8_len(s.take(lo)) + utf8_len(s.skip(hi)) == utf8_len(s),
        utf8_len(s.subrange(lo, hi)) <= utf8_len(s),
        utf8_len(s.take(lo)) <= utf8_len(s.take(hi)),
{
    lemma_utf8_len_concat(s.take(lo), s.subrange(lo, hi));
    lemma_utf8_len_concat(s.take(lo) + s.subrange(lo, hi), s.skip(hi));
    assert(s.take(lo) + s.subrange(lo, hi) =~= s.take(hi));
    assert(s.take(hi) + s.skip(hi) =~= s);
}

/// `utf8_len` agrees with the length of vstd's UTF-8 encoding, which is the byte length of a `str`.
pub proof fn lemma_utf8_len_is_encoding_len(s: Seq<char>)
    ensures
        utf8_len(s) == vstd::utf8::encode_utf8(s).len(),
    decreases s.len(),
{
    if s.len() > 0 {
        lemma_utf8_len_is_encoding_len(s.drop_first());
        lemma_utf8_len_concat(seq![s[0]], s.drop_first());
        assert(seq![s[0]] + s.drop_first() =~= s);
        assert(seq![s[0]].drop_last() =~= Seq::<char>::empty());
        assert(utf8_len(seq![s[0]]) == utf8_width(s[0])) by {
            reveal_with_fuel(utf8_len, 2);
        }
        vstd::utf8::char_is_scalar(s[0]);
        let e = vstd::utf8::encode_scalar(s[0] as u32);
        assert(e.len() == utf8_width(s[0]));
        assert(vstd::utf8::encode_utf8(s) == e + vstd::utf8::encode_utf8(s.drop_first()));
    }
}

/// The first occurrence of `pat` in `s` at or after `from`, as `str::find` with a `str` pattern.
pub open spec fn find_seq_from(s: Seq<char>, pat: Seq<char>, from: int) -> Option<int>
    decreases s.len() - from,
{
    if from < 0 || from + pat.len() > s.len() {
        None
    } else if s.subrange(from, from + pat.len()) == pat {
        Some(from)
    } else if from >= s.len() {
        None
    } else {
        find_seq_from(s, pat, from + 1)
    }
}

/// The first occurrence of `pat` in `s`.
pub open spec fn find_seq(s: Seq<char>, pat: Seq<char>) -> Option<int> {
    find_seq_from(s, pat, 0)
}

/// `s` with a final carriage return removed.
pub open spec fn strip_cr(s: Seq<char>) -> Seq<char> {
    if s.len() > 0 && s.last() == '\r' {
        s.drop_last()
    } else {
        s
    }
}

/// The lines of `s`, as `str::lines` splits them: at `\n` or `\r\n`; a final
/// line ending is optional, and a `\r` that ends the text stays in its line.
pub open spec fn lines_of(s: Seq<char>) -> Seq<Seq<char>>
    decreases s.len(),
{
    if s.len() == 0 {
        Seq::empty()
    } else {
        let k = first_in(s, CharClass::Is('\n'));
        if k >= s.len() {
            seq![s]
        } else {
            proof {
                lemma_first_in_props(s, CharClass::Is('\n'));
            }
            seq![strip_cr(s.take(k))] + lines_of(s.skip(k + 1))
        }
    }
}

/// The lines joined with `\n` between them (`[&str]::join("\n")`).
pub open spec fn join_lines(ls: Seq<Seq<char>>) -> Seq<char>
    decreases ls.len(),
{
    if ls.len() == 0 {
        Seq::empty()
    } else if ls.len() == 1 {
        ls[0]
    } else {
        join_lines(ls.drop_last()) + seq!['\n'] + ls.last()
    }
}

/// The views of the lines held in a vector.
pub open spec fn lines_view(v: Seq<Vec<char>>) -> Seq<Seq<char>> {
    Seq::new(v.len(), |i: int| v[i]@)
}

// ---------------------------------------------------------------------------
// Executable scanners over a range `lo..hi` of a vector of chars.
/// The index of the first character of `v[lo..hi]` in class `k`, or `hi`.
pub fn find_class(v: &Vec<char>, lo: usize, hi: usize, k: CharClass) -> (r: usize)
    requires
        lo <= hi <= v.len(),
    ensures
        r == lo + first_in(v@.subrange(lo as int, hi as int), k),
        lo <= r <= hi,
{
    let mut i = lo;
    while i < hi && !class_matches(v[i], k)
        invariant
            lo <= i <= hi <= v.len(),
            forall|j: int| lo <= j < i ==> !in_class(#[trigger] v@[j], k),
        decreases hi - i,
    {
        i += 1;
    }
    proof {
        let s = v@.subrange(lo as int, hi as int);
        assert forall|j: int| 0 <= j < i - lo implies !in_class(#[trigger] s[j], k) by {
            assert(s[j] == v@[lo + j]);
        }
        lemma_first_in(s, k, i - lo);
    }
    i
}

/// One past the index of the last character of `v[lo..hi]` in class `k`, or `lo`.
pub fn rfind_class(v: &Vec<char>, lo: usize, hi: usize, k: CharClass) -> (r: usize)
    requires
        lo <= hi <= v.len(),
    ensures
        r == lo + last_in(v@.subrange(lo as int, hi as int), k) + 1,
        lo <= r <= hi,
{
    let mut i = hi;
    while i > lo && !class_matches(v[i - 1], k)
        invariant
            lo <= i <= hi <= v.len(),
            forall|j: int| i <= j < hi ==> !in_class(#[trigger] v@[j], k),
        decreases i - lo,
    {
        i -= 1;
    }
    proof {
        let s = v@.subrange(lo as int, hi as int);
        assert forall|j: int| i - lo <= j < s.len() implies !in_class(#[trigger] s[j], k) by {
            assert(s[j] == v@[lo + j]);
        }
        lemma_last_in(s, k, i - lo - 1);
    }
    i
}

/// The bounds of `trim_start(v[lo..hi])`: `(a, hi)`.
pub fn trim_start_bound(v: &Vec<char>, lo: usize, hi: usize) -> (a: usize)
    requires
        lo <= hi <= v.len(),
    ensures
        lo <= a <= hi,
        v@.subrange(a as int, hi as int) == trim_start(v@.subrange(lo as int, hi as int)),
        a == lo + leading_ws(v@.subrange(lo as int, hi as int)),
{
    let a = find_class(v, lo, hi, CharClass::NotWhitespace);
    assert(v@.subrange(a as int, hi as int) =~= v@.subrange(lo as int, hi as int).skip(a - lo));
    a
}

/// The bounds `(a, b)` of `trim(v[lo..hi])`.
pub fn trim_bounds(v: &Vec<char>, lo: usize, hi: usize) -> (r: (usize, usize))
    requires
        lo <= hi <= v.len(),
    ensures
        lo <= r.0 <= r.1 <= hi,
        v@.subrange(r.0 as int, r.1 as int) == trim(v@.subrange(lo as int, hi as int)),
        r.0 == lo + leading_ws(v@.subrange(lo as int, hi as int)),
{
    let a = trim_start_bound(v, lo, hi);
    let b = rfind_class(v, a, hi, CharClass::NotWhitespace);
    assert(v@.subrange(a as int, b as int) =~= v@.subrange(a as int, hi as int).take(b - a));
    (a, b)
}

/// Whether `v[lo..hi]` begins with `p`.
pub fn starts_with_str(v: &Vec<char>, lo: usize, hi: usize, p: &str) -> (r: bool)
    requires
        lo <= hi <= v.len(),
    ensures
        r == starts_with(v@.subrange(lo as int, hi as int), p@),
{
    let ghost s = v@.subrange(lo as int, hi as int);
    let mut i = lo;
    for c in it: p.chars()
        invariant
            it.seq() == p@,
            lo <= hi <= v.len(),
            s == v@.subrange(lo as int, hi as int),
            i == lo + it.index(),
            i <= hi,
            forall|j: int| 0 <= j < it.index() ==> s[j] == p@[j],
    {
        if i >= hi || v[i] != c {
            proof {
                if starts_with(s, p@) {
                    assert(s.take(p@.len() as int)[i - lo] == p@[i - lo]);
                }
            }
            return false;
        }
        i += 1;
    }
    assert(s.take(p@.len() as int) =~= p@);
    true
}

/// Whether `v[lo..hi]` is exactly `p`.
pub fn range_eq_str(v: &Vec<char>, lo: usize, hi: usize, p: &str) -> (r: bool)
    requires
        lo <= hi <= v.len(),
    ensures
        r == (v@.subrange(lo as int, hi as int) == p@),
{
    let sw = starts_with_str(v, lo, hi, p);
    proof {
        let s = v@.subrange(lo as int, hi as int);
        if s == p@ {
            assert(s.take(p@.len() as int) =~= s);
        }
    }
    if sw {
        let n = p.unicode_len();
        if n == hi - lo {
            assert(v@.subrange(lo as int, hi as int) =~= v@.subrange(lo as int, hi as int).take(n as int));
            true
        } else {
            false
        }
    } else {
        false
    }
}

/// The width of `c` in UTF-8 (`char::len_utf8`).
pub fn char_width(c: char) -> (r: usize)
    ensures
        r == utf8_width(c),
{
    let u = c as u32;
    if u < 0x80 {
        1
    } else if u < 0x800 {
        2
    } else if u < 0x10000 {
        3
    } else {
        4
    }
}

/// The number of UTF-8 bytes of `v[lo..hi]`.
pub fn utf8_len_range(v: &Vec<char>, lo: usize, hi: usize) -> (r: usize)
    requires
        lo <= hi <= v.len(),
        utf8_len(v@.subrange(lo as int, hi as int)) <= usize::MAX,
    ensures
        r == utf8_len(v@.subrange(lo as int, hi as int)),
{
    let ghost s = v@.subrange(lo as int, hi as int);
    let mut n: usize = 0;
    let mut i = lo;
    while i < hi
        invariant
            lo <= i <= hi <= v.len(),
            s == v@.subrange(lo as int, hi as int),
            utf8_len(s) <= usize::MAX,
            n == utf8_len(s.take(i - lo)),
        decreases hi - i,
    {
        proof {
            lemma_utf8_len_take_step(s, i - lo);
            lemma_utf8_len_subrange(s, 0, i - lo + 1);
        }
        n = n + char_width(v[i]);
        i += 1;
    }
    assert(s.take(hi - lo) =~= s);
    n
}

/// A new string holding `v[lo..hi]`.
pub fn range_to_string(v: &Vec<char>, lo: usize, hi: usize) -> (r: String)
    requires
        lo <= hi <= v.len(),
    ensures
        r@ == v@.subrange(lo as int, hi as int),
{
    let mut s = String::new();
    push_range(&mut s, v, lo, hi);
    s
}

/// Appends `v[lo..hi]` to `s`.
pub fn push_range(s: &mut String, v: &Vec<char>, lo: usize, hi: usize)
    requires
        lo <= hi <= v.len(),
    ensures
        final(s)@ == old(s)@ + v@.subrange(lo as int, hi as int),
{
    let ghost s0 = s@;
    let mut i = lo;
    while i < hi
        invariant
            lo <= i <= hi <= v.len(),
            s@ == s0 + v@.subrange(lo as int, i as int),
        decreases hi - i,
    {
        string_push(s, v[i]);
        i += 1;
        assert(s@ =~= s0 + v@.subrange(lo as int, i as int));
    }
}

/// A new string holding the characters of `p`.
pub fn string_of(p: &str) -> (r: String)
    ensures
        r@ == p@,
{
    p.to_owned()
}

/// The characters of `s`.
pub fn chars_of(s: &str) -> (v: Vec<char>)
    ensures
        v@ == s@,
{
    let mut v: Vec<char> = Vec::new();
    for c in it: s.chars()
        invariant
            v@ == it.seq().take(it.index() as int),
            it.seq() == s@,
    {
        v.push(c);
    }
    v
}

/// Whether `s[a..a + n]` is `p[b..b + n]`.
pub fn ranges_equal(s: &Vec<char>, a: usize, p: &Vec<char>, b: usize, n: usize) -> (r: bool)
    requires
        a + n <= s.len(),
        b + n <= p.len(),
    ensures
        r == (s@.subrange(a as int, a + n) == p@.subrange(b as int, b + n)),
{
    let mut i: usize = 0;
    while i < n
        invariant
            i <= n,
            a + n <= s.len(),
            b + n <= p.len(),
            s@.subrange(a as int, a + i) == p@.subrange(b as int, b + i),
        decreases n - i,
    {
        if s[a + i] != p[b + i] {
            proof {
                if s@.subrange(a as int, a + n) == p@.subrange(b as int, b + n) {
                    assert(s@.subrange(a as int, a + n)[i as int] == p@.subrange(b as int, b + n)[i as int]);
                }
            }
            return false;
        }
        assert(s@.subrange(a as int, a + i + 1) =~= s@.subrange(a as int, a + i).push(s@[a + i]));
        assert(p@.subrange(b as int, b + i + 1) =~= p@.subrange(b as int, b + i).push(p@[b + i]));
        i += 1;
    }
    true
}

/// The first occurrence of `pat` in `s` (`str::find` with a `str` pattern).
pub fn find_seq_exec(s: &Vec<char>, pat: &Vec<char>) -> (r: Option<usize>)
    ensures
        r matches Some(p) ==> find_seq(s@, pat@) == Some(p as int),
        r is None ==> find_seq(s@, pat@) is None,
{
    let n = pat.len();
    if n > s.len() {
        return None;
    }
    let mut from: usize = 0;
    assert(pat@.subrange(0, n as int) =~= pat@);
    while from <= s.len() - n
        invariant
            n == pat.len(),
            n <= s.len(),
            from <= s.len() - n + 1,
            find_seq(s@, pat@) == find_seq_from(s@, pat@, from as int),
            pat@.subrange(0, n as int) == pat@,
        decreases s.len() + 1 - from,
    {
        if ranges_equal(s, from, pat, 0, n) {
            return Some(from);
        }
        if from >= s.len() {
            return None;
        }
        from += 1;
    }
    None
}

/// An occurrence found by `find_seq_from` lies within `s`.
pub proof fn lemma_find_seq_from_props(s: Seq<char>, pat: Seq<char>, from: int)
    ensures
        find_seq_from(s, pat, from) matches Some(p) ==> from <= p && p + pat.len() <= s.len() && 0 <= p,
    decreases s.len() - from,
{
    if !(from < 0 || from + pat.len() > s.len()) && s.subrange(from, from + pat.len()) != pat
        && from < s.len() {
        lemma_find_seq_from_props(s, pat, from + 1);
    }
}

/// The last occurrence of `pat` in `s` at or before `from`, as `str::rfind` with a `str` pattern.
pub open spec fn rfind_seq_from(s: Seq<char>, pat: Seq<char>, from: int) -> Option<int>
    decreases from + 1,
{
    if from < 0 {
        None
    } else if from + pat.len() <= s.len() && s.subrange(from, from + pat.len()) == pat {
        Some(from)
    } else {
        rfind_seq_from(s, pat, from - 1)
    }
}

/// The last occurrence of `pat` in `s`.
pub open spec fn rfind_seq(s: Seq<char>, pat: Seq<char>) -> Option<int> {
    rfind_seq_from(s, pat, s.len() - pat.len())
}

/// The number of occurrences of `c` in `s`.
pub open spec fn count_char(s: Seq<char>, c: char) -> nat
    decreases s.len(),
{
    if s.len() == 0 {
        0
    } else {
        count_char(s.drop_last(), c) + if s.last() == c {
            1nat
        } else {
            0nat
        }
    }
}

/// The texts joined with `sep` between them (`[String]::join(sep)`).
pub open spec fn join_sep(ls: Seq<Seq<char>>, sep: Seq<char>) -> Seq<char>
    decreases ls.len(),
{
    if ls.len() == 0 {
        Seq::empty()
    } else if ls.len() == 1 {
        ls[0]
    } else {
        join_sep(ls.drop_last(), sep) + sep + ls.last()
    }
}

/// The views of a sequence of strings.
pub open spec fn strings_view(v: Seq<String>) -> Seq<Seq<char>> {
    Seq::new(v.len(), |i: int| v[i]@)
}

/// The last occurrence of `pat` in `s` (`str::rfind` with a `str` pattern).
pub fn rfind_seq_exec(s: &Vec<char>, pat: &Vec<char>) -> (r: Option<usize>)
    ensures
        r matches Some(p) ==> rfind_seq(s@, pat@) == Some(p as int),
        r is None ==> rfind_seq(s@, pat@) is None,
{
    let n = pat.len();
    if n > s.len() {
        proof {
            assert(rfind_seq_from(s@, pat@, s.len() - n) is None);
        }
        return None;
    }
    let mut from: usize = s.len() - n;
    assert(pat@.subrange(0, n as int) =~= pat@);
    loop
        invariant
            n == pat.len(),
            n <= s.len(),
            from <= s.len() - n,
            rfind_seq(s@, pat@) == rfind_seq_from(s@, pat@, from as int),
            pat@.subrange(0, n as int) == pat@,
        decreases from,
    {
        if ranges_equal(s, from, pat, 0, n) {
            return Some(from);
        }
        if from == 0 {
            assert(rfind_seq_from(s@, pat@, -1) is None);
            return None;
        }
        from -= 1;
    }
}

/// The number of occurrences of `c` in `v[lo..hi]`.
pub fn count_char_exec(v: &Vec<char>, lo: usize, hi: usize, c: char) -> (r: usize)
    requires
        lo <= hi <= v.len(),
    ensures
        r == count_char(v@.subrange(lo as int, hi as int), c),
{
    let mut n: usize = 0;
    let mut i = lo;
    assert(v@.subrange(lo as int, lo as int) =~= Seq::<char>::empty());
    while i < hi
        invariant
            lo <= i <= hi <= v.len(),
            n == count_char(v@.subrange(lo as int, i as int), c),
            n <= i - lo,
        decreases hi - i,
    {
        assert(v@.subrange(lo as int, i + 1).drop_last() =~= v@.subrange(lo as int, i as int));
        if v[i] == c {
            n += 1;
        }
        i += 1;
    }
    n
}

/// The strings joined with `sep` between them.
pub fn join_strings(parts: &Vec<String>, sep: &str) -> (r: String)
    ensures
        r@ == join_sep(strings_view(parts@), sep@),
{
    let ghost v = strings_view(parts@);
    let mut s = String::new();
    let mut k: usize = 0;
    assert(v.take(0) =~= Seq::<Seq<char>>::empty());
    while k < parts.len()
        invariant
            k <= parts.len(),
            v == strings_view(parts@),
            s@ == join_sep(v.take(k as int), sep@),
        decreases parts.len() - k,
    {
        if k > 0 {
            s.append(sep);
        }
        s.append(parts[k].as_str());
        proof {
            assert(v[k as int] == parts@[k as int]@);
            assert(v.take(k + 1).drop_last() =~= v.take(k as int));
            if k == 0 {
                assert(s@ =~= v.take(1)[0]);
            } else {
                assert(s@ =~= join_sep(v.take(k as int), sep@) + sep@ + v.take(k + 1).last());
            }
        }
        k += 1;
    }
    assert(v.take(parts.len() as int) =~= v);
    s
}

/// An occurrence found by `rfind_seq` lies within `s`.
pub proof fn lemma_rfind_seq_props(s: Seq<char>, pat: Seq<char>)
    ensures
        rfind_seq(s, pat) matches Some(p) ==> 0 <= p && p + pat.len() <= s.len(),
{
    lemma_rfind_seq_from_props(s, pat, s.len() - pat.len());
}

/// An occurrence found by `rfind_seq_from` lies within `s`.
pub proof fn lemma_rfind_seq_from_props(s: Seq<char>, pat: Seq<char>, from: int)
    ensures
        rfind_seq_from(s, pat, from) matches Some(p) ==> 0 <= p <= from && p + pat.len() <= s.len(),
    decreases from + 1,
{
    if from >= 0 && !(from + pat.len() <= s.len() && s.subrange(from, from + pat.len()) == pat) {
        lemma_rfind_seq_from_props(s, pat, from - 1);
    }
}

} // verus!
