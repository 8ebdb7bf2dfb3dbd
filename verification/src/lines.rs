//! Splitting a document into lines, and the sizes of the lines.
use vstd::prelude::*;

use crate::text::{
    first_in, find_class, lemma_first_in_props, lemma_utf8_len_bounds, lemma_utf8_len_subrange,
    lines_of, lines_view, strip_cr, utf8_len, CharClass,
};

verus! {

/// Lines whose byte lengths fit a `usize`, as those of any text in memory do.
pub open spec fn lines_fit(ls: Seq<Seq<char>>) -> bool {
    forall|k: int| 0 <= k < ls.len() ==> utf8_len(#[trigger] ls[k]) <= usize::MAX
}

/// The lines of a text are no more numerous, and no longer in bytes each,
/// than the text itself.
pub proof fn lemma_lines_of_bounds(s: Seq<char>)
    ensures
        lines_of(s).len() <= s.len(),
        forall|k: int| 0 <= k < lines_of(s).len() ==> utf8_len(#[trigger] lines_of(s)[k]) <= utf8_len(s),
    decreases s.len(),
{
    if s.len() > 0 {
        let k = first_in(s, CharClass::Is('\n'));
        lemma_first_in_props(s, CharClass::Is('\n'));
        if k < s.len() {
            let rest = s.skip(k + 1);
            lemma_lines_of_bounds(rest);
            let first = strip_cr(s.take(k));
            let ls = lines_of(s);
            assert(ls == seq![first] + lines_of(rest));
            lemma_utf8_len_subrange(s, 0, k);
            lemma_utf8_len_subrange(s, k + 1, s.len() as int);
            lemma_utf8_len_subrange(s.take(k), 0, first.len() as int);
            assert(first == s.take(k).subrange(0, first.len() as int));
            assert(s.subrange(k + 1, s.len() as int) == rest);
            assert forall|j: int| 0 <= j < ls.len() implies utf8_len(#[trigger] ls[j]) <= utf8_len(s) by {
                if j > 0 {
                    assert(ls[j] == lines_of(rest)[j - 1]);
                }
            }
        }
    }
}

/// The lines of a text whose byte length fits a `usize` fit one too.
pub proof fn lemma_lines_fit(s: Seq<char>)
    requires
        utf8_len(s) <= usize::MAX,
    ensures
        lines_fit(lines_of(s)),
{
    lemma_lines_of_bounds(s);
    lemma_utf8_len_bounds(s);
}

/// A new vector holding `v[lo..hi]`.
pub fn range_to_vec(v: &Vec<char>, lo: usize, hi: usize) -> (r: Vec<char>)
    requires
        lo <= hi <= v.len(),
    ensures
        r@ == v@.subrange(lo as int, hi as int),
{
    let mut r: Vec<char> = Vec::new();
    let mut i = lo;
    while i < hi
        invariant
            lo <= i <= hi <= v.len(),
            r@ == v@.subrange(lo as int, i as int),
        decreases hi - i,
    {
        r.push(v[i]);
        i += 1;
        assert(r@ =~= v@.subrange(lo as int, i as int));
    }
    r
}

/// The lines of a text, as `str::lines` splits them.
pub fn split_lines(s: &Vec<char>) -> (r: Vec<Vec<char>>)
    ensures
        lines_view(r@) == lines_of(s@),
{
    let mut r: Vec<Vec<char>> = Vec::new();
    let mut pos: usize = 0;
    assert(s@.skip(0) =~= s@);
    while pos < s.len()
        invariant
            pos <= s.len(),
            lines_of(s@) == lines_view(r@) + lines_of(s@.skip(pos as int)),
        decreases s.len() - pos,
    {
        let ghost rest = s@.skip(pos as int);
        let k = find_class(s, pos, s.len(), CharClass::Is('\n'));
        assert(s@.subrange(pos as int, s.len() as int) == rest);
        let mut end = k;
        if end > pos && s[end - 1] == '\r' && k < s.len() {
            end = end - 1;
        }
        let piece = range_to_vec(s, pos, end);
        proof {
            lemma_first_in_props(rest, CharClass::Is('\n'));
            if k < s.len() {
                assert(rest.take(k - pos) =~= s@.subrange(pos as int, k as int));
                assert(strip_cr(rest.take(k - pos)) =~= piece@);
                assert(rest.skip(k - pos + 1) =~= s@.skip(k + 1));
                assert(lines_of(rest) == seq![piece@] + lines_of(s@.skip(k + 1)));
            } else {
                assert(piece@ =~= rest);
                assert(lines_of(rest) == seq![piece@]);
                assert(s@.skip(s.len() as int) =~= Seq::<char>::empty());
            }
        }
        let ghost r0 = r@;
        r.push(piece);
        assert(lines_view(r@) =~= lines_view(r0).push(r@[r@.len() - 1]@));
        pos = if k < s.len() {
            k + 1
        } else {
            s.len()
        };
        proof {
            assert(lines_of(s@) =~= lines_view(r@) + lines_of(s@.skip(pos as int)));
        }
    }
    assert(s@.skip(pos as int) =~= Seq::<char>::empty());
    assert(lines_view(r@) + Seq::<Seq<char>>::empty() =~= lines_view(r@));
    r
}

} // verus!
