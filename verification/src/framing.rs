//! Stream-to-record framing.
//!
//! The tracing backend serializes its whole event stream as one unbounded JSON
//! array, delivered in chunks whose boundaries never align with record
//! boundaries.  A chunk is stripped of the array brackets that appear only at
//! the very start and very end of the stream, appended to a partial buffer,
//! and the buffer is split on the record separator (a comma followed by a
//! newline).  The final split segment may be incomplete and is retained.

use vstd::prelude::*;

verus! {

/// The first byte of the record separator (a comma).
pub const SEP0: u8 = 44;

/// The second byte of the record separator (a newline).
pub const SEP1: u8 = 10;

/// The array-opening bracket stripped from the first chunk of the stream.
pub const OPEN_BRACKET: u8 = 91;

/// The array-closing bracket stripped from the last chunk of the stream.
pub const CLOSE_BRACKET: u8 = 93;

/// True if the record separator occurs in `s` starting at position `i`.
pub open spec fn is_sep_at(s: Seq<u8>, i: int) -> bool {
    &&& 0 <= i
    &&& i + 1 < s.len()
    &&& s[i] == SEP0
    &&& s[i + 1] == SEP1
}

/// Position of the leftmost record separator in `s`, or -1 if there is none.
pub open spec fn first_sep(s: Seq<u8>) -> int
    decreases s.len(),
{
    if s.len() < 2 {
        -1
    } else if s[0] == SEP0 && s[1] == SEP1 {
        0
    } else if first_sep(s.skip(1)) < 0 {
        -1
    } else {
        first_sep(s.skip(1)) + 1
    }
}

/// All parts obtained by splitting `s` on the record separator, in order,
/// including the final (possibly incomplete) part.
pub open spec fn split_parts(s: Seq<u8>) -> Seq<Seq<u8>>
    decreases s.len(),
{
    let i = first_sep(s);
    if i < 0 {
        seq![s]
    } else if 0 <= i && i + 2 <= s.len() {
        seq![s.take(i)] + split_parts(s.skip(i + 2))
    } else {
        seq![s]
    }
}

/// The complete segments of `s`: every split part except the final one.
pub open spec fn segments(s: Seq<u8>) -> Seq<Seq<u8>> {
    split_parts(s).drop_last()
}

/// The retained tail of `s`: the final split part, possibly an incomplete record.
pub open spec fn split_tail(s: Seq<u8>) -> Seq<u8> {
    split_parts(s).last()
}

/// The leftmost separator is a separator, and no position before it is one;
/// a negative result means no position is a separator.
pub proof fn lemma_first_sep_props(s: Seq<u8>)
    ensures
        first_sep(s) >= 0 ==> is_sep_at(s, first_sep(s)) && (forall|p: int|
            0 <= p < first_sep(s) ==> !is_sep_at(s, p)),
        first_sep(s) < 0 ==> forall|p: int| !is_sep_at(s, p),
    decreases s.len(),
{
    if s.len() < 2 {
    } else if s[0] == SEP0 && s[1] == SEP1 {
    } else {
        lemma_first_sep_props(s.skip(1));
        let t = s.skip(1);
        assert forall|p: int| 0 <= p && is_sep_at(s, p) implies is_sep_at(t, p - 1) by {
            assert(t[p - 1] == s[p]);
            assert(t[p] == s[p + 1]);
        }
        if first_sep(t) >= 0 {
            let k = first_sep(t) + 1;
            assert(s[k] == t[k - 1]);
            assert(s[k + 1] == t[k]);
            assert(is_sep_at(s, k));
        }
    }
}

/// A separator occurring at `k` with none before it is the leftmost one.
pub proof fn lemma_first_sep_at(s: Seq<u8>, k: int)
    requires
        is_sep_at(s, k),
        forall|p: int| 0 <= p < k ==> !is_sep_at(s, p),
    ensures
        first_sep(s) == k,
{
    lemma_first_sep_props(s);
}

/// A sequence with no separator anywhere has a negative leftmost position.
pub proof fn lemma_first_sep_none(s: Seq<u8>)
    requires
        forall|p: int| !is_sep_at(s, p),
    ensures
        first_sep(s) < 0,
{
    lemma_first_sep_props(s);
}

/// Splitting always yields at least the final part.
pub proof fn lemma_split_parts_len(s: Seq<u8>)
    ensures
        split_parts(s).len() >= 1,
{
    lemma_first_sep_props(s);
}

/// Splitting a concatenation yields the complete segments of the left part
/// followed by the split of the left part's tail joined with the right part.
/// This is what lets the reassembler consume its buffer incrementally.
pub proof fn lemma_split_parts_append(a: Seq<u8>, b: Seq<u8>)
    ensures
        split_parts(a + b) == split_parts(a).drop_last() + split_parts(split_parts(a).last() + b),
    decreases a.len(),
{
    lemma_first_sep_props(a);
    let fa = first_sep(a);
    if fa < 0 {
        assert(split_parts(a) == seq![a]);
        assert(split_parts(a).drop_last() =~= Seq::<Seq<u8>>::empty());
        assert(split_parts(a).last() == a);
        assert(split_parts(a).drop_last() + split_parts(a + b) =~= split_parts(a + b));
    } else {
        // The leftmost separator of `a` is still the leftmost one of `a + b`.
        assert((a + b)[fa] == a[fa]);
        assert((a + b)[fa + 1] == a[fa + 1]);
        assert(is_sep_at(a + b, fa));
        assert forall|p: int| 0 <= p < fa implies !is_sep_at(a + b, p) by {
            if is_sep_at(a + b, p) {
                assert((a + b)[p] == a[p]);
                assert((a + b)[p + 1] == a[p + 1]);
                assert(is_sep_at(a, p));
            }
        }
        lemma_first_sep_at(a + b, fa);
        let rest = a.skip(fa + 2);
        assert((a + b).take(fa) =~= a.take(fa));
        assert((a + b).skip(fa + 2) =~= rest + b);
        assert(split_parts(a + b) == seq![a.take(fa)] + split_parts(rest + b));
        assert(split_parts(a) == seq![a.take(fa)] + split_parts(rest));
        lemma_split_parts_append(rest, b);
        lemma_split_parts_len(rest);
        lemma_split_parts_len(split_parts(rest).last() + b);
        assert(split_parts(a).drop_last() =~= seq![a.take(fa)] + split_parts(rest).drop_last());
        assert(split_parts(a).last() == split_parts(rest).last());
        assert(seq![a.take(fa)] + (split_parts(rest).drop_last() + split_parts(
            split_parts(rest).last() + b,
        )) =~= (seq![a.take(fa)] + split_parts(rest).drop_last()) + split_parts(
            split_parts(rest).last() + b,
        ));
    }
}

/// The same statement, phrased over segments and tail.
pub proof fn lemma_segments_append(a: Seq<u8>, b: Seq<u8>)
    ensures
        segments(a + b) == segments(a) + segments(split_tail(a) + b),
        split_tail(a + b) == split_tail(split_tail(a) + b),
{
    lemma_split_parts_append(a, b);
    lemma_split_parts_len(a);
    lemma_split_parts_len(split_tail(a) + b);
    assert(segments(a + b) =~= segments(a) + segments(split_tail(a) + b));
}

/// ASCII whitespace, as trimmed from the edges of a candidate record.
pub open spec fn is_ws(b: u8) -> bool {
    b == 9 || b == 10 || b == 11 || b == 12 || b == 13 || b == 32
}

/// The whitespace predicate as a single function value.
pub open spec fn ws_pred() -> spec_fn(u8) -> bool {
    |b: u8| is_ws(b)
}

/// The stray-comma predicate as a single function value.
pub open spec fn comma_pred() -> spec_fn(u8) -> bool {
    |b: u8| b == SEP0
}

/// `s` with every leading byte satisfying `p` removed.
pub open spec fn trim_front(s: Seq<u8>, p: spec_fn(u8) -> bool) -> Seq<u8>
    decreases s.len(),
{
    if s.len() > 0 && p(s[0]) {
        trim_front(s.skip(1), p)
    } else {
        s
    }
}

/// `s` with every trailing byte satisfying `p` removed.
pub open spec fn trim_back(s: Seq<u8>, p: spec_fn(u8) -> bool) -> Seq<u8>
    decreases s.len(),
{
    if s.len() > 0 && p(s[s.len() - 1]) {
        trim_back(s.take(s.len() - 1), p)
    } else {
        s
    }
}

/// A candidate record cleaned as the reassembler does before parsing:
/// surrounding whitespace trimmed, then stray commas trimmed.
pub open spec fn clean(s: Seq<u8>) -> Seq<u8> {
    let w = trim_back(trim_front(s, ws_pred()), ws_pred());
    trim_back(trim_front(w, comma_pred()), comma_pred())
}

/// A chunk with the array-opening bracket stripped from its start.
pub open spec fn strip_lead(c: Seq<u8>) -> Seq<u8> {
    if c.len() > 0 && c[0] == OPEN_BRACKET {
        c.skip(1)
    } else {
        c
    }
}

/// A chunk with the array-closing bracket stripped from its end.
pub open spec fn strip_trail(c: Seq<u8>) -> Seq<u8> {
    if c.len() > 0 && c[c.len() - 1] == CLOSE_BRACKET {
        c.take(c.len() - 1)
    } else {
        c
    }
}

/// A chunk with the array-opening bracket stripped from its start and the
/// array-closing bracket stripped from its end, as the reassembler does.
pub open spec fn strip_model(c: Seq<u8>) -> Seq<u8> {
    strip_trail(strip_lead(c))
}

/// Exec test for the whitespace class trimmed from candidate records.
pub fn is_ws_byte(b: u8) -> (r: bool)
    ensures
        r == is_ws(b),
{
    b == 9 || b == 10 || b == 11 || b == 12 || b == 13 || b == 32
}

/// Exec test for a stray comma trimmed from candidate records.
pub fn is_comma_byte(b: u8) -> (r: bool)
    ensures
        r == (b == SEP0),
{
    b == SEP0
}

/// Computes the range of `s` left after cleaning: `s[r.0 .. r.1]` is
/// exactly `clean(s)`.
pub fn clean_range(s: &[u8]) -> (r: (usize, usize))
    ensures
        0 <= r.0 <= r.1 <= s@.len(),
        s@.subrange(r.0 as int, r.1 as int) == clean(s@),
{
    let mut lo: usize = 0;
    let mut hi: usize = s.len();
    proof {
        assert(s@.subrange(0, s@.len() as int) =~= s@);
    }
    while lo < hi && is_ws_byte(s[lo])
        invariant
            0 <= lo <= hi <= s@.len(),
            hi == s@.len(),
            trim_front(s@.subrange(lo as int, hi as int), ws_pred()) == trim_front(s@, ws_pred()),
        decreases hi - lo,
    {
        proof {
            let sub = s@.subrange(lo as int, hi as int);
            assert(sub[0] == s@[lo as int]);
            assert(ws_pred()(sub[0]));
            assert(sub.skip(1) =~= s@.subrange(lo + 1, hi as int));
        }
        lo += 1;
    }
    let ghost w1 = trim_front(s@, ws_pred());
    proof {
        let sub = s@.subrange(lo as int, hi as int);
        if lo < hi {
            assert(!ws_pred()(sub[0]));
        }
        assert(sub == w1);
    }
    while lo < hi && is_ws_byte(s[hi - 1])
        invariant
            0 <= lo <= hi <= s@.len(),
            trim_back(s@.subrange(lo as int, hi as int), ws_pred()) == trim_back(w1, ws_pred()),
        decreases hi - lo,
    {
        proof {
            let sub = s@.subrange(lo as int, hi as int);
            assert(sub[sub.len() - 1] == s@[hi - 1]);
            assert(ws_pred()(sub[sub.len() - 1]));
            assert(sub.take(sub.len() - 1) =~= s@.subrange(lo as int, hi - 1));
        }
        hi -= 1;
    }
    let ghost w2 = trim_back(w1, ws_pred());
    proof {
        let sub = s@.subrange(lo as int, hi as int);
        if lo < hi {
            assert(!ws_pred()(sub[sub.len() - 1]));
        }
        assert(sub == w2);
    }
    while lo < hi && is_comma_byte(s[lo])
        invariant
            0 <= lo <= hi <= s@.len(),
            trim_front(s@.subrange(lo as int, hi as int), comma_pred()) == trim_front(
                w2,
                comma_pred(),
            ),
        decreases hi - lo,
    {
        proof {
            let sub = s@.subrange(lo as int, hi as int);
            assert(sub[0] == s@[lo as int]);
            assert(comma_pred()(sub[0]));
            assert(sub.skip(1) =~= s@.subrange(lo + 1, hi as int));
        }
        lo += 1;
    }
    let ghost w3 = trim_front(w2, comma_pred());
    proof {
        let sub = s@.subrange(lo as int, hi as int);
        if lo < hi {
            assert(!comma_pred()(sub[0]));
        }
        assert(sub == w3);
    }
    while lo < hi && is_comma_byte(s[hi - 1])
        invariant
            0 <= lo <= hi <= s@.len(),
            trim_back(s@.subrange(lo as int, hi as int), comma_pred()) == trim_back(
                w3,
                comma_pred(),
            ),
        decreases hi - lo,
    {
        proof {
            let sub = s@.subrange(lo as int, hi as int);
            assert(sub[sub.len() - 1] == s@[hi - 1]);
            assert(comma_pred()(sub[sub.len() - 1]));
            assert(sub.take(sub.len() - 1) =~= s@.subrange(lo as int, hi - 1));
        }
        hi -= 1;
    }
    proof {
        let sub = s@.subrange(lo as int, hi as int);
        if lo < hi {
            assert(!comma_pred()(sub[sub.len() - 1]));
        }
        assert(sub == clean(s@));
    }
    (lo, hi)
}

} // verus!

