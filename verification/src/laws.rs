//! The library's central theorems.
//!
//! Framing correctness: however the serialized stream is cut into chunks, as
//! long as the cuts do not disturb the bracket stripping, the sequence of
//! classified records equals the one obtained from the unsplit stream.  Two
//! proved conditions guarantee undisturbed stripping: cuts that keep the
//! stream brackets at chunk edges, and streams whose interior holds no
//! brackets at all, which may then be cut arbitrarily.
//!
//! Grouping correctness: a record sequence holding one begin/end pair of the
//! designated category yields exactly one bucket, holding the descriptor
//! snapshot and precisely the lines from begin through end; records outside
//! the pair appear in no bucket.
//!
//! Descriptor freshness: consecutive blocks opened at different times carry
//! different descriptor snapshots.

use vstd::prelude::*;
use crate::framing::{
    lemma_first_sep_props, lemma_segments_append, lemma_split_parts_len, segments, split_parts,
    split_tail, strip_model,
};
use crate::grouper::{
    gstep, init_gview, lemma_run_events_append, lemma_run_idle_skips, lemma_run_inside_appends,
    lines_of, run_events, GroupView, GView,
};
use crate::descriptor::{render_descriptor, DescView};
use crate::record::{
    is_begin, is_end, lemma_records_of_append, records_of, seg_records, stream_records, RecordView,
};

verus! {

/// One write call at the model level: the combined buffer's complete
/// segments are classified and its final segment is retained.  This pair is
/// exactly what the contract of `TracingWriter::write_all` states of one
/// call, and the final `seg_records` of the retained tail is what the
/// contract of `TracingWriter::flush` states.
pub open spec fn feed(p: Seq<u8>, chunk: Seq<u8>) -> (Seq<u8>, Seq<RecordView>) {
    let s = p + strip_model(chunk);
    (split_tail(s), stream_records(s))
}

/// Writing the chunks in order, from partial buffer `p`: the final partial
/// buffer and all records classified along the way.
pub open spec fn feed_all(p: Seq<u8>, chunks: Seq<Seq<u8>>) -> (Seq<u8>, Seq<RecordView>)
    decreases chunks.len(),
{
    if chunks.len() == 0 {
        (p, Seq::empty())
    } else {
        let first = feed(p, chunks[0]);
        let rest = feed_all(first.0, chunks.skip(1));
        (rest.0, first.1 + rest.1)
    }
}

/// All records classified when the chunks are written in order to a fresh
/// reassembler and the reassembler is then flushed.
pub open spec fn reassembled_records(chunks: Seq<Seq<u8>>) -> Seq<RecordView> {
    let r = feed_all(Seq::empty(), chunks);
    r.1 + seg_records(r.0)
}

/// The chunks joined back into the unsplit stream.
pub open spec fn concat_chunks(chunks: Seq<Seq<u8>>) -> Seq<u8>
    decreases chunks.len(),
{
    if chunks.len() == 0 {
        Seq::empty()
    } else {
        chunks[0] + concat_chunks(chunks.skip(1))
    }
}

/// Parsing the unsplit stream in one piece: strip the enclosing brackets,
/// split everything on the record separator, classify every cleaned part.
pub open spec fn whole_stream_records(s: Seq<u8>) -> Seq<RecordView> {
    records_of(split_parts(strip_model(s)))
}

/// The chunk boundaries do not disturb the bracket stripping: stripping each
/// chunk and joining gives the same bytes as stripping the joined stream.
/// This fails only when a cut makes a bracket inside some record sit at a
/// chunk edge, where the reassembler mistakes it for a stream bracket.
pub open spec fn strip_chunking_safe(chunks: Seq<Seq<u8>>) -> bool {
    concat_chunks(chunks.map_values(|c: Seq<u8>| strip_model(c))) == strip_model(
        concat_chunks(chunks),
    )
}

/// The cuts leave the stream brackets at the stream's edges: no chunk after
/// the first starts with the opening bracket, and no chunk before the last
/// ends with the closing bracket.  Splitting one byte at a time satisfies
/// this whenever the records themselves contain no brackets at those spots.
pub open spec fn brackets_at_edges(chunks: Seq<Seq<u8>>) -> bool {
    &&& (forall|i: int|
        #![trigger chunks[i]]
        1 <= i < chunks.len() && chunks[i].len() > 0 ==> chunks[i][0] != crate::framing::OPEN_BRACKET)
    &&& (forall|i: int|
        #![trigger chunks[i]]
        0 <= i < chunks.len() - 1 && chunks[i].len() > 0 ==> chunks[i][chunks[i].len() - 1]
            != crate::framing::CLOSE_BRACKET)
}

/// A joined stream whose chunks never start with the opening bracket does
/// not start with it either.
proof fn lemma_concat_head(chunks: Seq<Seq<u8>>)
    requires
        forall|i: int|
            #![trigger chunks[i]]
            0 <= i < chunks.len() && chunks[i].len() > 0 ==> chunks[i][0]
                != crate::framing::OPEN_BRACKET,
    ensures
        concat_chunks(chunks).len() == 0 || concat_chunks(chunks)[0]
            != crate::framing::OPEN_BRACKET,
    decreases chunks.len(),
{
    if chunks.len() > 0 {
        assert forall|i: int|
            0 <= i < chunks.skip(1).len() && (#[trigger] chunks.skip(1)[i]).len()
                > 0 implies chunks.skip(1)[i][0] != crate::framing::OPEN_BRACKET by {
            assert(chunks.skip(1)[i] == chunks[i + 1]);
        }
        lemma_concat_head(chunks.skip(1));
        if chunks[0].len() > 0 {
            assert(concat_chunks(chunks)[0] == chunks[0][0]);
        } else {
            assert(concat_chunks(chunks) =~= concat_chunks(chunks.skip(1)));
        }
    }
}

/// A joined stream whose chunks never end with the closing bracket does not
/// end with it either.
proof fn lemma_concat_last(chunks: Seq<Seq<u8>>)
    requires
        forall|i: int|
            #![trigger chunks[i]]
            0 <= i < chunks.len() && chunks[i].len() > 0 ==> chunks[i][chunks[i].len() - 1]
                != crate::framing::CLOSE_BRACKET,
    ensures
        concat_chunks(chunks).len() == 0 || concat_chunks(chunks).last()
            != crate::framing::CLOSE_BRACKET,
    decreases chunks.len(),
{
    if chunks.len() > 0 {
        assert forall|i: int|
            0 <= i < chunks.skip(1).len() && (#[trigger] chunks.skip(1)[i]).len()
                > 0 implies chunks.skip(1)[i][chunks.skip(1)[i].len() - 1]
            != crate::framing::CLOSE_BRACKET by {
            assert(chunks.skip(1)[i] == chunks[i + 1]);
        }
        lemma_concat_last(chunks.skip(1));
        let rest = concat_chunks(chunks.skip(1));
        if rest.len() > 0 {
            assert(concat_chunks(chunks).last() == rest.last());
        } else {
            assert(concat_chunks(chunks) =~= chunks[0]);
            assert(chunks[0].len() > 0 ==> concat_chunks(chunks).last() == chunks[0][chunks[0].len()
                - 1]);
        }
    }
}

/// Joining after appending one chunk appends that chunk's bytes.
proof fn lemma_concat_snoc(chunks: Seq<Seq<u8>>, c: Seq<u8>)
    ensures
        concat_chunks(chunks.push(c)) == concat_chunks(chunks) + c,
    decreases chunks.len(),
{
    if chunks.len() == 0 {
        assert(chunks.push(c)[0] == c);
        assert(chunks.push(c).skip(1) =~= chunks);
        assert(concat_chunks(chunks) == Seq::<u8>::empty());
        assert(concat_chunks(chunks.push(c)) =~= concat_chunks(chunks) + c);
    } else {
        assert(chunks.push(c)[0] == chunks[0]);
        assert(chunks.push(c).skip(1) =~= chunks.skip(1).push(c));
        lemma_concat_snoc(chunks.skip(1), c);
        assert(chunks[0] + (concat_chunks(chunks.skip(1)) + c) =~= (chunks[0] + concat_chunks(
            chunks.skip(1),
        )) + c);
    }
}

/// Stripping the leading bracket commutes with joining, when no later chunk
/// starts with one.
proof fn lemma_strip_lead_concat(chunks: Seq<Seq<u8>>)
    requires
        chunks.len() >= 1,
        forall|i: int|
            #![trigger chunks[i]]
            1 <= i < chunks.len() && chunks[i].len() > 0 ==> chunks[i][0]
                != crate::framing::OPEN_BRACKET,
    ensures
        crate::framing::strip_lead(concat_chunks(chunks)) == crate::framing::strip_lead(chunks[0])
            + concat_chunks(chunks.skip(1)),
{
    let c0 = chunks[0];
    let rest = concat_chunks(chunks.skip(1));
    assert(concat_chunks(chunks) == c0 + rest);
    if c0.len() > 0 {
        assert((c0 + rest)[0] == c0[0]);
        if c0[0] == crate::framing::OPEN_BRACKET {
            assert((c0 + rest).skip(1) =~= c0.skip(1) + rest);
        }
    } else {
        assert(c0 + rest =~= rest);
        assert forall|i: int|
            0 <= i < chunks.skip(1).len() && (#[trigger] chunks.skip(1)[i]).len()
                > 0 implies chunks.skip(1)[i][0] != crate::framing::OPEN_BRACKET by {
            assert(chunks.skip(1)[i] == chunks[i + 1]);
        }
        lemma_concat_head(chunks.skip(1));
        assert(crate::framing::strip_lead(c0) + rest =~= rest);
    }
}

/// Stripping the trailing bracket commutes with joining, when no earlier
/// chunk ends with one.
proof fn lemma_strip_trail_concat(chunks: Seq<Seq<u8>>, c: Seq<u8>)
    requires
        forall|i: int|
            #![trigger chunks[i]]
            0 <= i < chunks.len() && chunks[i].len() > 0 ==> chunks[i][chunks[i].len() - 1]
                != crate::framing::CLOSE_BRACKET,
    ensures
        crate::framing::strip_trail(concat_chunks(chunks.push(c))) == concat_chunks(chunks)
            + crate::framing::strip_trail(c),
{
    lemma_concat_snoc(chunks, c);
    let a = concat_chunks(chunks);
    if c.len() > 0 {
        assert((a + c).len() > 0);
        assert((a + c)[(a + c).len() - 1] == c[c.len() - 1]);
        if c[c.len() - 1] == crate::framing::CLOSE_BRACKET {
            assert((a + c).take((a + c).len() - 1) =~= a + c.take(c.len() - 1));
        }
    } else {
        assert(a + c =~= a);
        lemma_concat_last(chunks);
        assert(a + crate::framing::strip_trail(c) =~= a);
    }
}

/// Cuts that leave the stream brackets at the stream's edges never disturb
/// the bracket stripping.
pub proof fn lemma_brackets_at_edges_safe(chunks: Seq<Seq<u8>>)
    requires
        brackets_at_edges(chunks),
    ensures
        strip_chunking_safe(chunks),
{
    let n = chunks.len();
    let strips = chunks.map_values(|c: Seq<u8>| strip_model(c));
    if n == 0 {
        assert(concat_chunks(strips) == Seq::<u8>::empty());
        assert(strip_model(Seq::<u8>::empty()) == Seq::<u8>::empty());
    } else if n == 1 {
        assert(strips[0] == strip_model(chunks[0]));
        assert(strips.skip(1) =~= Seq::<Seq<u8>>::empty());
        assert(chunks.skip(1) =~= Seq::<Seq<u8>>::empty());
        assert(concat_chunks(Seq::<Seq<u8>>::empty()) == Seq::<u8>::empty());
        assert(concat_chunks(strips) =~= strip_model(chunks[0]));
        assert(concat_chunks(chunks) =~= chunks[0]);
    } else {
        let c0 = chunks[0];
        let cl = chunks[n - 1];
        // After stripping the head of the first chunk, the whole join is
        // lead-stripped.
        let b = chunks.update(0, crate::framing::strip_lead(c0));
        lemma_strip_lead_concat(chunks);
        assert(b[0] == crate::framing::strip_lead(c0));
        assert(b.skip(1) =~= chunks.skip(1));
        assert(concat_chunks(b) == crate::framing::strip_lead(concat_chunks(chunks)));
        // Stripping the tail of the last chunk then trail-strips the join.
        let front = b.drop_last();
        assert forall|i: int|
            0 <= i < front.len() && (#[trigger] front[i]).len() > 0 implies front[i][front[i].len()
            - 1] != crate::framing::CLOSE_BRACKET by {
            assert(front[i] == b[i]);
            if i == 0 {
                assert(b[0] == crate::framing::strip_lead(c0));
                if crate::framing::strip_lead(c0).len() > 0 {
                    assert(crate::framing::strip_lead(c0)[crate::framing::strip_lead(c0).len() - 1]
                        == c0[c0.len() - 1]);
                }
            } else {
                assert(b[i] == chunks[i]);
            }
        }
        assert(b =~= front.push(b[n - 1]));
        assert(b[n - 1] == cl);
        lemma_strip_trail_concat(front, cl);
        assert(concat_chunks(front.push(cl)) == concat_chunks(b));
        assert(crate::framing::strip_trail(concat_chunks(b)) == concat_chunks(front)
            + crate::framing::strip_trail(cl));
        // The per-chunk strips are exactly: head-stripped first chunk, the
        // middle chunks unchanged, tail-stripped last chunk.
        assert(strips =~= front.push(crate::framing::strip_trail(cl))) by {
            assert forall|i: int| 0 <= i < n implies strips[i] == front.push(
                crate::framing::strip_trail(cl),
            )[i] by {
                assert(strips[i] == strip_model(chunks[i]));
                if i == 0 {
                    let s0 = crate::framing::strip_lead(c0);
                    if s0.len() > 0 {
                        assert(s0[s0.len() - 1] == c0[c0.len() - 1]);
                    }
                    assert(crate::framing::strip_trail(s0) == s0);
                } else if i < n - 1 {
                    assert(crate::framing::strip_lead(chunks[i]) == chunks[i]);
                    assert(crate::framing::strip_trail(chunks[i]) == chunks[i]);
                } else {
                    assert(crate::framing::strip_lead(cl) == cl);
                }
            }
        }
        lemma_concat_snoc(front, crate::framing::strip_trail(cl));
        assert(concat_chunks(strips) == concat_chunks(front) + crate::framing::strip_trail(cl));
        assert(concat_chunks(strips) == strip_model(concat_chunks(chunks)));
    }
}

/// A stream whose brackets stand only at its very edges: no opening bracket
/// after the first byte, no closing bracket before the last.  Records that
/// contain no brackets of their own keep a stream in this shape.
pub open spec fn interior_bracket_free(s: Seq<u8>) -> bool {
    &&& (forall|i: int| 1 <= i < s.len() ==> #[trigger] s[i] != crate::framing::OPEN_BRACKET)
    &&& (forall|i: int| 0 <= i < s.len() - 1 ==> #[trigger] s[i] != crate::framing::CLOSE_BRACKET)
}

/// Chunks that join to nothing strip to nothing.
proof fn lemma_concat_empty_strips(chunks: Seq<Seq<u8>>)
    requires
        concat_chunks(chunks).len() == 0,
    ensures
        concat_chunks(chunks.map_values(|c: Seq<u8>| strip_model(c))).len() == 0,
    decreases chunks.len(),
{
    if chunks.len() > 0 {
        assert(chunks[0].len() == 0);
        assert(strip_model(chunks[0]) == chunks[0]);
        let strips = chunks.map_values(|c: Seq<u8>| strip_model(c));
        assert(strips[0] == strip_model(chunks[0]));
        assert(strips.skip(1) =~= chunks.skip(1).map_values(|c: Seq<u8>| strip_model(c)));
        lemma_concat_empty_strips(chunks.skip(1));
    }
}

/// Any chunking whatsoever of a stream whose brackets stand only at its
/// edges — cutting inside records, inside the separator, or one byte at a
/// time — leaves the bracket stripping undisturbed.
pub proof fn lemma_interior_bracket_free_safe(chunks: Seq<Seq<u8>>)
    requires
        interior_bracket_free(concat_chunks(chunks)),
    ensures
        strip_chunking_safe(chunks),
    decreases chunks.len(),
{
    let s = concat_chunks(chunks);
    let strips = chunks.map_values(|c: Seq<u8>| strip_model(c));
    if chunks.len() == 0 {
        assert(strips.len() == 0);
        assert(concat_chunks(strips) == Seq::<u8>::empty());
        assert(strip_model(s) == s);
    } else {
        let c0 = chunks[0];
        let rest = chunks.skip(1);
        let c_rest = concat_chunks(rest);
        assert(s == c0 + c_rest);
        assert(strips[0] == strip_model(c0));
        assert(strips.skip(1) =~= rest.map_values(|c: Seq<u8>| strip_model(c)));
        if c0.len() == 0 {
            assert(s =~= c_rest);
            lemma_interior_bracket_free_safe(rest);
            assert(strip_model(c0) == c0);
            assert(concat_chunks(strips) =~= concat_chunks(
                rest.map_values(|c: Seq<u8>| strip_model(c)),
            ));
        } else if c_rest.len() == 0 {
            assert(s =~= c0);
            lemma_concat_empty_strips(rest);
            assert(concat_chunks(strips) =~= strip_model(c0));
        } else {
            // The later chunks hold interior bytes only, so they are free of
            // brackets on both ends and the induction hypothesis applies.
            assert(interior_bracket_free(c_rest)) by {
                assert forall|i: int|
                    1 <= i < c_rest.len() implies #[trigger] c_rest[i]
                    != crate::framing::OPEN_BRACKET by {
                    assert(c_rest[i] == s[c0.len() + i]);
                }
                assert forall|i: int|
                    0 <= i < c_rest.len() - 1 implies #[trigger] c_rest[i]
                    != crate::framing::CLOSE_BRACKET by {
                    assert(c_rest[i] == s[c0.len() + i]);
                }
                assert(c_rest.len() > 0 ==> c_rest[0] == s[c0.len() as int]);
            }
            assert(c_rest[0] == s[c0.len() as int]);
            assert(c_rest[0] != crate::framing::OPEN_BRACKET);
            lemma_interior_bracket_free_safe(rest);
            // The first chunk never ends with the closing bracket, so only
            // its leading byte can be stripped.
            assert(c0[c0.len() - 1] == s[c0.len() - 1]);
            assert(c0[c0.len() - 1] != crate::framing::CLOSE_BRACKET);
            let l0 = crate::framing::strip_lead(c0);
            if l0.len() > 0 {
                assert(l0[l0.len() - 1] == c0[c0.len() - 1]);
            }
            assert(strip_model(c0) == l0);
            // The joined remainder is lead-strip free.
            assert(crate::framing::strip_lead(c_rest) == c_rest);
            assert(strip_model(c_rest) == crate::framing::strip_trail(c_rest));
            // Stripping the whole stream touches the same two bytes.
            assert((c0 + c_rest)[0] == c0[0]);
            assert(crate::framing::strip_lead(s) =~= l0 + c_rest);
            let ls = crate::framing::strip_lead(s);
            assert(ls[ls.len() - 1] == c_rest[c_rest.len() - 1]);
            if c_rest[c_rest.len() - 1] == crate::framing::CLOSE_BRACKET {
                assert(ls.take(ls.len() - 1) =~= l0 + c_rest.take(c_rest.len() - 1));
                assert(strip_model(s) == l0 + crate::framing::strip_trail(c_rest));
            } else {
                assert(crate::framing::strip_trail(ls) == ls);
                assert(crate::framing::strip_trail(c_rest) == c_rest);
                assert(strip_model(s) == l0 + crate::framing::strip_trail(c_rest));
            }
            assert(concat_chunks(strips) == strip_model(c0) + concat_chunks(
                rest.map_values(|c: Seq<u8>| strip_model(c)),
            ));
            assert(concat_chunks(strips) == l0 + strip_model(c_rest));
        }
    }
}

/// The retained tail of a split never contains a separator, so splitting it
/// again leaves it whole.
pub proof fn lemma_split_tail_no_sep(s: Seq<u8>)
    ensures
        split_parts(split_tail(s)) == seq![split_tail(s)],
    decreases s.len(),
{
    lemma_first_sep_props(s);
    let i = crate::framing::first_sep(s);
    if i < 0 {
        assert(split_parts(s) == seq![s]);
        assert(split_tail(s) == s);
    } else {
        let rest = s.skip(i + 2);
        lemma_split_parts_len(rest);
        assert(split_parts(s) == seq![s.take(i)] + split_parts(rest));
        assert(split_tail(s) == split_parts(rest).last());
        lemma_split_tail_no_sep(rest);
    }
}

/// Feeding chunks one by one from a separator-free partial buffer classifies
/// exactly the records of the joined stripped bytes, and retains its tail.
pub proof fn lemma_feed_all_joins(p: Seq<u8>, chunks: Seq<Seq<u8>>)
    requires
        split_parts(p) == seq![p],
    ensures
        feed_all(p, chunks).0 == split_tail(
            p + concat_chunks(chunks.map_values(|c: Seq<u8>| strip_model(c))),
        ),
        feed_all(p, chunks).1 == stream_records(
            p + concat_chunks(chunks.map_values(|c: Seq<u8>| strip_model(c))),
        ),
    decreases chunks.len(),
{
    let strips = chunks.map_values(|c: Seq<u8>| strip_model(c));
    if chunks.len() == 0 {
        assert(concat_chunks(strips) == Seq::<u8>::empty());
        assert(p + Seq::<u8>::empty() =~= p);
        assert(split_tail(p) == p);
        assert(segments(p) =~= Seq::<Seq<u8>>::empty());
        assert(stream_records(p) == Seq::<RecordView>::empty());
    } else {
        let s1 = p + strip_model(chunks[0]);
        let p1 = split_tail(s1);
        let rest = chunks.skip(1);
        let rest_strips = rest.map_values(|c: Seq<u8>| strip_model(c));
        lemma_split_tail_no_sep(s1);
        lemma_feed_all_joins(p1, rest);
        assert(strips[0] == strip_model(chunks[0]));
        assert(strips.skip(1) =~= rest_strips);
        assert(concat_chunks(strips) == strip_model(chunks[0]) + concat_chunks(rest_strips));
        let c_rest = concat_chunks(rest_strips);
        assert(p + concat_chunks(strips) =~= s1 + c_rest);
        lemma_segments_append(s1, c_rest);
        lemma_records_of_append(segments(s1), segments(p1 + c_rest));
        assert(feed_all(p, chunks).1 == stream_records(s1) + stream_records(p1 + c_rest));
        assert(stream_records(s1 + c_rest) == stream_records(s1) + stream_records(p1 + c_rest));
        assert(feed_all(p, chunks).0 == split_tail(p1 + c_rest));
        assert(split_tail(s1 + c_rest) == split_tail(p1 + c_rest));
    }
}

/// Framing correctness: for any chunking of the stream whose cuts do not
/// disturb the bracket stripping, the records classified by incremental
/// reassembly followed by a flush are exactly the records of the unsplit
/// stream.
pub proof fn lemma_framing_correctness(chunks: Seq<Seq<u8>>)
    requires
        strip_chunking_safe(chunks),
    ensures
        reassembled_records(chunks) == whole_stream_records(concat_chunks(chunks)),
{
    let c = strip_model(concat_chunks(chunks));
    assert(split_parts(Seq::<u8>::empty()) == seq![Seq::<u8>::empty()]);
    lemma_feed_all_joins(Seq::<u8>::empty(), chunks);
    assert(Seq::<u8>::empty() + c =~= c);
    let r = feed_all(Seq::<u8>::empty(), chunks);
    assert(r.0 == split_tail(c));
    assert(r.1 == stream_records(c));
    lemma_split_parts_len(c);
    assert(split_parts(c) =~= segments(c) + seq![split_tail(c)]);
    lemma_records_of_append(segments(c), seq![split_tail(c)]);
    assert(seq![split_tail(c)][0] == split_tail(c));
    assert(seq![split_tail(c)].skip(1) =~= Seq::<Seq<u8>>::empty());
    assert(records_of(Seq::<Seq<u8>>::empty()) == Seq::<RecordView>::empty());
    assert(records_of(seq![split_tail(c)]) =~= seg_records(split_tail(c)));
    assert(whole_stream_records(concat_chunks(chunks)) == stream_records(c) + seg_records(
        split_tail(c),
    ));
}

/// Grouping correctness: one begin/end pair of the designated category,
/// with any non-end events between them and any non-begin events around
/// them, yields exactly one bucket; it carries the begin marker's block
/// identifier and precisely the descriptor snapshot, the begin line, the
/// interior lines in order, and the end line.  The surrounding events
/// contribute to no bucket, and the grouper ends idle.
pub proof fn lemma_grouping_correctness(
    d: DescView,
    pre: Seq<(RecordView, u64)>,
    b: (RecordView, u64),
    mid: Seq<(RecordView, u64)>,
    e: (RecordView, u64),
    post: Seq<(RecordView, u64)>,
)
    requires
        is_begin(b.0),
        is_end(e.0),
        forall|i: int| 0 <= i < pre.len() ==> !is_begin(#[trigger] pre[i].0),
        forall|i: int| 0 <= i < mid.len() ==> !is_end(#[trigger] mid[i].0),
        forall|i: int| 0 <= i < post.len() ==> !is_begin(#[trigger] post[i].0),
    ensures
        ({
            let r = run_events(init_gview(), d, pre + seq![b] + mid + seq![e] + post);
            &&& r.groups.len() == 1
            &&& r.groups[0].id == b.0.block_num
            &&& r.groups[0].data == seq![render_descriptor(d, b.1), b.0.line] + lines_of(mid)
                + seq![e.0.line]
            &&& r.groups[0].data.len() == 3 + mid.len()
            &&& r.state == init_gview()
        }),
{
    let g0 = init_gview();
    lemma_run_events_append(g0, d, pre + seq![b] + mid + seq![e], post);
    lemma_run_events_append(g0, d, pre + seq![b] + mid, seq![e]);
    lemma_run_events_append(g0, d, pre + seq![b], mid);
    lemma_run_events_append(g0, d, pre, seq![b]);
    lemma_run_idle_skips(g0, d, pre);

    // The begin event opens a block.
    assert(seq![b][0] == b);
    assert(seq![b].skip(1) =~= Seq::<(RecordView, u64)>::empty());
    let g1 = gstep(g0, b.0, d, b.1).next;
    assert(g1.inside);
    assert(g1.cur == b.0.block_num);
    assert(g1.buf == seq![render_descriptor(d, b.1), b.0.line]);
    assert(run_events(g1, d, seq![b].skip(1)).state == g1);
    assert(run_events(g1, d, seq![b].skip(1)).groups == Seq::<GroupView>::empty());
    assert(run_events(g0, d, seq![b]).state == g1);
    assert(run_events(g0, d, seq![b]).groups =~= Seq::<GroupView>::empty());
    assert(run_events(g0, d, pre + seq![b]).state == g1);
    assert(run_events(g0, d, pre + seq![b]).groups =~= Seq::<GroupView>::empty());

    // The interior events append their lines.
    lemma_run_inside_appends(g1, d, mid);
    let g2 = run_events(g1, d, mid).state;
    assert(g2 == GView { inside: true, cur: g1.cur, buf: g1.buf + lines_of(mid) });
    assert(run_events(g0, d, pre + seq![b] + mid).state == g2);
    assert(run_events(g0, d, pre + seq![b] + mid).groups =~= Seq::<GroupView>::empty());

    // The end event seals and emits the bucket.
    assert(seq![e][0] == e);
    assert(seq![e].skip(1) =~= Seq::<(RecordView, u64)>::empty());
    let st = gstep(g2, e.0, d, e.1);
    assert(st.next =~= g0);
    let grp = GroupView { id: g2.cur, data: g2.buf.push(e.0.line) };
    assert(st.emit == Some(grp));
    assert(run_events(st.next, d, seq![e].skip(1)).state == st.next);
    assert(run_events(st.next, d, seq![e].skip(1)).groups == Seq::<GroupView>::empty());
    assert(run_events(g2, d, seq![e]).state == g0);
    assert(run_events(g2, d, seq![e]).groups =~= seq![grp]);
    assert(run_events(g0, d, pre + seq![b] + mid + seq![e]).state == g0);
    assert(run_events(g0, d, pre + seq![b] + mid + seq![e]).groups =~= seq![grp]);

    // The trailing events are discarded.
    lemma_run_idle_skips(g0, d, post);
    let r = run_events(g0, d, pre + seq![b] + mid + seq![e] + post);
    assert(r.state == g0);
    assert(r.groups =~= seq![grp]);
    assert(grp.data =~= seq![render_descriptor(d, b.1), b.0.line] + lines_of(mid) + seq![
        e.0.line,
    ]);
    assert(r.groups[0] == grp);
}

/// Descriptor freshness: two consecutive blocks yield two buckets whose
/// descriptor snapshots carry the open time of their own block; when those
/// times differ, the two descriptor lines differ.
pub proof fn lemma_descriptor_freshness(
    d: DescView,
    pre: Seq<(RecordView, u64)>,
    b1: (RecordView, u64),
    mid1: Seq<(RecordView, u64)>,
    e1: (RecordView, u64),
    gap: Seq<(RecordView, u64)>,
    b2: (RecordView, u64),
    mid2: Seq<(RecordView, u64)>,
    e2: (RecordView, u64),
    post: Seq<(RecordView, u64)>,
)
    requires
        is_begin(b1.0),
        is_end(e1.0),
        is_begin(b2.0),
        is_end(e2.0),
        b1.1 != b2.1,
        forall|i: int| 0 <= i < pre.len() ==> !is_begin(#[trigger] pre[i].0),
        forall|i: int| 0 <= i < mid1.len() ==> !is_end(#[trigger] mid1[i].0),
        forall|i: int| 0 <= i < gap.len() ==> !is_begin(#[trigger] gap[i].0),
        forall|i: int| 0 <= i < mid2.len() ==> !is_end(#[trigger] mid2[i].0),
        forall|i: int| 0 <= i < post.len() ==> !is_begin(#[trigger] post[i].0),
    ensures
        ({
            let evs = pre + seq![b1] + mid1 + seq![e1] + gap + seq![b2] + mid2 + seq![e2] + post;
            let r = run_events(init_gview(), d, evs);
            &&& r.groups.len() == 2
            &&& r.groups[0].data.len() > 0
            &&& r.groups[1].data.len() > 0
            &&& r.groups[0].data[0] == render_descriptor(d, b1.1)
            &&& r.groups[1].data[0] == render_descriptor(d, b2.1)
            &&& r.groups[0].data[0] != r.groups[1].data[0]
        }),
{
    let g0 = init_gview();
    let first = pre + seq![b1] + mid1 + seq![e1];
    let second = gap + seq![b2] + mid2 + seq![e2] + post;
    let evs = pre + seq![b1] + mid1 + seq![e1] + gap + seq![b2] + mid2 + seq![e2] + post;
    assert(evs =~= first + second);

    lemma_grouping_correctness(d, pre, b1, mid1, e1, Seq::empty());
    assert(pre + seq![b1] + mid1 + seq![e1] + Seq::<(RecordView, u64)>::empty() =~= first);
    let r1 = run_events(g0, d, first);
    assert(r1.groups.len() == 1);
    assert(r1.groups[0].data[0] == render_descriptor(d, b1.1));
    assert(r1.state == g0);

    lemma_grouping_correctness(d, gap, b2, mid2, e2, post);
    let r2 = run_events(g0, d, gap + seq![b2] + mid2 + seq![e2] + post);
    assert(r2.groups.len() == 1);
    assert(r2.groups[0].data[0] == render_descriptor(d, b2.1));

    lemma_run_events_append(g0, d, first, second);
    let r = run_events(g0, d, evs);
    assert(r.groups == r1.groups + r2.groups);
    assert(r.groups[0] == r1.groups[0]);
    assert(r.groups[1] == r2.groups[0]);
    crate::descriptor::lemma_render_timestamp_injective(d, b1.1, b2.1);
}

} // verus!
