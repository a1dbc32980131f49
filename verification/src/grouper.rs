//! Event classification and bucketing.
//!
//! Consecutive records are bucketed into one per-block group delimited by a
//! begin marker and an end marker of the designated category.  Records seen
//! while no block is open are discarded; a begin marker seen while a block is
//! already open is treated as a continuation of that block, never as a new
//! one.  A completed group carries the block identifier from the begin
//! marker, a fresh descriptor snapshot, and every line from begin through end.

use vstd::prelude::*;
use crate::descriptor::{DescView, render_descriptor};
use crate::record::{RecordView, is_begin, is_end, opt_bytes_view};

verus! {

/// One completed block bucket, handed to the dispatch channel.
pub struct BlockData {
    /// The block identifier from the begin marker's arguments, when present.
    pub block_num: Option<Vec<u8>>,
    /// The descriptor snapshot followed by every record line of the block.
    pub data: Vec<Vec<u8>>,
}

/// The mathematical value of a completed block bucket.
#[verifier::ext_equal]
pub ghost struct GroupView {
    pub id: Option<Seq<u8>>,
    pub data: Seq<Seq<u8>>,
}

/// The value of a vector of record lines.
pub open spec fn lines_view(v: Seq<Vec<u8>>) -> Seq<Seq<u8>> {
    Seq::new(v.len(), |i: int| v[i]@)
}

impl View for BlockData {
    type V = GroupView;

    open spec fn view(&self) -> GroupView {
        GroupView { id: opt_bytes_view(self.block_num), data: lines_view(self.data@) }
    }
}

/// The grouper's state: whether a block is open, the open block's
/// identifier, and the lines buffered so far.
#[verifier::ext_equal]
pub ghost struct GView {
    pub inside: bool,
    pub cur: Option<Seq<u8>>,
    pub buf: Seq<Seq<u8>>,
}

/// The grouper's state before any record has been seen.
pub open spec fn init_gview() -> GView {
    GView { inside: false, cur: None, buf: Seq::empty() }
}

/// The outcome of one grouper transition: the next state and the completed
/// group it emits, if any.
#[verifier::ext_equal]
pub ghost struct GStep {
    pub next: GView,
    pub emit: Option<GroupView>,
}

/// The grouper's transition on one classified record, with `d` the current
/// descriptor and `now` the time the record was processed.
pub open spec fn gstep(g: GView, r: RecordView, d: DescView, now: u64) -> GStep {
    if g.inside {
        let buf2 = g.buf.push(r.line);
        if is_end(r) {
            GStep {
                next: GView { inside: false, cur: None, buf: Seq::empty() },
                emit: Some(GroupView { id: g.cur, data: buf2 }),
            }
        } else {
            GStep { next: GView { inside: true, cur: g.cur, buf: buf2 }, emit: None }
        }
    } else {
        if is_begin(r) {
            GStep {
                next: GView {
                    inside: true,
                    cur: r.block_num,
                    buf: seq![render_descriptor(d, now), r.line],
                },
                emit: None,
            }
        } else {
            GStep { next: g, emit: None }
        }
    }
}

/// An emitted group as a sequence of zero or one groups.
pub open spec fn emit_seq(e: Option<GroupView>) -> Seq<GroupView> {
    match e {
        Some(g) => seq![g],
        None => Seq::empty(),
    }
}

/// The outcome of running the grouper over a sequence of events.
#[verifier::ext_equal]
pub ghost struct RunResult {
    pub state: GView,
    pub groups: Seq<GroupView>,
}

/// Runs the grouper over events, each a classified record paired with the
/// time it was processed, collecting the emitted groups in order.
pub open spec fn run_events(g: GView, d: DescView, evs: Seq<(RecordView, u64)>) -> RunResult
    decreases evs.len(),
{
    if evs.len() == 0 {
        RunResult { state: g, groups: Seq::empty() }
    } else {
        let st = gstep(g, evs[0].0, d, evs[0].1);
        let rest = run_events(st.next, d, evs.skip(1));
        RunResult { state: rest.state, groups: emit_seq(st.emit) + rest.groups }
    }
}

/// Records all processed at one time, as an event sequence.
pub open spec fn with_now(rs: Seq<RecordView>, now: u64) -> Seq<(RecordView, u64)> {
    rs.map_values(|r: RecordView| (r, now))
}

/// The record lines of an event sequence, in order.
pub open spec fn lines_of(evs: Seq<(RecordView, u64)>) -> Seq<Seq<u8>> {
    evs.map_values(|e: (RecordView, u64)| e.0.line)
}

/// Running the grouper over a concatenation runs it over the first part and
/// continues from the state reached, concatenating the emitted groups.
pub proof fn lemma_run_events_append(
    g: GView,
    d: DescView,
    e1: Seq<(RecordView, u64)>,
    e2: Seq<(RecordView, u64)>,
)
    ensures
        run_events(g, d, e1 + e2).state == run_events(run_events(g, d, e1).state, d, e2).state,
        run_events(g, d, e1 + e2).groups == run_events(g, d, e1).groups + run_events(
            run_events(g, d, e1).state,
            d,
            e2,
        ).groups,
    decreases e1.len(),
{
    if e1.len() == 0 {
        assert(e1 + e2 =~= e2);
        assert(run_events(g, d, e1).groups + run_events(g, d, e2).groups =~= run_events(
            g,
            d,
            e2,
        ).groups);
        assert(run_events(g, d, e1 + e2) =~= RunResult {
            state: run_events(run_events(g, d, e1).state, d, e2).state,
            groups: run_events(g, d, e1).groups + run_events(
                run_events(g, d, e1).state,
                d,
                e2,
            ).groups,
        });
    } else {
        assert((e1 + e2)[0] == e1[0]);
        assert((e1 + e2).skip(1) =~= e1.skip(1) + e2);
        let st = gstep(g, e1[0].0, d, e1[0].1);
        lemma_run_events_append(st.next, d, e1.skip(1), e2);
        assert(emit_seq(st.emit) + (run_events(st.next, d, e1.skip(1)).groups + run_events(
            run_events(st.next, d, e1.skip(1)).state,
            d,
            e2,
        ).groups) =~= (emit_seq(st.emit) + run_events(st.next, d, e1.skip(1)).groups)
            + run_events(run_events(st.next, d, e1.skip(1)).state, d, e2).groups);
        assert(run_events(g, d, e1 + e2) =~= RunResult {
            state: run_events(run_events(g, d, e1).state, d, e2).state,
            groups: run_events(g, d, e1).groups + run_events(
                run_events(g, d, e1).state,
                d,
                e2,
            ).groups,
        });
    }
}

/// Running the grouper over one more event steps the state once and appends
/// whatever that step emits.
pub proof fn lemma_run_events_snoc(
    g: GView,
    d: DescView,
    evs: Seq<(RecordView, u64)>,
    e: (RecordView, u64),
)
    ensures
        run_events(g, d, evs.push(e)).state == gstep(run_events(g, d, evs).state, e.0, d, e.1).next,
        run_events(g, d, evs.push(e)).groups == run_events(g, d, evs).groups + emit_seq(
            gstep(run_events(g, d, evs).state, e.0, d, e.1).emit,
        ),
{
    assert(evs.push(e) =~= evs + seq![e]);
    lemma_run_events_append(g, d, evs, seq![e]);
    let gm = run_events(g, d, evs).state;
    let st = gstep(gm, e.0, d, e.1);
    assert(seq![e][0] == e);
    assert(seq![e].skip(1) =~= Seq::<(RecordView, u64)>::empty());
    assert(run_events(st.next, d, seq![e].skip(1)).state == st.next);
    assert(run_events(gm, d, seq![e]).state == st.next);
    assert(run_events(gm, d, seq![e]).groups =~= emit_seq(st.emit));
}

/// Pairing one more record with a time commutes with appending it.
pub proof fn lemma_with_now_push(rs: Seq<RecordView>, r: RecordView, now: u64)
    ensures
        with_now(rs.push(r), now) == with_now(rs, now).push((r, now)),
{
    assert(with_now(rs.push(r), now) =~= with_now(rs, now).push((r, now)));
}

/// While no block is open, events without a begin marker change nothing and
/// emit nothing.
pub proof fn lemma_run_idle_skips(g: GView, d: DescView, evs: Seq<(RecordView, u64)>)
    requires
        !g.inside,
        forall|i: int| 0 <= i < evs.len() ==> !is_begin(#[trigger] evs[i].0),
    ensures
        run_events(g, d, evs).state == g,
        run_events(g, d, evs).groups == Seq::<GroupView>::empty(),
    decreases evs.len(),
{
    if evs.len() > 0 {
        assert(!is_begin(evs[0].0));
        lemma_run_idle_skips(g, d, evs.skip(1));
        assert(run_events(g, d, evs).groups =~= Seq::<GroupView>::empty());
        assert(run_events(g, d, evs) =~= RunResult {
            state: g,
            groups: Seq::<GroupView>::empty(),
        });
    } else {
        assert(run_events(g, d, evs) =~= RunResult {
            state: g,
            groups: Seq::<GroupView>::empty(),
        });
    }
}

/// While a block is open, events without an end marker append their lines in
/// order and emit nothing.
pub proof fn lemma_run_inside_appends(g: GView, d: DescView, evs: Seq<(RecordView, u64)>)
    requires
        g.inside,
        forall|i: int| 0 <= i < evs.len() ==> !is_end(#[trigger] evs[i].0),
    ensures
        run_events(g, d, evs).state.inside,
        run_events(g, d, evs).state.cur == g.cur,
        run_events(g, d, evs).state.buf == g.buf + lines_of(evs),
        run_events(g, d, evs).groups == Seq::<GroupView>::empty(),
    decreases evs.len(),
{
    if evs.len() == 0 {
        assert(g.buf + lines_of(evs) =~= g.buf);
        assert(run_events(g, d, evs) =~= RunResult {
            state: GView { inside: true, cur: g.cur, buf: g.buf + lines_of(evs) },
            groups: Seq::<GroupView>::empty(),
        });
    } else {
        assert(!is_end(evs[0].0));
        let st = gstep(g, evs[0].0, d, evs[0].1);
        assert(st.next == GView { inside: true, cur: g.cur, buf: g.buf.push(evs[0].0.line) });
        lemma_run_inside_appends(st.next, d, evs.skip(1));
        assert(g.buf.push(evs[0].0.line) + lines_of(evs.skip(1)) =~= g.buf + lines_of(evs));
        assert(run_events(g, d, evs).groups =~= Seq::<GroupView>::empty());
        assert(run_events(g, d, evs) =~= RunResult {
            state: GView { inside: true, cur: g.cur, buf: g.buf + lines_of(evs) },
            groups: Seq::<GroupView>::empty(),
        });
    }
}

} // verus!
