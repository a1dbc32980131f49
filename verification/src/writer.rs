//! The frame reassembler: a byte-stream sink that reconstructs discrete JSON
//! trace records from arbitrarily fragmented writes, classifies them, buckets
//! them per block, and offers completed buckets to the dispatch channel with
//! a non-blocking send that drops the bucket when the channel is full.

use vstd::prelude::*;
use vstd::slice::{slice_subrange, slice_to_vec};
use crate::descriptor::SystemDescriptor;
use crate::framing::{
    clean, is_sep_at, lemma_first_sep_at, lemma_first_sep_none, lemma_split_parts_len, segments,
    split_parts, split_tail, strip_model, CLOSE_BRACKET, OPEN_BRACKET, SEP0, SEP1,
};
use crate::grouper::{
    gstep, init_gview, lemma_run_events_snoc, lemma_with_now_push, lines_view, run_events,
    with_now, BlockData, GView,
};
use crate::record::{
    extract_record, lemma_records_of_take_succ, opt_bytes_view, records_of, seg_records,
    stream_records, TraceRecord,
};
use crate::bytes::bytes_eq;

verus! {

/// Relies on tokio::sync::mpsc::Sender: the producer half of the bounded
/// dispatch channel, opaque here and carried through the writer.
#[verifier::external_type_specification]
#[verifier::external_body]
#[verifier::reject_recursive_types(T)]
pub struct ExSender<T>(tokio::sync::mpsc::Sender<T>);

/// Relies on tokio::sync::mpsc::Sender::try_send and TrySendError::into_inner:
/// a non-blocking enqueue attempt that never suspends; on failure (channel
/// full or closed) the bucket is handed back inside the error and dropped.
#[verifier::external_body]
fn try_send_group(sender: &tokio::sync::mpsc::Sender<BlockData>, group: BlockData) -> (r: Result<
    (),
    BlockData,
>)
    ensures
        (r matches Err(g) ==> g@ == group@),
{
    match sender.try_send(group) {
        Ok(()) => Ok(()),
        Err(e) => Err(e.into_inner()),
    }
}

/// The byte-stream sink attached to the tracing backend.  It owns the
/// retained partial buffer, the grouper state, the descriptor template and
/// the producer side of the dispatch channel.
pub struct TracingWriter {
    /// Producer side of the bounded dispatch channel.
    pub sender: tokio::sync::mpsc::Sender<BlockData>,
    /// The run-configuration snapshot template, re-rendered per block.
    pub descriptor: SystemDescriptor,
    /// Lines of the currently open block, descriptor snapshot first.
    pub buffer: Vec<Vec<u8>>,
    /// Whether a block is currently open.
    pub inside_block: bool,
    /// The open block's identifier, when its begin marker carried one.
    pub current_block: Option<Vec<u8>>,
    /// Leftover text of an incomplete record spanning two writes.
    pub partial_buf: Vec<u8>,
}

impl TracingWriter {
    /// The grouper state held by this writer.
    pub open spec fn gview(&self) -> GView {
        GView {
            inside: self.inside_block,
            cur: opt_bytes_view(self.current_block),
            buf: lines_view(self.buffer@),
        }
    }

    /// Creates a writer with an empty partial buffer and no open block.
    pub fn new(sender: tokio::sync::mpsc::Sender<BlockData>, descriptor: SystemDescriptor) -> (w:
        Self)
        ensures
            w.gview() == init_gview(),
            w.partial_buf@ == Seq::<u8>::empty(),
            w.descriptor == descriptor,
    {
        let w = TracingWriter {
            sender,
            descriptor,
            buffer: Vec::new(),
            inside_block: false,
            current_block: None,
            partial_buf: Vec::new(),
        };
        proof {
            assert(w.gview() =~= init_gview());
        }
        w
    }

    /// One grouper transition: mutates the grouper state exactly as `gstep`
    /// says and returns the completed bucket when the record closes a block.
    fn step_group(&mut self, rec: TraceRecord, now_ms: u64) -> (emitted: Option<BlockData>)
        ensures
            final(self).gview() == gstep(
                old(self).gview(),
                rec@,
                old(self).descriptor@,
                now_ms,
            ).next,
            (match emitted {
                Some(bd) => gstep(old(self).gview(), rec@, old(self).descriptor@, now_ms).emit
                    == Some(bd@),
                None => gstep(old(self).gview(), rec@, old(self).descriptor@, now_ms).emit
                    is None,
            }),
            final(self).partial_buf@ == old(self).partial_buf@,
            final(self).descriptor == old(self).descriptor,
    {
        let is_bp = bytes_eq(rec.cat.as_slice(), "block_profiler".as_bytes());
        if self.inside_block {
            let is_e = is_bp && bytes_eq(rec.ph.as_slice(), "E".as_bytes());
            let ghost buf0 = lines_view(self.buffer@);
            self.buffer.push(rec.line);
            proof {
                assert(lines_view(self.buffer@) =~= buf0.push(rec@.line));
            }
            if is_e {
                self.inside_block = false;
                let mut data: Vec<Vec<u8>> = Vec::new();
                core::mem::swap(&mut data, &mut self.buffer);
                let mut id: Option<Vec<u8>> = None;
                core::mem::swap(&mut id, &mut self.current_block);
                let bd = BlockData { block_num: id, data };
                proof {
                    assert(lines_view(self.buffer@) =~= Seq::<Seq<u8>>::empty());
                    assert(self.gview() =~= gstep(
                        old(self).gview(),
                        rec@,
                        old(self).descriptor@,
                        now_ms,
                    ).next);
                    assert(Some(bd@) =~= gstep(
                        old(self).gview(),
                        rec@,
                        old(self).descriptor@,
                        now_ms,
                    ).emit);
                }
                Some(bd)
            } else {
                proof {
                    assert(self.gview() =~= gstep(
                        old(self).gview(),
                        rec@,
                        old(self).descriptor@,
                        now_ms,
                    ).next);
                }
                None
            }
        } else {
            let is_b = is_bp && bytes_eq(rec.ph.as_slice(), "B".as_bytes());
            if is_b {
                let line = self.descriptor.render_json(now_ms);
                self.buffer.clear();
                self.buffer.push(line);
                self.buffer.push(rec.line);
                self.current_block = rec.block_num;
                self.inside_block = true;
                proof {
                    assert(lines_view(self.buffer@) =~= gstep(
                        old(self).gview(),
                        rec@,
                        old(self).descriptor@,
                        now_ms,
                    ).next.buf);
                    assert(self.gview() =~= gstep(
                        old(self).gview(),
                        rec@,
                        old(self).descriptor@,
                        now_ms,
                    ).next);
                }
            } else {
                proof {
                    assert(self.gview() =~= gstep(
                        old(self).gview(),
                        rec@,
                        old(self).descriptor@,
                        now_ms,
                    ).next);
                }
            }
            None
        }
    }

    /// Processes one classified record: steps the grouper and offers any
    /// completed bucket to the channel.  The state transition is the same
    /// whether or not the channel accepted the bucket, so a full channel
    /// never disturbs the producer.
    pub fn process_record(&mut self, rec: TraceRecord, now_ms: u64)
        ensures
            final(self).gview() == gstep(
                old(self).gview(),
                rec@,
                old(self).descriptor@,
                now_ms,
            ).next,
            final(self).partial_buf@ == old(self).partial_buf@,
            final(self).descriptor == old(self).descriptor,
    {
        let emitted = self.step_group(rec, now_ms);
        match emitted {
            Some(group) => {
                let _ = try_send_group(&self.sender, group);
            },
            None => {},
        }
    }

    /// Accepts one chunk of the serialized stream: strips the array brackets
    /// that only occur at the very start and very end of the whole stream,
    /// appends the rest to the partial buffer, processes every complete
    /// record segment, and retains the final segment as the new partial
    /// buffer.  Never fails; a malformed record is skipped.
    pub fn write_all(&mut self, buf: &[u8], now_ms: u64)
        ensures
            final(self).partial_buf@ == split_tail(
                old(self).partial_buf@ + strip_model(buf@),
            ),
            final(self).gview() == run_events(
                old(self).gview(),
                old(self).descriptor@,
                with_now(stream_records(old(self).partial_buf@ + strip_model(buf@)), now_ms),
            ).state,
            final(self).descriptor == old(self).descriptor,
    {
        let ghost d = self.descriptor@;
        let ghost g0 = self.gview();
        let ghost p0 = self.partial_buf@;

        let len = buf.len();
        let start: usize = if len > 0 && buf[0] == OPEN_BRACKET {
            1
        } else {
            0
        };
        let end: usize = if len > start && buf[len - 1] == CLOSE_BRACKET {
            len - 1
        } else {
            len
        };
        proof {
            assert(buf@.subrange(start as int, end as int) =~= strip_model(buf@));
        }

        let mut combined: Vec<u8> = Vec::new();
        core::mem::swap(&mut combined, &mut self.partial_buf);
        let mut k: usize = start;
        proof {
            assert(combined@ =~= p0 + buf@.subrange(start as int, start as int));
        }
        while k < end
            invariant
                start <= k <= end <= buf@.len(),
                combined@ == p0 + buf@.subrange(start as int, k as int),
                self.gview() == g0,
                self.descriptor@ == d,
                self.descriptor == old(self).descriptor,
                self.partial_buf@ == Seq::<u8>::empty(),
            decreases end - k,
        {
            combined.push(buf[k]);
            proof {
                assert(p0 + buf@.subrange(start as int, k + 1) =~= (p0 + buf@.subrange(
                    start as int,
                    k as int,
                )).push(buf@[k as int]));
            }
            k += 1;
        }
        let ghost s = combined@;
        proof {
            assert(s == p0 + strip_model(buf@));
        }
        let ghost parts = split_parts(s);
        proof {
            lemma_split_parts_len(s);
        }

        let n = combined.len();
        let mut seg_start: usize = 0;
        let mut i: usize = 0;
        let ghost mut j: int = 0;
        proof {
            assert(s.skip(0) =~= s);
            assert(parts.skip(0) =~= parts);
            assert(parts.take(0) =~= Seq::<Seq<u8>>::empty());
            assert(with_now(records_of(parts.take(0)), now_ms) =~= Seq::<(
                crate::record::RecordView,
                u64,
            )>::empty());
        }
        while n >= 1 && i < n - 1
            invariant
                n == combined@.len(),
                combined@ == s,
                0 <= seg_start <= i <= n,
                0 <= j < parts.len(),
                split_parts(s.skip(seg_start as int)) == parts.skip(j),
                forall|p: int| seg_start <= p < i ==> !is_sep_at(s, p),
                self.gview() == run_events(
                    g0,
                    d,
                    with_now(records_of(parts.take(j)), now_ms),
                ).state,
                self.descriptor@ == d,
                self.descriptor == old(self).descriptor,
                self.partial_buf@ == Seq::<u8>::empty(),
            decreases n - i,
        {
            if combined[i] == SEP0 && combined[i + 1] == SEP1 {
                proof {
                    let t = s.skip(seg_start as int);
                    let q = i - seg_start;
                    assert(t[q] == s[i as int]);
                    assert(t[q + 1] == s[i + 1]);
                    assert(is_sep_at(t, q));
                    assert forall|p: int| 0 <= p < q implies !is_sep_at(t, p) by {
                        if is_sep_at(t, p) {
                            assert(t[p] == s[seg_start + p]);
                            assert(t[p + 1] == s[seg_start + p + 1]);
                            assert(is_sep_at(s, seg_start + p));
                        }
                    }
                    lemma_first_sep_at(t, q);
                    assert(t.take(q) =~= s.subrange(seg_start as int, i as int));
                    assert(t.skip(q + 2) =~= s.skip(i + 2));
                    assert(split_parts(t) == seq![s.subrange(seg_start as int, i as int)]
                        + split_parts(s.skip(i + 2)));
                    assert(parts.skip(j)[0] == s.subrange(seg_start as int, i as int));
                    assert(parts[j] == s.subrange(seg_start as int, i as int));
                    assert(parts.skip(j).skip(1) =~= parts.skip(j + 1));
                    assert((seq![s.subrange(seg_start as int, i as int)] + split_parts(
                        s.skip(i + 2),
                    )).skip(1) =~= split_parts(s.skip(i + 2)));
                    assert(split_parts(s.skip(i + 2)) == parts.skip(j + 1));
                    lemma_split_parts_len(s.skip(i + 2));
                    assert(parts.skip(j + 1).len() >= 1);
                    assert(j + 1 < parts.len());
                }
                let seg = slice_subrange(combined.as_slice(), seg_start, i);
                let rec_opt = extract_record(seg);
                let ghost gprev = self.gview();
                proof {
                    lemma_records_of_take_succ(parts, j);
                }
                match rec_opt {
                    Some(rec) => {
                        self.process_record(rec, now_ms);
                        proof {
                            assert(seg_records(parts[j]) == seq![rec@]);
                            assert(records_of(parts.take(j + 1)) =~= records_of(
                                parts.take(j),
                            ).push(rec@));
                            lemma_with_now_push(records_of(parts.take(j)), rec@, now_ms);
                            lemma_run_events_snoc(
                                g0,
                                d,
                                with_now(records_of(parts.take(j)), now_ms),
                                (rec@, now_ms),
                            );
                        }
                    },
                    None => {
                        proof {
                            assert(seg_records(parts[j]) == Seq::<
                                crate::record::RecordView,
                            >::empty());
                            assert(records_of(parts.take(j + 1)) =~= records_of(parts.take(j)));
                        }
                    },
                }
                proof {
                    j = j + 1;
                }
                seg_start = i + 2;
                i = i + 2;
            } else {
                proof {
                    assert(!is_sep_at(s, i as int));
                }
                i += 1;
            }
        }
        proof {
            let t = s.skip(seg_start as int);
            assert forall|p: int| !is_sep_at(t, p) by {
                if is_sep_at(t, p) {
                    assert(t[p] == s[seg_start + p]);
                    assert(t[p + 1] == s[seg_start + p + 1]);
                    assert(is_sep_at(s, seg_start + p));
                    assert(seg_start + p < i);
                }
            }
            lemma_first_sep_none(t);
            assert(split_parts(t) == seq![t]);
            assert(parts.skip(j) =~= seq![t]);
            assert(parts.len() == j + 1);
            assert(parts.take(j) =~= parts.drop_last());
            assert(seq![t][0] == t);
            assert(parts.skip(j)[0] == parts[j]);
            assert(parts[j] == t);
            assert(split_tail(s) == t);
            assert(stream_records(s) == records_of(parts.take(j)));
        }
        let tail_slice = slice_subrange(combined.as_slice(), seg_start, n);
        let tail_vec = slice_to_vec(tail_slice);
        self.partial_buf = tail_vec;
        proof {
            assert(self.partial_buf@ =~= split_tail(s));
        }
    }

    /// Accepts one chunk and reports its full length as consumed, as a
    /// stream sink does.
    pub fn write(&mut self, buf: &[u8], now_ms: u64) -> (n: usize)
        ensures
            n == buf@.len(),
            final(self).partial_buf@ == split_tail(
                old(self).partial_buf@ + strip_model(buf@),
            ),
            final(self).gview() == run_events(
                old(self).gview(),
                old(self).descriptor@,
                with_now(stream_records(old(self).partial_buf@ + strip_model(buf@)), now_ms),
            ).state,
            final(self).descriptor == old(self).descriptor,
    {
        self.write_all(buf, now_ms);
        buf.len()
    }

    /// Processes whatever remains in the partial buffer as one final
    /// candidate record and clears the buffer regardless of the outcome.
    /// With an empty partial buffer this is a no-op: no record is processed
    /// and no bucket is emitted.
    pub fn flush(&mut self, now_ms: u64)
        ensures
            final(self).partial_buf@ == Seq::<u8>::empty(),
            final(self).gview() == run_events(
                old(self).gview(),
                old(self).descriptor@,
                with_now(seg_records(old(self).partial_buf@), now_ms),
            ).state,
            final(self).descriptor == old(self).descriptor,
            old(self).partial_buf@.len() == 0 ==> final(self).gview() == old(self).gview(),
    {
        let ghost d = self.descriptor@;
        let ghost g0 = self.gview();
        let ghost p0 = self.partial_buf@;
        let mut p: Vec<u8> = Vec::new();
        core::mem::swap(&mut p, &mut self.partial_buf);
        let rec_opt = extract_record(p.as_slice());
        match rec_opt {
            Some(rec) => {
                self.process_record(rec, now_ms);
                proof {
                    assert(seg_records(p0) == seq![rec@]);
                    assert(with_now(seg_records(p0), now_ms) =~= Seq::<(
                        crate::record::RecordView,
                        u64,
                    )>::empty().push((rec@, now_ms)));
                    lemma_run_events_snoc(
                        g0,
                        d,
                        Seq::<(crate::record::RecordView, u64)>::empty(),
                        (rec@, now_ms),
                    );
                    assert(p0.len() > 0) by {
                        if p0.len() == 0 {
                            assert(clean(p0).len() == 0);
                        }
                    }
                }
            },
            None => {
                proof {
                    assert(seg_records(p0) == Seq::<crate::record::RecordView>::empty());
                    assert(with_now(seg_records(p0), now_ms) =~= Seq::<(
                        crate::record::RecordView,
                        u64,
                    )>::empty());
                }
            },
        }
    }
}

} // verus!
