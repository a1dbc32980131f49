//! Classified trace records.
//!
//! A candidate record is a cleaned byte segment.  It is parsed as JSON; only
//! objects are kept.  A kept record carries its category, its phase marker,
//! an optional block identifier taken from its argument map, and its
//! canonical re-serialization, which is the line stored in block buckets.

use vstd::prelude::*;
use vstd::string::StringSliceAdditionalSpecFns;
use crate::framing::{clean, segments, clean_range};
use vstd::slice::slice_subrange;

verus! {

/// One classified trace record, all fields as plain bytes.
pub struct TraceRecord {
    /// The record's category string, empty when absent or not a string.
    pub cat: Vec<u8>,
    /// The record's phase marker, empty when absent or not a string.
    pub ph: Vec<u8>,
    /// The block identifier from the record's argument map, when present.
    pub block_num: Option<Vec<u8>>,
    /// The canonical serialization of the whole record.
    pub line: Vec<u8>,
}

/// The mathematical value of a classified record.
pub ghost struct RecordView {
    pub cat: Seq<u8>,
    pub ph: Seq<u8>,
    pub block_num: Option<Seq<u8>>,
    pub line: Seq<u8>,
}

/// The value of an optional byte vector, field by field.
pub open spec fn opt_bytes_view(o: Option<Vec<u8>>) -> Option<Seq<u8>> {
    match o {
        Some(v) => Some(v@),
        None => None,
    }
}

impl View for TraceRecord {
    type V = RecordView;

    open spec fn view(&self) -> RecordView {
        RecordView {
            cat: self.cat@,
            ph: self.ph@,
            block_num: opt_bytes_view(self.block_num),
            line: self.line@,
        }
    }
}

/// The canonical serialization of `b`, lossily decoded and parsed as JSON,
/// or `None` when `b` is not a JSON object.  Determined by the bytes alone.
pub uninterp spec fn canon_of(b: Seq<u8>) -> Option<Seq<u8>>;

/// The string value of field `k` of `b`, lossily decoded and parsed as JSON,
/// or `None` when `b` does not parse, or has no field `k`, or the field is
/// not a string.  Determined by the bytes and the key alone.
pub uninterp spec fn str_field_of(b: Seq<u8>, k: Seq<char>) -> Option<Seq<u8>>;

/// The string value of field `k2` inside object field `k1` of `b`, lossily
/// decoded and parsed as JSON, or `None` when any step is missing or of the
/// wrong shape.  Determined by the bytes and the keys alone.
pub uninterp spec fn str_field2_of(b: Seq<u8>, k1: Seq<char>, k2: Seq<char>) -> Option<Seq<u8>>;

/// Relies on serde_json::from_str and serde_json::to_string: parsing the
/// lossily decoded text (malformed byte sequences are replaced, never fatal)
/// as a JSON value and re-serializing it canonically; only objects are kept.
#[verifier::external_body]
fn json_canon(b: &[u8]) -> (r: Option<Vec<u8>>)
    ensures
        match r {
            Some(line) => canon_of(b@) == Some(line@),
            None => canon_of(b@) is None,
        },
{
    let text = String::from_utf8_lossy(b);
    let value: serde_json::Value = match serde_json::from_str(&text) {
        Ok(v) => v,
        Err(_) => return None,
    };
    if !value.is_object() {
        return None;
    }
    Some(serde_json::to_string(&value).unwrap_or_default().into_bytes())
}

/// Relies on serde_json::from_str, serde_json::Value::get and
/// serde_json::Value::as_str: looking up one string-valued field of the
/// lossily decoded text.
#[verifier::external_body]
fn json_get_str(b: &[u8], key: &str) -> (r: Option<Vec<u8>>)
    ensures
        match r {
            Some(v) => str_field_of(b@, key@) == Some(v@),
            None => str_field_of(b@, key@) is None,
        },
{
    let text = String::from_utf8_lossy(b);
    let value: serde_json::Value = match serde_json::from_str(&text) {
        Ok(v) => v,
        Err(_) => return None,
    };
    match value.get(key) {
        Some(f) => match f.as_str() { Some(s) => Some(s.as_bytes().to_vec()), None => None },
        None => None,
    }
}

/// Relies on serde_json::from_str, serde_json::Value::get and
/// serde_json::Value::as_str: looking up one string-valued field nested one
/// level inside another field of the lossily decoded text.
#[verifier::external_body]
fn json_get_str2(b: &[u8], key1: &str, key2: &str) -> (r: Option<Vec<u8>>)
    ensures
        match r {
            Some(v) => str_field2_of(b@, key1@, key2@) == Some(v@),
            None => str_field2_of(b@, key1@, key2@) is None,
        },
{
    let text = String::from_utf8_lossy(b);
    let value: serde_json::Value = match serde_json::from_str(&text) {
        Ok(v) => v,
        Err(_) => return None,
    };
    let field = match value.get(key1) { Some(inner) => inner.get(key2), None => None };
    match field {
        Some(f) => match f.as_str() { Some(s) => Some(s.as_bytes().to_vec()), None => None },
        None => None,
    }
}

/// The field value of `str_field_of`, with a missing field read as empty.
pub open spec fn field_or_empty(o: Option<Seq<u8>>) -> Seq<u8> {
    match o {
        Some(v) => v,
        None => Seq::empty(),
    }
}

/// The classification of candidate bytes `b`: `None` when `b` is not a JSON
/// object, otherwise the record carrying category, phase, optional block
/// identifier and canonical line.
pub open spec fn parsed_record(b: Seq<u8>) -> Option<RecordView> {
    match canon_of(b) {
        None => None,
        Some(line) => Some(
            RecordView {
                cat: field_or_empty(str_field_of(b, "cat"@)),
                ph: field_or_empty(str_field_of(b, "ph"@)),
                block_num: str_field2_of(b, "args"@, "block_num"@),
                line: line,
            },
        ),
    }
}

/// Parses and classifies one candidate record.
pub fn classify(b: &[u8]) -> (r: Option<TraceRecord>)
    ensures
        match r {
            Some(rec) => parsed_record(b@) == Some(rec@),
            None => parsed_record(b@) is None,
        },
{
    match json_canon(b) {
        None => None,
        Some(line) => {
            let cat = match json_get_str(b, "cat") {
                Some(c) => c,
                None => Vec::new(),
            };
            let ph = match json_get_str(b, "ph") {
                Some(p) => p,
                None => Vec::new(),
            };
            let block_num = json_get_str2(b, "args", "block_num");
            Some(TraceRecord { cat, ph, block_num, line })
        },
    }
}

/// The category whose begin/end markers delimit a block.
pub open spec fn block_category() -> Seq<u8> {
    "block_profiler".spec_bytes()
}

/// The phase marker of a block-begin record.
pub open spec fn phase_begin() -> Seq<u8> {
    "B".spec_bytes()
}

/// The phase marker of a block-end record.
pub open spec fn phase_end() -> Seq<u8> {
    "E".spec_bytes()
}

/// True of a record that opens a block.
pub open spec fn is_begin(r: RecordView) -> bool {
    r.cat == block_category() && r.ph == phase_begin()
}

/// True of a record that closes a block.
pub open spec fn is_end(r: RecordView) -> bool {
    r.cat == block_category() && r.ph == phase_end()
}

/// The records contributed by one split segment: the cleaned candidate when
/// it is nonempty and classifies, and nothing otherwise.
pub open spec fn seg_records(seg: Seq<u8>) -> Seq<RecordView> {
    let c = clean(seg);
    if c.len() == 0 {
        Seq::empty()
    } else {
        match parsed_record(c) {
            Some(r) => seq![r],
            None => Seq::empty(),
        }
    }
}

/// The records contributed by a sequence of split segments, in order.
pub open spec fn records_of(parts: Seq<Seq<u8>>) -> Seq<RecordView>
    decreases parts.len(),
{
    if parts.len() == 0 {
        Seq::empty()
    } else {
        seg_records(parts[0]) + records_of(parts.skip(1))
    }
}

/// The records of the complete segments of a buffered byte sequence.
pub open spec fn stream_records(s: Seq<u8>) -> Seq<RecordView> {
    records_of(segments(s))
}

/// Record extraction distributes over concatenation of segment lists.
pub proof fn lemma_records_of_append(x: Seq<Seq<u8>>, y: Seq<Seq<u8>>)
    ensures
        records_of(x + y) == records_of(x) + records_of(y),
    decreases x.len(),
{
    if x.len() == 0 {
        assert(x + y =~= y);
        assert(records_of(x) + records_of(y) =~= records_of(y));
    } else {
        assert((x + y)[0] == x[0]);
        assert((x + y).skip(1) =~= x.skip(1) + y);
        lemma_records_of_append(x.skip(1), y);
        assert(seg_records(x[0]) + (records_of(x.skip(1)) + records_of(y)) =~= (seg_records(x[0])
            + records_of(x.skip(1))) + records_of(y));
    }
}

/// Taking one more segment contributes that segment's records at the end.
pub proof fn lemma_records_of_take_succ(parts: Seq<Seq<u8>>, j: int)
    requires
        0 <= j < parts.len(),
    ensures
        records_of(parts.take(j + 1)) == records_of(parts.take(j)) + seg_records(parts[j]),
{
    assert(parts.take(j + 1) =~= parts.take(j) + seq![parts[j]]);
    lemma_records_of_append(parts.take(j), seq![parts[j]]);
    assert(seq![parts[j]][0] == parts[j]);
    assert(seq![parts[j]].skip(1) =~= Seq::<Seq<u8>>::empty());
    assert(records_of(Seq::<Seq<u8>>::empty()) == Seq::<RecordView>::empty());
    assert(records_of(seq![parts[j]]) == seg_records(seq![parts[j]][0]) + records_of(
        seq![parts[j]].skip(1),
    ));
    assert(records_of(seq![parts[j]]) =~= seg_records(parts[j]));
}

/// Cleans, parses and classifies one split segment, exactly as the model
/// `seg_records` describes.
pub fn extract_record(seg: &[u8]) -> (r: Option<TraceRecord>)
    ensures
        match r {
            Some(rec) => seg_records(seg@) == seq![rec@],
            None => seg_records(seg@) == Seq::<RecordView>::empty(),
        },
{
    let (lo, hi) = clean_range(seg);
    if lo == hi {
        proof {
            assert(clean(seg@).len() == 0);
        }
        return None;
    }
    let cand = slice_subrange(seg, lo, hi);
    classify(cand)
}

} // verus!
