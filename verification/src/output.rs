//! Pure parts of the block file writer and of configuration parsing: the
//! file name derived from a block identifier, the JSON document assembled
//! from a bucket's lines, and the reading of a boolean feature flag value.

use vstd::prelude::*;
use vstd::string::StringSliceAdditionalSpecFns;
use crate::bytes::{bytes_eq, push_lit, push_slice};
use crate::framing::{SEP0, SEP1};

verus! {

/// The record separator written between lines of a block file.
pub open spec fn sep_bytes() -> Seq<u8> {
    seq![SEP0, SEP1]
}

/// The lines after the first, each preceded by the record separator.
pub open spec fn tail_join(lines: Seq<Seq<u8>>) -> Seq<u8>
    decreases lines.len(),
{
    if lines.len() == 0 {
        Seq::empty()
    } else {
        sep_bytes() + lines[0] + tail_join(lines.skip(1))
    }
}

/// The lines joined with the record separator between them.
pub open spec fn joined_lines(lines: Seq<Seq<u8>>) -> Seq<u8> {
    if lines.len() == 0 {
        Seq::empty()
    } else {
        lines[0] + tail_join(lines.skip(1))
    }
}

/// The JSON document written for one bucket: the joined lines wrapped in a
/// bracketed array.
pub open spec fn rendered_group(lines: Seq<Seq<u8>>) -> Seq<u8> {
    "[\n".spec_bytes() + joined_lines(lines) + "\n]".spec_bytes()
}

/// Joining one more line appends a separator and that line.
proof fn lemma_tail_join_snoc(lines: Seq<Seq<u8>>, e: Seq<u8>)
    ensures
        tail_join(lines.push(e)) == tail_join(lines) + sep_bytes() + e,
    decreases lines.len(),
{
    if lines.len() == 0 {
        assert(lines.push(e)[0] == e);
        assert(lines.push(e).skip(1) =~= Seq::<Seq<u8>>::empty());
        assert(tail_join(Seq::<Seq<u8>>::empty()) == Seq::<u8>::empty());
        assert(sep_bytes() + e + Seq::<u8>::empty() =~= tail_join(lines) + sep_bytes() + e);
    } else {
        assert(lines.push(e)[0] == lines[0]);
        assert(lines.push(e).skip(1) =~= lines.skip(1).push(e));
        lemma_tail_join_snoc(lines.skip(1), e);
        assert(sep_bytes() + lines[0] + (tail_join(lines.skip(1)) + sep_bytes() + e) =~= (
        sep_bytes() + lines[0] + tail_join(lines.skip(1))) + sep_bytes() + e);
    }
}

/// The file name for a bucket: derived from the block identifier, with a
/// fixed fallback when the begin marker carried none.
pub open spec fn spec_block_filename(id: Option<Seq<u8>>) -> Seq<u8> {
    match id {
        Some(n) => "block_".spec_bytes() + n + ".json".spec_bytes(),
        None => "block_unknown.json".spec_bytes(),
    }
}

/// Builds the file name for a bucket.
pub fn block_filename(block_num: &Option<Vec<u8>>) -> (r: Vec<u8>)
    ensures
        r@ == spec_block_filename(crate::record::opt_bytes_view(*block_num)),
{
    let mut out: Vec<u8> = Vec::new();
    match block_num {
        Some(n) => {
            push_lit(&mut out, "block_");
            proof {
                assert(out@ =~= "block_".spec_bytes());
            }
            push_slice(&mut out, n.as_slice());
            push_lit(&mut out, ".json");
        },
        None => {
            push_lit(&mut out, "block_unknown.json");
            proof {
                assert(out@ =~= "block_unknown.json".spec_bytes());
            }
        },
    }
    out
}

/// Serializes one bucket as a JSON array document: each line is already a
/// serialized record, joined with the record separator and wrapped in
/// brackets.
pub fn render_group(data: &Vec<Vec<u8>>) -> (r: Vec<u8>)
    ensures
        r@ == rendered_group(crate::grouper::lines_view(data@)),
{
    let ghost lv = crate::grouper::lines_view(data@);
    let mut out: Vec<u8> = Vec::new();
    push_lit(&mut out, "[\n");
    proof {
        assert(out@ =~= "[\n".spec_bytes());
    }
    let n = data.len();
    if n > 0 {
        push_slice(&mut out, data[0].as_slice());
        proof {
            assert(lv.take(1)[0] == lv[0]);
            assert(lv.take(1).skip(1) =~= Seq::<Seq<u8>>::empty());
            assert(joined_lines(lv.take(1)) =~= lv[0]);
        }
        let mut i: usize = 1;
        while i < n
            invariant
                1 <= i <= n,
                n == data@.len(),
                lv == crate::grouper::lines_view(data@),
                out@ == "[\n".spec_bytes() + joined_lines(lv.take(i as int)),
            decreases n - i,
        {
            let ghost pre = out@;
            out.push(SEP0);
            out.push(SEP1);
            proof {
                assert(out@ =~= pre + sep_bytes());
            }
            push_slice(&mut out, data[i].as_slice());
            proof {
                let t = lv.take(i as int);
                assert(lv.take(i + 1) =~= t.push(lv[i as int]));
                assert(t.len() >= 1);
                assert(lv.take(i + 1)[0] == t[0]);
                assert(lv.take(i + 1).skip(1) =~= t.skip(1).push(lv[i as int]));
                lemma_tail_join_snoc(t.skip(1), lv[i as int]);
                assert(joined_lines(lv.take(i + 1)) == t[0] + (tail_join(t.skip(1)) + sep_bytes()
                    + lv[i as int]));
                assert(t[0] + (tail_join(t.skip(1)) + sep_bytes() + lv[i as int]) =~= (t[0]
                    + tail_join(t.skip(1))) + sep_bytes() + lv[i as int]);
                assert(out@ =~= "[\n".spec_bytes() + joined_lines(lv.take(i + 1)));
            }
            i += 1;
        }
        proof {
            assert(lv.take(n as int) =~= lv);
        }
    } else {
        proof {
            assert(joined_lines(lv) == Seq::<u8>::empty());
            assert(out@ =~= "[\n".spec_bytes() + joined_lines(lv));
        }
    }
    push_lit(&mut out, "\n]");
    out
}

/// Lower-casing of one ASCII byte.
pub open spec fn lower_byte(b: u8) -> u8 {
    if 65 <= b <= 90 {
        (b + 32) as u8
    } else {
        b
    }
}

/// Byte strings equal up to ASCII case.
pub open spec fn eq_ignore_case(a: Seq<u8>, b: Seq<u8>) -> bool {
    a.len() == b.len() && forall|i: int|
        0 <= i < a.len() ==> lower_byte(a[i]) == lower_byte(#[trigger] b[i])
}

/// A feature flag value counts as enabled when it spells "true" in any
/// ASCII case, or is exactly "1".
pub open spec fn spec_flag_enabled(v: Seq<u8>) -> bool {
    eq_ignore_case(v, "true".spec_bytes()) || v == "1".spec_bytes()
}

/// Compares two byte strings up to ASCII case.
fn eq_ignore_case_bytes(a: &[u8], b: &[u8]) -> (r: bool)
    ensures
        r == eq_ignore_case(a@, b@),
{
    if a.len() != b.len() {
        return false;
    }
    let n = a.len();
    let mut i: usize = 0;
    while i < n
        invariant
            n == a@.len() == b@.len(),
            0 <= i <= n,
            forall|k: int| 0 <= k < i ==> lower_byte(a@[k]) == lower_byte(#[trigger] b@[k]),
        decreases n - i,
    {
        let x = a[i];
        let y = b[i];
        let lx = if 65 <= x && x <= 90 {
            x + 32
        } else {
            x
        };
        let ly = if 65 <= y && y <= 90 {
            y + 32
        } else {
            y
        };
        if lx != ly {
            return false;
        }
        i += 1;
    }
    true
}

/// Reads a boolean feature flag value: enabled when it spells "true" in any
/// ASCII case or is exactly "1".
pub fn flag_enabled(v: &[u8]) -> (r: bool)
    ensures
        r == spec_flag_enabled(v@),
{
    if eq_ignore_case_bytes(v, "true".as_bytes()) {
        true
    } else {
        bytes_eq(v, "1".as_bytes())
    }
}

} // verus!
