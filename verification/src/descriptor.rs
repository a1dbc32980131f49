//! The run-configuration snapshot embedded at the start of every block bucket.
//!
//! A descriptor is serialized once per block boundary, with the timestamp of
//! that boundary, so each bucket's first line reflects the open time of its
//! own block.  The serialization is a flat JSON object rendered here byte by
//! byte, with a precise model of the escaping and of the decimal timestamp.

use vstd::prelude::*;
use vstd::string::StringSliceAdditionalSpecFns;
use vstd::arithmetic::div_mod::lemma_fundamental_div_mod;
use crate::bytes::push_lit;

verus! {

/// Immutable snapshot of run configuration and host environment.
#[derive(Clone)]
pub struct SystemDescriptor {
    /// Output directory for block files, as path bytes.
    pub out_dir: Vec<u8>,
    /// Whether the experimental optimization is enabled.
    pub ssa_enabled: bool,
    /// Whether parallel execution is enabled.
    pub parallel_enabled: bool,
    /// Whether prewarming is enabled.
    pub prewarm_enabled: bool,
    /// Client version string.
    pub cli_version: Vec<u8>,
    /// Whether this is a release build.
    pub is_release: bool,
    /// Host hardware summary string.
    pub hardware: Vec<u8>,
}

/// The mathematical value of a descriptor.
pub ghost struct DescView {
    pub out_dir: Seq<u8>,
    pub ssa_enabled: bool,
    pub parallel_enabled: bool,
    pub prewarm_enabled: bool,
    pub cli_version: Seq<u8>,
    pub is_release: bool,
    pub hardware: Seq<u8>,
}

impl View for SystemDescriptor {
    type V = DescView;

    open spec fn view(&self) -> DescView {
        DescView {
            out_dir: self.out_dir@,
            ssa_enabled: self.ssa_enabled,
            parallel_enabled: self.parallel_enabled,
            prewarm_enabled: self.prewarm_enabled,
            cli_version: self.cli_version@,
            is_release: self.is_release,
            hardware: self.hardware@,
        }
    }
}

/// The lower-case hex digit for a value below sixteen.
pub open spec fn hex_digit(n: u8) -> u8 {
    if n < 10 {
        (48 + n) as u8
    } else {
        (87 + n) as u8
    }
}

/// The JSON string escaping of one byte: quote and backslash are escaped,
/// common control characters use their short escapes, other control bytes
/// use a four-digit hex escape, and everything else passes through.
pub open spec fn esc_byte(b: u8) -> Seq<u8> {
    if b == 34 {
        seq![92u8, 34u8]
    } else if b == 92 {
        seq![92u8, 92u8]
    } else if b == 8 {
        seq![92u8, 98u8]
    } else if b == 12 {
        seq![92u8, 102u8]
    } else if b == 10 {
        seq![92u8, 110u8]
    } else if b == 13 {
        seq![92u8, 114u8]
    } else if b == 9 {
        seq![92u8, 116u8]
    } else if b < 32 {
        seq![92u8, 117u8, 48u8, 48u8, hex_digit(b / 16), hex_digit(b % 16)]
    } else {
        seq![b]
    }
}

/// The JSON string escaping of a byte string.
pub open spec fn escape(s: Seq<u8>) -> Seq<u8>
    decreases s.len(),
{
    if s.len() == 0 {
        Seq::empty()
    } else {
        escape(s.drop_last()) + esc_byte(s.last())
    }
}

/// The decimal digits of `n`, most significant first.
pub open spec fn dec_digits(n: nat) -> Seq<u8>
    decreases n,
{
    if n < 10 {
        seq![(48 + n) as u8]
    } else {
        dec_digits(n / 10) + seq![(48 + n % 10) as u8]
    }
}

/// A decimal rendering has at least one digit.
pub proof fn lemma_dec_digits_len(n: nat)
    ensures
        dec_digits(n).len() >= 1,
    decreases n,
{
    if n >= 10 {
        lemma_dec_digits_len(n / 10);
    }
}

/// Different numbers render to different digit strings.
pub proof fn lemma_dec_digits_injective(a: nat, b: nat)
    requires
        dec_digits(a) == dec_digits(b),
    ensures
        a == b,
    decreases a,
{
    lemma_dec_digits_len(a);
    lemma_dec_digits_len(b);
    if a < 10 && b < 10 {
        assert(dec_digits(a)[0] == 48 + a);
        assert(dec_digits(b)[0] == 48 + b);
    } else if a < 10 {
        lemma_dec_digits_len(b / 10);
        assert(dec_digits(b).len() >= 2);
        assert(dec_digits(a).len() == 1);
    } else if b < 10 {
        lemma_dec_digits_len(a / 10);
        assert(dec_digits(a).len() >= 2);
        assert(dec_digits(b).len() == 1);
    } else {
        let da = dec_digits(a / 10);
        let db = dec_digits(b / 10);
        assert((da + seq![(48 + a % 10) as u8]).last() == (48 + a % 10) as u8);
        assert((db + seq![(48 + b % 10) as u8]).last() == (48 + b % 10) as u8);
        assert(a % 10 == b % 10);
        assert((da + seq![(48 + a % 10) as u8]).drop_last() =~= da);
        assert((db + seq![(48 + b % 10) as u8]).drop_last() =~= db);
        assert(da == db);
        lemma_dec_digits_injective(a / 10, b / 10);
        lemma_fundamental_div_mod(a as int, 10);
        lemma_fundamental_div_mod(b as int, 10);
    }
}

/// The JSON rendering of a boolean.
pub open spec fn bool_bytes(b: bool) -> Seq<u8> {
    if b {
        "true".spec_bytes()
    } else {
        "false".spec_bytes()
    }
}

/// Everything of the rendered descriptor before the timestamp digits.
pub open spec fn render_prefix(d: DescView) -> Seq<u8> {
    "{\"out_dir\":\"".spec_bytes() + escape(d.out_dir) + "\",\"ssa_enabled\":".spec_bytes()
        + bool_bytes(d.ssa_enabled) + ",\"parallel_enabled\":".spec_bytes() + bool_bytes(
        d.parallel_enabled,
    ) + ",\"prewarm_enabled\":".spec_bytes() + bool_bytes(d.prewarm_enabled)
        + ",\"cli_version\":\"".spec_bytes() + escape(d.cli_version)
        + "\",\"timestamp\":\"".spec_bytes()
}

/// Everything of the rendered descriptor after the timestamp digits.
pub open spec fn render_suffix(d: DescView) -> Seq<u8> {
    "\",\"is_release\":".spec_bytes() + bool_bytes(d.is_release) + ",\"hardware\":\"".spec_bytes()
        + escape(d.hardware) + "\"}".spec_bytes()
}

/// The full JSON rendering of a descriptor snapshot taken at time `ts`.
pub open spec fn render_descriptor(d: DescView, ts: u64) -> Seq<u8> {
    render_prefix(d) + dec_digits(ts as nat) + render_suffix(d)
}

/// Snapshots of the same descriptor at different times render differently:
/// each block bucket's first line carries the open time of its own block.
pub proof fn lemma_render_timestamp_injective(d: DescView, t1: u64, t2: u64)
    requires
        t1 != t2,
    ensures
        render_descriptor(d, t1) != render_descriptor(d, t2),
{
    if render_descriptor(d, t1) == render_descriptor(d, t2) {
        let p = render_prefix(d);
        let s = render_suffix(d);
        let d1 = dec_digits(t1 as nat);
        let d2 = dec_digits(t2 as nat);
        assert(render_descriptor(d, t1).len() == p.len() + d1.len() + s.len());
        assert(render_descriptor(d, t2).len() == p.len() + d2.len() + s.len());
        assert(d1.len() == d2.len());
        assert forall|i: int| 0 <= i < d1.len() implies d1[i] == d2[i] by {
            assert(render_descriptor(d, t1)[p.len() + i] == d1[i]);
            assert(render_descriptor(d, t2)[p.len() + i] == d2[i]);
        }
        assert(d1 =~= d2);
        lemma_dec_digits_injective(t1 as nat, t2 as nat);
    }
}

/// The lower-case hex digit for a value below sixteen.
fn hex_digit_byte(n: u8) -> (r: u8)
    requires
        n < 16,
    ensures
        r == hex_digit(n),
{
    if n < 10 {
        48 + n
    } else {
        87 + n
    }
}

/// Appends the JSON string escaping of `s` to `out`.
pub fn push_escaped(out: &mut Vec<u8>, s: &[u8])
    ensures
        final(out)@ == old(out)@ + escape(s@),
{
    let n = s.len();
    let mut i: usize = 0;
    proof {
        assert(s@.take(0) =~= Seq::<u8>::empty());
        assert(old(out)@ + escape(s@.take(0)) =~= old(out)@);
    }
    while i < n
        invariant
            n == s@.len(),
            0 <= i <= n,
            out@ == old(out)@ + escape(s@.take(i as int)),
        decreases n - i,
    {
        let ghost pre = out@;
        let b = s[i];
        if b == 34 {
            out.push(92);
            out.push(34);
        } else if b == 92 {
            out.push(92);
            out.push(92);
        } else if b == 8 {
            out.push(92);
            out.push(98);
        } else if b == 12 {
            out.push(92);
            out.push(102);
        } else if b == 10 {
            out.push(92);
            out.push(110);
        } else if b == 13 {
            out.push(92);
            out.push(114);
        } else if b == 9 {
            out.push(92);
            out.push(116);
        } else if b < 32 {
            out.push(92);
            out.push(117);
            out.push(48);
            out.push(48);
            out.push(hex_digit_byte(b / 16));
            out.push(hex_digit_byte(b % 16));
        } else {
            out.push(b);
        }
        proof {
            assert(out@ =~= pre + esc_byte(s@[i as int]));
            assert(s@.take(i + 1).drop_last() =~= s@.take(i as int));
            assert(s@.take(i + 1).last() == s@[i as int]);
            assert(escape(s@.take(i + 1)) == escape(s@.take(i as int)) + esc_byte(s@[i as int]));
            assert(out@ =~= old(out)@ + escape(s@.take(i + 1)));
        }
        i += 1;
    }
    proof {
        assert(s@.take(n as int) =~= s@);
    }
}

/// Appends the decimal digits of `n` to `out`.
pub fn push_dec(out: &mut Vec<u8>, n: u64)
    ensures
        final(out)@ == old(out)@ + dec_digits(n as nat),
    decreases n,
{
    if n < 10 {
        let d: u8 = (n % 10) as u8;
        out.push(48 + d);
        proof {
            assert(old(out)@.push((48 + n as nat) as u8) =~= old(out)@ + dec_digits(n as nat));
        }
    } else {
        push_dec(out, n / 10);
        let d: u8 = (n % 10) as u8;
        let ghost pre = out@;
        out.push(48 + d);
        proof {
            assert(pre.push((48 + (n as nat) % 10) as u8) =~= old(out)@ + dec_digits(n as nat));
        }
    }
}

/// Appends the JSON rendering of a boolean to `out`.
pub fn push_bool(out: &mut Vec<u8>, b: bool)
    ensures
        final(out)@ == old(out)@ + bool_bytes(b),
{
    if b {
        push_lit(out, "true");
    } else {
        push_lit(out, "false");
    }
}

impl SystemDescriptor {
    /// Renders the descriptor as one JSON object line, with `ts` as the
    /// millisecond timestamp of the block boundary being opened.
    pub fn render_json(&self, ts: u64) -> (r: Vec<u8>)
        ensures
            r@ == render_descriptor(self@, ts),
    {
        let mut out: Vec<u8> = Vec::new();
        push_lit(&mut out, "{\"out_dir\":\"");
        proof {
            assert(out@ =~= "{\"out_dir\":\"".spec_bytes());
        }
        push_escaped(&mut out, self.out_dir.as_slice());
        push_lit(&mut out, "\",\"ssa_enabled\":");
        push_bool(&mut out, self.ssa_enabled);
        push_lit(&mut out, ",\"parallel_enabled\":");
        push_bool(&mut out, self.parallel_enabled);
        push_lit(&mut out, ",\"prewarm_enabled\":");
        push_bool(&mut out, self.prewarm_enabled);
        push_lit(&mut out, ",\"cli_version\":\"");
        push_escaped(&mut out, self.cli_version.as_slice());
        push_lit(&mut out, "\",\"timestamp\":\"");
        proof {
            assert(out@ == render_prefix(self@));
        }
        push_dec(&mut out, ts);
        push_lit(&mut out, "\",\"is_release\":");
        push_bool(&mut out, self.is_release);
        push_lit(&mut out, ",\"hardware\":\"");
        push_escaped(&mut out, self.hardware.as_slice());
        push_lit(&mut out, "\"}");
        proof {
            assert(out@ =~= render_descriptor(self@, ts));
        }
        out
    }
}

} // verus!
