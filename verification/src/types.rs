//! Plain data types shared by the whole pipeline: boxes in pixel space,
//! segmentation masks, millisecond timestamps and subtitle segments.
use vstd::prelude::*;

use crate::decimal::{lemma_padded_reads_back, push_padded, spec_all_digits, spec_padded, spec_pow10, spec_value};

verus! {

/// Axis-aligned rectangle in pixel coordinates, origin at the top-left corner.
#[derive(Debug, Clone, Copy, PartialEq, Eq, Structural)]
pub struct BBox {
    pub x: u32,
    pub y: u32,
    pub width: u32,
    pub height: u32,
}

impl BBox {
    pub fn new(x: u32, y: u32, width: u32, height: u32) -> (b: Self)
        ensures
            b == (BBox { x, y, width, height }),
    {
        BBox { x, y, width, height }
    }

    /// Covered area in pixels; `width * height` always fits in a `u64`.
    pub fn area(&self) -> (a: u64)
        ensures
            a == self.width * self.height,
    {
        assert(self.width * self.height <= u32::MAX * u32::MAX) by (nonlinear_arith);
        self.width as u64 * self.height as u64
    }
}

/// Semantic segmentation mask: one class id per pixel, row-major,
/// `width * height` entries.
#[derive(Debug, Clone, PartialEq)]
pub struct Mask {
    pub width: u32,
    pub height: u32,
    pub classes: Vec<u8>,
}

/// A presentation time in milliseconds.
#[derive(Debug, Clone, Copy, PartialEq, Eq, Structural, PartialOrd, Ord)]
pub struct Timestamp(pub u64);

/// Characters of `HH:MM:SS,mmm` for a millisecond count: hours, minutes and
/// seconds padded to two digits, milliseconds to three. Hours are not
/// wrapped, so more than 99 hours print with more digits.
pub open spec fn spec_srt_time(ms: nat) -> Seq<char> {
    let total_secs = ms / 1000;
    spec_padded(total_secs / 3600, 2) + seq![':'] + spec_padded((total_secs / 60) % 60, 2)
        + seq![':'] + spec_padded(total_secs % 60, 2) + seq![','] + spec_padded(ms % 1000, 3)
}

impl Timestamp {
    pub fn from_millis(ms: u64) -> (t: Self)
        ensures
            t == Timestamp(ms),
    {
        Timestamp(ms)
    }

    pub fn millis(self) -> (ms: u64)
        ensures
            ms == self.0,
    {
        self.0
    }

    /// SRT time notation `HH:MM:SS,mmm`.
    pub fn to_srt(self) -> (s: String)
        ensures
            s@ == spec_srt_time(self.0 as nat),
    {
        let ms = self.0 % 1000;
        let total_secs = self.0 / 1000;
        let s = total_secs % 60;
        let m = (total_secs / 60) % 60;
        let h = total_secs / 3600;
        let mut out = String::new();
        push_padded(&mut out, h, 2);
        push_str_lit(&mut out, ":");
        push_padded(&mut out, m, 2);
        push_str_lit(&mut out, ":");
        push_padded(&mut out, s, 2);
        push_str_lit(&mut out, ",");
        push_padded(&mut out, ms, 3);
        proof {
            reveal_strlit(":");
            reveal_strlit(",");
        }
        assert(out@ =~= spec_srt_time(self.0 as nat));
        out
    }
}

/// Appends `lit` to `out`.
pub fn push_str_lit(out: &mut String, lit: &str)
    ensures
        final(out)@ == old(out)@ + lit@,
{
    out.append(lit);
}

/// A run of time over which the same text was shown.
#[derive(Debug, Clone, PartialEq)]
pub struct Segment {
    pub start: Timestamp,
    pub end: Timestamp,
    pub text: String,
}

impl Segment {
    /// A segment that starts and ends at `start`.
    pub fn new(start: Timestamp, text: &str) -> (s: Self)
        ensures
            s.start == start,
            s.end == start,
            s.text@ == text@,
    {
        Segment { start, end: start, text: text.to_owned() }
    }
}

/// The SRT time notation reads back as the time: hours, minutes, seconds
/// and milliseconds, in decimal digits split by `:`, `:` and `,`, with
/// minutes and seconds below 60 and milliseconds below 1000, add up to the
/// millisecond count.
pub proof fn lemma_srt_time_reads_back(ms: u64)
    ensures
        ({
            let out = spec_srt_time(ms as nat);
            let l = out.len() as int;
            let hh = out.subrange(0, l - 10);
            let mm = out.subrange(l - 9, l - 7);
            let ss = out.subrange(l - 6, l - 4);
            let mmm = out.subrange(l - 3, l);
            &&& l >= 12
            &&& out[l - 10] == ':' && out[l - 7] == ':' && out[l - 4] == ','
            &&& spec_all_digits(hh) && spec_all_digits(mm) && spec_all_digits(ss) && spec_all_digits(mmm)
            &&& spec_value(mm) < 60 && spec_value(ss) < 60 && spec_value(mmm) < 1000
            &&& spec_value(hh) * 3600000 + spec_value(mm) * 60000 + spec_value(ss) * 1000 + spec_value(mmm) == ms
        }),
{
    let t = ms as nat;
    let total = t / 1000;
    let h = total / 3600;
    let m = (total / 60) % 60;
    let sec = total % 60;
    let r = t % 1000;
    let hp = spec_padded(h, 2);
    let mp = spec_padded(m, 2);
    let sp = spec_padded(sec, 2);
    let rp = spec_padded(r, 3);
    reveal_with_fuel(spec_pow10, 4);
    lemma_padded_reads_back(h, 2);
    lemma_padded_reads_back(m, 2);
    lemma_padded_reads_back(sec, 2);
    lemma_padded_reads_back(r, 3);
    assert(hp.len() >= 2) by {
        if h < 100 {
        } else {
            let d = crate::decimal::spec_decimal(h);
            assert(hp.len() >= 2 || hp == d);
        }
    }
    let out = spec_srt_time(t);
    assert(out == hp + seq![':'] + mp + seq![':'] + sp + seq![','] + rp);
    let l = out.len() as int;
    assert(l == hp.len() + 10);
    assert(out.subrange(0, l - 10) =~= hp);
    assert(out.subrange(l - 9, l - 7) =~= mp);
    assert(out.subrange(l - 6, l - 4) =~= sp);
    assert(out.subrange(l - 3, l) =~= rp);
    assert(out[l - 10] == ':' && out[l - 7] == ':' && out[l - 4] == ',');
    vstd::arithmetic::div_mod::lemma_div_denominator(total as int, 60, 60);
    assert(t == total * 1000 + r);
    assert(total == (total / 60) * 60 + sec);
    assert(total / 60 == h * 60 + m);
    assert(h * 3600000 + m * 60000 + sec * 1000 + r == t) by (nonlinear_arith)
        requires
            t == total * 1000 + r,
            total == (total / 60) * 60 + sec,
            total / 60 == h * 60 + m,
    ;
}

} // verus!
