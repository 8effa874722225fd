//! Temperature codec: conversions between the surface form of a reading (a
//! signed decimal with exactly one fractional digit, such as `-12.3`) and the
//! internal fixed-point form (degrees Celsius scaled by 1000, as `i64`).
//!
//! Parsing walks the bytes left to right: digits grow a magnitude, every
//! minus sign flips the sign, and all other bytes (in particular the decimal
//! point) are ignored.  A well-formed reading therefore parses to ten times
//! its surface value, which the codec scales by a further 100 to reach the
//! 1000-scaled unit of the accumulators.

use vstd::arithmetic::div_mod::lemma_fundamental_div_mod;
use vstd::arithmetic::div_mod::lemma_fundamental_div_mod_converse;
use vstd::arithmetic::div_mod::lemma_mod_bound;
use vstd::prelude::*;

verus! {

/// Largest magnitude (at the ten-times-surface scale) that the parser tracks
/// exactly; `MAG_CAP * 100` still fits in an `i64`.
pub const MAG_CAP: u64 = 92_233_720_368_547_758;

/// Bound on every value `parse_int` returns: `MAG_CAP * 100`.
pub const READING_BOUND: i64 = 9_223_372_036_854_775_800;

/// An ASCII decimal digit.
pub open spec fn is_ascii_digit(b: u8) -> bool {
    48 <= b <= 57
}

/// The magnitude accumulated by a left-to-right walk of `s`: each digit
/// multiplies the running value by ten and adds itself; other bytes are
/// ignored.
pub open spec fn pmag(s: Seq<u8>) -> nat
    decreases s.len(),
{
    if s.len() == 0 {
        0
    } else {
        let m = pmag(s.drop_last());
        if is_ascii_digit(s.last()) {
            m * 10 + (s.last() - 48) as nat
        } else {
            m
        }
    }
}

/// Whether the sign accumulated over `s` is negative: every minus sign in
/// `s` flips it, wherever it stands.
pub open spec fn pneg(s: Seq<u8>) -> bool
    decreases s.len(),
{
    if s.len() == 0 {
        false
    } else {
        pneg(s.drop_last()) != (s.last() == 45)
    }
}

/// The value `s` denotes at ten times the surface scale (`-12.3` gives
/// `-123`).
pub open spec fn parse_ten(s: Seq<u8>) -> int {
    if pneg(s) {
        -(pmag(s) as int)
    } else {
        pmag(s) as int
    }
}

/// The value `s` denotes at the 1000-scaled unit of the accumulators.
pub open spec fn parse_scaled(s: Seq<u8>) -> int {
    100 * parse_ten(s)
}

/// Parses a byte range into a 1000-scaled temperature.
///
/// Digits grow the magnitude, each minus sign flips the sign, and every
/// other byte is ignored; an input without digits yields zero.  The result
/// is exact whenever the denoted magnitude fits below `MAG_CAP`; beyond that
/// the result is merely bounded, never a panic.
pub fn parse_int(buf: &[u8]) -> (r: i64)
    ensures
        -READING_BOUND <= r <= READING_BOUND,
        pmag(buf@) <= MAG_CAP ==> r == parse_scaled(buf@),
{
    let n = buf.len();
    let mut mag: u64 = 0;
    let mut neg: bool = false;
    let mut over: bool = false;
    let mut i: usize = 0;
    while i < n
        invariant
            0 <= i <= n == buf@.len(),
            mag <= MAG_CAP,
            neg == pneg(buf@.take(i as int)),
            !over ==> mag == pmag(buf@.take(i as int)),
            over ==> pmag(buf@.take(i as int)) > MAG_CAP,
        decreases n - i,
    {
        let c = buf[i];
        proof {
            assert(buf@.take(i + 1).drop_last() =~= buf@.take(i as int));
            assert(buf@.take(i + 1).last() == buf@[i as int]);
        }
        if c == 45 {
            neg = !neg;
        } else if 48 <= c && c <= 57 {
            let d = (c - 48) as u64;
            proof {
                lemma_fundamental_div_mod((MAG_CAP - d) as int, 10);
            }
            if mag <= (MAG_CAP - d) / 10 {
                mag = mag * 10 + d;
            } else {
                over = true;
            }
        }
        i += 1;
    }
    proof {
        assert(buf@.take(n as int) =~= buf@);
    }
    let scaled = (mag as i64) * 100;
    if neg {
        -scaled
    } else {
        scaled
    }
}

/// The canonical decimal digits of `n`, most significant first, without
/// leading zeros (`0` is the single byte `48`).
pub open spec fn dec_bytes(n: nat) -> Seq<u8>
    decreases n,
{
    if n < 10 {
        seq![(48 + n) as u8]
    } else {
        dec_bytes(n / 10).push((48 + n % 10) as u8)
    }
}

/// The surface form of a nonnegative 1000-scaled value `m`: the whole
/// degrees, a decimal point, and the single tenths digit, truncated.
pub open spec fn fmt_fixed(m: nat) -> Seq<u8> {
    dec_bytes(m / 1000).push(46).push((48 + (m / 100) % 10) as u8)
}

/// The surface form of a 1000-scaled value: a leading minus sign for
/// negative values, then the absolute value with one fractional digit.
pub open spec fn fmt_scaled(v: int) -> Seq<u8> {
    if v < 0 {
        seq![45u8] + fmt_fixed((-v) as nat)
    } else {
        fmt_fixed(v as nat)
    }
}

/// Appends the decimal digits of `n` to `out`.
fn push_dec(out: &mut Vec<u8>, n: u64)
    ensures
        final(out)@ == old(out)@ + dec_bytes(n as nat),
    decreases n,
{
    if n < 10 {
        out.push(48 + n as u8);
        proof {
            assert(out@ =~= old(out)@ + dec_bytes(n as nat));
        }
    } else {
        push_dec(out, n / 10);
        out.push(48 + (n % 10) as u8);
        proof {
            assert(out@ =~= old(out)@ + dec_bytes(n as nat));
        }
    }
}

/// Appends all of `src` to `out`.
pub fn push_bytes(out: &mut Vec<u8>, src: &[u8])
    ensures
        final(out)@ == old(out)@ + src@,
{
    let n = src.len();
    let mut i: usize = 0;
    while i < n
        invariant
            0 <= i <= n == src@.len(),
            out@ == old(out)@ + src@.take(i as int),
        decreases n - i,
    {
        out.push(src[i]);
        proof {
            assert(src@.take(i + 1) =~= src@.take(i as int).push(src@[i as int]));
            assert(out@ =~= old(out)@ + src@.take(i + 1));
        }
        i += 1;
    }
    proof {
        assert(src@.take(n as int) =~= src@);
    }
}

/// Formats a 1000-scaled temperature as a signed decimal with exactly one
/// fractional digit; the sign is computed separately, so small negative
/// values keep their minus sign.
pub fn format_float(value: i64) -> (r: Vec<u8>)
    requires
        value > i64::MIN,
    ensures
        r@ == fmt_scaled(value as int),
{
    let mut out: Vec<u8> = Vec::new();
    let mag: u64 = if value < 0 {
        out.push(45);
        (-value) as u64
    } else {
        value as u64
    };
    proof {
        lemma_mod_bound(mag as int / 100, 10);
    }
    let whole = mag / 1000;
    let tenth = ((mag / 100) % 10) as u8;
    push_dec(&mut out, whole);
    out.push(46);
    out.push(48 + tenth);
    proof {
        if value < 0 {
            assert(out@ =~= seq![45u8] + fmt_fixed((-(value as int)) as nat));
        } else {
            assert(out@ =~= fmt_fixed(value as nat));
        }
    }
    out
}

/// After any prefix that carries no magnitude, the canonical digits of `n`
/// parse back to `n` and leave the accumulated sign alone.
proof fn lemma_parse_after_prefix(p: Seq<u8>, n: nat)
    requires
        pmag(p) == 0,
    ensures
        pmag(p + dec_bytes(n)) == n,
        pneg(p + dec_bytes(n)) == pneg(p),
    decreases n,
{
    if n < 10 {
        assert((p + dec_bytes(n)).drop_last() =~= p);
    } else {
        lemma_parse_after_prefix(p, n / 10);
        assert((p + dec_bytes(n)).drop_last() =~= p + dec_bytes(n / 10));
        lemma_mod_bound(n as int, 10);
        lemma_fundamental_div_mod(n as int, 10);
    }
}

/// The surface form of the temperature with whole part `w` and single
/// fractional digit `d`: the digits of `w`, a decimal point, and `d`.
pub open spec fn surface(w: int, d: int) -> Seq<u8> {
    dec_bytes(w as nat).push(46).push((48 + d) as u8)
}

/// Round trip from the surface: for every surface temperature with one
/// fractional digit in `[0.0, 99.9]` (whole part `w`, tenths digit `d`),
/// parsing yields the 1000-scaled value `(w * 10 + d) * 100`, and formatting
/// that value reproduces the surface form exactly.
pub proof fn lemma_format_parse_roundtrip(w: int, d: int)
    requires
        0 <= w <= 99,
        0 <= d <= 9,
    ensures
        parse_scaled(surface(w, d)) == (w * 10 + d) * 100,
        fmt_scaled(parse_scaled(surface(w, d))) == surface(w, d),
{
    let s = surface(w, d);
    let s1 = dec_bytes(w as nat);
    let s2 = s1.push(46);
    lemma_parse_after_prefix(Seq::empty(), w as nat);
    assert(Seq::empty() + s1 =~= s1);
    assert(pmag(s2) == w && pneg(s2) == false) by {
        assert(s2.drop_last() =~= s1);
    }
    assert(pmag(s) == w * 10 + d && pneg(s) == false) by {
        assert(s =~= s2.push((48 + d) as u8));
        assert(s2.push((48 + d) as u8).drop_last() =~= s2);
    }
    assert(parse_scaled(s) == (w * 10 + d) * 100);
    let m = (w * 10 + d) * 100;
    lemma_fundamental_div_mod_converse(m, 1000, w, d * 100);
    lemma_fundamental_div_mod_converse(m, 100, w * 10 + d, 0);
    lemma_fundamental_div_mod_converse(w * 10 + d, 10, w, d);
    assert(fmt_fixed(m as nat) =~= s);
}

/// Round trip from the scaled value: for every 1000-scaled value `v` that is
/// a whole number of degrees with `|v| >= 1000`, formatting and parsing give
/// `v` back exactly.
pub proof fn lemma_parse_format_roundtrip(v: int)
    requires
        v % 1000 == 0,
        v >= 1000 || v <= -1000,
    ensures
        parse_scaled(fmt_scaled(v)) == v,
{
    let m = (if v < 0 { -v } else { v }) as nat;
    let w = m / 1000;
    assert(m % 1000 == 0) by {
        lemma_fundamental_div_mod(v, 1000);
        if v < 0 {
            vstd::arithmetic::div_mod::lemma_mod_multiples_basic(-(v / 1000), 1000);
        }
    }
    lemma_fundamental_div_mod(m as int, 1000);
    assert(m == w * 1000);
    lemma_fundamental_div_mod_converse(m as int, 100, w as int * 10, 0);
    lemma_fundamental_div_mod_converse(w as int * 10, 10, w as int, 0);
    let p: Seq<u8> = if v < 0 { seq![45u8] } else { Seq::empty() };
    assert(pmag(p) == 0 && pneg(p) == (v < 0)) by {
        if v < 0 {
            assert(p.drop_last() =~= Seq::<u8>::empty());
            assert(p.last() == 45);
            assert(pmag(Seq::<u8>::empty()) == 0);
            assert(pneg(Seq::<u8>::empty()) == false);
        }
    }
    lemma_parse_after_prefix(p, w);
    let s1 = p + dec_bytes(w);
    let s2 = s1.push(46);
    assert(pmag(s2) == w && pneg(s2) == (v < 0)) by {
        assert(s2.drop_last() =~= s1);
    }
    let s = fmt_scaled(v);
    assert(pmag(s) == w * 10 && pneg(s) == (v < 0)) by {
        assert(s =~= s2.push(48));
        assert(s2.push(48).drop_last() =~= s2);
    }
    assert(parse_scaled(s) == v);
}

} // verus!
