//! Unit-aware value humanization for the table engine: byte counts scaled
//! by binary magnitude with two decimal places, and second counts bucketed
//! into two-unit compound ages.

use vstd::prelude::*;
use crate::text::{dec_of, pad2_spec, dec_chars, push_dec, push_pad2};
use vstd::arithmetic::div_mod::lemma_fundamental_div_mod_converse;

verus! {

pub const KIB: u64 = 1024;

pub const MIB: u64 = 1024 * 1024;

pub const GIB: u64 = 1024 * 1024 * 1024;

pub const MINUTE: u64 = 60;

pub const HOUR: u64 = 60 * 60;

pub const DAY: u64 = 24 * 60 * 60;

pub const YEAR: u64 = 365 * 24 * 60 * 60;

pub const MONTH: u64 = 30 * 24 * 60 * 60;

/// The quotient `n / d` rounded to the nearest integer, ties to even: the
/// rounding `"{:.2}"` applies to an exactly represented quotient.
pub open spec fn round_half_even(n: int, d: int) -> int {
    let q = n / d;
    let r = n % d;
    if 2 * r > d {
        q + 1
    } else if 2 * r < d {
        q
    } else if q % 2 == 0 {
        q
    } else {
        q + 1
    }
}

/// `b` scaled down by `unit` and written with two decimal places.
pub open spec fn scaled_of(b: int, unit: int) -> Seq<char> {
    let h = round_half_even(b * 100, unit);
    dec_of(h / 100) + seq!['.'] + pad2_spec(dec_of(h % 100), '0')
}

/// A byte count as the table renders it: the raw decimal integer in
/// parseable mode or under one KiB, else scaled to the largest binary unit
/// reached, with two decimals and the unit letter.
pub open spec fn bytes_text(b: int, parseable: bool) -> Seq<char> {
    if parseable {
        dec_of(b)
    } else if b >= GIB {
        scaled_of(b, GIB as int) + seq!['G']
    } else if b >= MIB {
        scaled_of(b, MIB as int) + seq!['M']
    } else if b >= KIB {
        scaled_of(b, KIB as int) + seq!['K']
    } else {
        dec_of(b)
    }
}

/// An age in whole seconds as the table renders it: raw seconds in
/// parseable mode, else bucketed by magnitude into a two-unit compound,
/// the leading unit padded to width two with spaces and the trailing unit
/// zero-padded to width two.
pub open spec fn age_text(s: int, parseable: bool) -> Seq<char> {
    if parseable {
        dec_of(s)
    } else if s >= YEAR {
        pad2_spec(dec_of(s / (YEAR as int)), ' ') + seq!['y'] + pad2_spec(
            dec_of((s % (YEAR as int)) / (MONTH as int)),
            '0',
        ) + seq!['M']
    } else if s >= 99 * (DAY as int) {
        pad2_spec(dec_of(s / (MONTH as int)), ' ') + seq!['M'] + pad2_spec(
            dec_of((s % (MONTH as int)) / (DAY as int)),
            '0',
        ) + seq!['d']
    } else if s >= DAY {
        pad2_spec(dec_of(s / (DAY as int)), ' ') + seq!['d'] + pad2_spec(
            dec_of((s % (DAY as int)) / (HOUR as int)),
            '0',
        ) + seq!['h']
    } else if s >= HOUR {
        pad2_spec(dec_of(s / (HOUR as int)), ' ') + seq!['h'] + pad2_spec(
            dec_of((s % (HOUR as int)) / (MINUTE as int)),
            '0',
        ) + seq!['m']
    } else if s >= MINUTE {
        pad2_spec(dec_of(s / (MINUTE as int)), ' ') + seq!['m'] + pad2_spec(
            dec_of(s % (MINUTE as int)),
            '0',
        ) + seq!['s']
    } else {
        dec_of(s) + seq!['s']
    }
}

/// Scale `b` by `unit` (a power of two no greater than one GiB) and write
/// it with two decimal places.
fn scaled_chars(b: u64, unit: u64) -> (r: Vec<char>)
    requires
        unit == KIB || unit == MIB || unit == GIB,
    ensures
        r@ == scaled_of(b as int, unit as int),
{
    let whole: u64 = b / unit;
    let rem: u64 = b % unit;
    let n2: u64 = rem * 100;
    let fq: u64 = n2 / unit;
    let fr: u64 = n2 % unit;
    assert(whole * 100 + fq < u64::MAX) by (nonlinear_arith)
        requires
            whole == b / unit,
            rem == b % unit,
            n2 == rem * 100,
            fq == n2 / unit,
            b <= u64::MAX,
            unit >= 1024,
    ;
    let cand: u64 = whole * 100 + fq;
    let h: u64 = if 2 * fr > unit {
        cand + 1
    } else if 2 * fr < unit {
        cand
    } else if cand % 2 == 0 {
        cand
    } else {
        cand + 1
    };
    proof {
        let bi = b as int;
        let u = unit as int;
        assert(bi * 100 == (cand as int) * u + (fr as int)) by (nonlinear_arith)
            requires
                whole == bi / u,
                rem == bi % u,
                n2 == rem * 100,
                fq == (n2 as int) / u,
                fr == (n2 as int) % u,
                cand == whole * 100 + fq,
                u >= 1024,
                bi >= 0,
        ;
        lemma_fundamental_div_mod_converse(bi * 100, u, cand as int, fr as int);
        assert((bi * 100) / u == cand as int);
        assert((bi * 100) % u == fr as int);
        assert(h == round_half_even(bi * 100, u));
    }
    let mut r: Vec<char> = Vec::new();
    push_dec(&mut r, h / 100);
    r.push('.');
    let frac = dec_chars(h % 100);
    push_pad2(&mut r, &frac, '0');
    proof {
        assert(r@ =~= scaled_of(b as int, unit as int));
    }
    r
}

/// A byte count rendered per `bytes_text`.
pub fn bytes_chars(b: u64, parseable: bool) -> (r: Vec<char>)
    ensures
        r@ == bytes_text(b as int, parseable),
{
    if !parseable && b >= GIB {
        let mut r = scaled_chars(b, GIB);
        r.push('G');
        proof {
            assert(r@ =~= bytes_text(b as int, parseable));
        }
        r
    } else if !parseable && b >= MIB {
        let mut r = scaled_chars(b, MIB);
        r.push('M');
        proof {
            assert(r@ =~= bytes_text(b as int, parseable));
        }
        r
    } else if !parseable && b >= KIB {
        let mut r = scaled_chars(b, KIB);
        r.push('K');
        proof {
            assert(r@ =~= bytes_text(b as int, parseable));
        }
        r
    } else {
        dec_chars(b)
    }
}

/// An age in whole seconds rendered per `age_text`.
pub fn age_chars(s: u64, parseable: bool) -> (r: Vec<char>)
    ensures
        r@ == age_text(s as int, parseable),
{
    if parseable {
        return dec_chars(s);
    }
    let mut r: Vec<char> = Vec::new();
    if s >= YEAR {
        let lead = dec_chars(s / YEAR);
        push_pad2(&mut r, &lead, ' ');
        r.push('y');
        let tail = dec_chars((s % YEAR) / MONTH);
        push_pad2(&mut r, &tail, '0');
        r.push('M');
    } else if s >= 99 * DAY {
        let lead = dec_chars(s / MONTH);
        push_pad2(&mut r, &lead, ' ');
        r.push('M');
        let tail = dec_chars((s % MONTH) / DAY);
        push_pad2(&mut r, &tail, '0');
        r.push('d');
    } else if s >= DAY {
        let lead = dec_chars(s / DAY);
        push_pad2(&mut r, &lead, ' ');
        r.push('d');
        let tail = dec_chars((s % DAY) / HOUR);
        push_pad2(&mut r, &tail, '0');
        r.push('h');
    } else if s >= HOUR {
        let lead = dec_chars(s / HOUR);
        push_pad2(&mut r, &lead, ' ');
        r.push('h');
        let tail = dec_chars((s % HOUR) / MINUTE);
        push_pad2(&mut r, &tail, '0');
        r.push('m');
    } else if s >= MINUTE {
        let lead = dec_chars(s / MINUTE);
        push_pad2(&mut r, &lead, ' ');
        r.push('m');
        let tail = dec_chars(s % MINUTE);
        push_pad2(&mut r, &tail, '0');
        r.push('s');
    } else {
        push_dec(&mut r, s);
        r.push('s');
    }
    proof {
        assert(r@ =~= age_text(s as int, parseable));
    }
    r
}

/// A byte count humanized exactly as table rendering does it.
pub fn humanize_bytes(b: u64, parseable: bool) -> (r: String)
    ensures
        r@ == bytes_text(b as int, parseable),
{
    let v = bytes_chars(b, parseable);
    crate::text::chars_string(&v)
}

/// An age in whole seconds humanized exactly as table rendering does it.
pub fn humanize_age(s: u64, parseable: bool) -> (r: String)
    ensures
        r@ == age_text(s as int, parseable),
{
    let v = age_chars(s, parseable);
    crate::text::chars_string(&v)
}

/// In parseable mode a byte count always renders as its raw decimal
/// integer, whatever its magnitude.
pub proof fn lemma_parseable_bytes_raw(b: int)
    ensures
        bytes_text(b, true) == dec_of(b),
{
}

/// In parseable mode an age always renders as its raw decimal seconds.
pub proof fn lemma_parseable_age_raw(s: int)
    ensures
        age_text(s, true) == dec_of(s),
{
}

/// At or beyond one year an age renders as years and leftover months,
/// `"{:2}y{:02}M"`, with a month standing for thirty days.
pub proof fn lemma_age_year_bucket(s: int)
    requires
        s >= YEAR,
    ensures
        age_text(s, false) == pad2_spec(dec_of(s / (YEAR as int)), ' ') + seq!['y'] + pad2_spec(
            dec_of((s % (YEAR as int)) / (MONTH as int)),
            '0',
        ) + seq!['M'],
{
}

} // verus!
