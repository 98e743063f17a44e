//! Data transfer types and the snapshot wire format.
//!
//! A snapshot travels as the JSON object
//! `{"min": f, "max": f, "curr_avg": f, "sma": f, "data_point": u}` where
//! each `f` is a fixed-point decimal in whole-price terms with exactly eight
//! fractional digits (one engine unit is `10^-8` of a price), and `u` is a
//! plain integer. The two means are rounded to the nearest unit, ties away
//! from zero, when the wire record is formed from a snapshot.
//! `render_stats_json` emits exactly `json_of` and `parse_stats_json`
//! accepts exactly the rendered forms, so the wire format round-trips.

use vstd::prelude::*;
use crate::data_processor::{RawData, Ratio, PRICE_LIMIT};
use crate::digits::{
    all_dec_digits, dec_val, dec_rep, find_byte, fix_of, fix_rep_at, int_rep, int_rep_at,
    is_dec_digit, lemma_dec_val_len_bound, lemma_dec_val_nonneg, lemma_find_byte_bounds,
    lemma_find_byte_exact, lemma_find_byte_lb, lemma_pow10_add, lemma_run_end_props,
    parse_fix_at, parse_i128_at, parse_u128_at, pow10, push_fix, push_u128, run_end,
};
use vstd::arithmetic::mul::lemma_mul_inequality;
use vstd::arithmetic::div_mod::lemma_div_nonincreasing;
use vstd::string::*;

verus! {

/// The quotient `num / den`, rounded to the nearest integer with ties away
/// from zero, saturated to `[-i64::MAX, i64::MAX]`.
pub open spec fn rounded_units(num: int, den: int) -> int {
    let m = if num >= 0 {
        num
    } else {
        -num
    };
    let q = m / den;
    let rm = m % den;
    let up = if 2 * rm >= den {
        q + 1
    } else {
        q
    };
    let s = if num >= 0 {
        up
    } else {
        -up
    };
    if s > i64::MAX {
        i64::MAX as int
    } else if s < -(i64::MAX as int) {
        -(i64::MAX as int)
    } else {
        s
    }
}

/// The value of a mean as a whole unit count (zero for a degenerate
/// denominator, which no engine snapshot has).
pub open spec fn ratio_units(r: Ratio) -> int {
    if r.den == 0 {
        0
    } else {
        rounded_units(r.num as int, r.den as int)
    }
}

/// Rounds a mean to the nearest engine unit, ties away from zero.
pub fn ratio_to_units(r: &Ratio) -> (u: i64)
    ensures
        u as int == ratio_units(*r),
{
    if r.den == 0 {
        return 0;
    }
    let m: u128 = if r.num >= 0 {
        r.num as u128
    } else {
        ((-(r.num + 1)) as u128) + 1
    };
    let den: u128 = r.den as u128;
    let q = m / den;
    let rem = m % den;
    proof {
        lemma_div_nonincreasing(m as int, den as int);
    }
    let up: u128 = if 2 * rem >= den {
        q + 1
    } else {
        q
    };
    let capped: u128 = if up > (i64::MAX as u128) {
        i64::MAX as u128
    } else {
        up
    };
    let v = capped as i64;
    if r.num >= 0 {
        v
    } else {
        -v
    }
}

/// Response struct for statistical data: the five aggregates of a snapshot
/// as the wire carries them, every price value a whole unit count.
#[derive(Clone, Copy, Debug, PartialEq, Eq, Structural)]
pub struct StatsResponse {
    pub min: i64,
    pub max: i64,
    /// The running mean, rounded to the nearest unit.
    pub curr_avg: i64,
    /// The SMA, rounded to the nearest unit.
    pub sma: i64,
    pub data_point: u64,
}

/// The wire record of a snapshot.
pub open spec fn response_of(d: RawData) -> StatsResponse {
    StatsResponse {
        min: d.min,
        max: d.max,
        curr_avg: ratio_units(d.curr_avg) as i64,
        sma: ratio_units(d.sma) as i64,
        data_point: d.data_point,
    }
}

impl From<RawData> for StatsResponse {
    /// The wire record carries the snapshot's aggregates, the two means
    /// rounded to whole units.
    fn from(value: RawData) -> (r: StatsResponse) {
        StatsResponse {
            min: value.min,
            max: value.max,
            curr_avg: ratio_to_units(&value.curr_avg),
            sma: ratio_to_units(&value.sma),
            data_point: value.data_point,
        }
    }
}

impl vstd::std_specs::convert::FromSpecImpl<RawData> for StatsResponse {
    open spec fn obeys_from_spec() -> bool {
        true
    }

    open spec fn from_spec(value: RawData) -> StatsResponse {
        response_of(value)
    }
}

/// The bytes of `{"min":`.
pub open spec fn lit_min() -> Seq<u8> {
    seq![123u8, 34u8, 109u8, 105u8, 110u8, 34u8, 58u8]
}

/// The bytes of `,"max":`.
pub open spec fn lit_max() -> Seq<u8> {
    seq![44u8, 34u8, 109u8, 97u8, 120u8, 34u8, 58u8]
}

/// The bytes of `,"curr_avg":`.
pub open spec fn lit_avg() -> Seq<u8> {
    seq![44u8, 34u8, 99u8, 117u8, 114u8, 114u8, 95u8, 97u8, 118u8, 103u8, 34u8, 58u8]
}

/// The bytes of `,"sma":`.
pub open spec fn lit_sma() -> Seq<u8> {
    seq![44u8, 34u8, 115u8, 109u8, 97u8, 34u8, 58u8]
}

/// The bytes of `,"data_point":`.
pub open spec fn lit_count() -> Seq<u8> {
    seq![
        44u8, 34u8, 100u8, 97u8, 116u8, 97u8, 95u8, 112u8, 111u8, 105u8, 110u8, 116u8, 34u8,
        58u8,
    ]
}

/// The bytes of the closing `}`.
pub open spec fn lit_close() -> Seq<u8> {
    seq![125u8]
}

/// The JSON bytes of a wire record: five numbers between fixed key
/// literals — four fixed-point decimals and the integer count.
pub open spec fn json_of(d: StatsResponse) -> Seq<u8> {
    lit_min() + (fix_of(d.min as int) + (lit_max() + (fix_of(d.max as int) + (lit_avg() + (
    fix_of(d.curr_avg as int) + (lit_sma() + (fix_of(d.sma as int) + (lit_count() + (int_rep(
        d.data_point as int,
    ) + lit_close())))))))))
}

fn lit_min_vec() -> (v: Vec<u8>)
    ensures
        v@ =~= lit_min(),
{
    let mut v: Vec<u8> = Vec::new();
    v.push(123);
    v.push(34);
    v.push(109);
    v.push(105);
    v.push(110);
    v.push(34);
    v.push(58);
    v
}

fn lit_max_vec() -> (v: Vec<u8>)
    ensures
        v@ =~= lit_max(),
{
    let mut v: Vec<u8> = Vec::new();
    v.push(44);
    v.push(34);
    v.push(109);
    v.push(97);
    v.push(120);
    v.push(34);
    v.push(58);
    v
}

fn lit_avg_vec() -> (v: Vec<u8>)
    ensures
        v@ =~= lit_avg(),
{
    let mut v: Vec<u8> = Vec::new();
    v.push(44);
    v.push(34);
    v.push(99);
    v.push(117);
    v.push(114);
    v.push(114);
    v.push(95);
    v.push(97);
    v.push(118);
    v.push(103);
    v.push(34);
    v.push(58);
    v
}

fn lit_sma_vec() -> (v: Vec<u8>)
    ensures
        v@ =~= lit_sma(),
{
    let mut v: Vec<u8> = Vec::new();
    v.push(44);
    v.push(34);
    v.push(115);
    v.push(109);
    v.push(97);
    v.push(34);
    v.push(58);
    v
}

fn lit_count_vec() -> (v: Vec<u8>)
    ensures
        v@ =~= lit_count(),
{
    let mut v: Vec<u8> = Vec::new();
    v.push(44);
    v.push(34);
    v.push(100);
    v.push(97);
    v.push(116);
    v.push(97);
    v.push(95);
    v.push(112);
    v.push(111);
    v.push(105);
    v.push(110);
    v.push(116);
    v.push(34);
    v.push(58);
    v
}

/// Appends the contents of `s` to `out`.
pub fn append_bytes(out: &mut Vec<u8>, s: &Vec<u8>)
    ensures
        final(out)@ =~= old(out)@ + s@,
{
    let mut i: usize = 0;
    while i < s.len()
        invariant
            i <= s@.len(),
            out@ =~= old(out)@ + s@.subrange(0, i as int),
        decreases s@.len() - i,
    {
        out.push(s[i]);
        proof {
            assert(old(out)@ + s@.subrange(0, i + 1) =~= (old(out)@ + s@.subrange(0, i as int)
            ).push(s@[i as int]));
        }
        i = i + 1;
    }
    proof {
        assert(s@.subrange(0, s@.len() as int) =~= s@);
    }
}

/// The snapshot holds values the wire format can carry: the fixed-point
/// fields must be above `i64::MIN`, whose magnitude has no canonical form.
pub open spec fn wire_ok(d: StatsResponse) -> bool {
    d.min > i64::MIN && d.max > i64::MIN && d.curr_avg > i64::MIN && d.sma > i64::MIN
}

/// The bytes `b` are exactly the wire form of the snapshot `d`.
pub open spec fn wire_match(b: Seq<u8>, d: StatsResponse) -> bool {
    wire_ok(d) && b =~= json_of(d)
}

spec fn o1(d: StatsResponse) -> int {
    7
}

spec fn o2(d: StatsResponse) -> int {
    o1(d) + fix_of(d.min as int).len()
}

spec fn o3(d: StatsResponse) -> int {
    o2(d) + 7
}

spec fn o4(d: StatsResponse) -> int {
    o3(d) + fix_of(d.max as int).len()
}

spec fn o5(d: StatsResponse) -> int {
    o4(d) + 12
}

spec fn o6(d: StatsResponse) -> int {
    o5(d) + fix_of(d.curr_avg as int).len()
}

spec fn o7(d: StatsResponse) -> int {
    o6(d) + 7
}

spec fn o8(d: StatsResponse) -> int {
    o7(d) + fix_of(d.sma as int).len()
}

spec fn o9(d: StatsResponse) -> int {
    o8(d) + 14
}

spec fn o10(d: StatsResponse) -> int {
    o9(d) + int_rep(d.data_point as int).len()
}

/// Splitting one segment off the front of a suffix of `b`.
proof fn lemma_peel(b: Seq<u8>, q: int, seg: Seq<u8>, rest: Seq<u8>)
    requires
        0 <= q <= b.len(),
        b.subrange(q, b.len() as int) =~= seg + rest,
    ensures
        q + seg.len() + rest.len() == b.len(),
        b.subrange(q, q + seg.len()) =~= seg,
        b.subrange(q + seg.len(), b.len() as int) =~= rest,
{
    let tail = b.subrange(q, b.len() as int);
    assert(tail.len() == seg.len() + rest.len());
    assert forall|i: int| 0 <= i < seg.len() implies b.subrange(q, q + seg.len())[i]
        == seg[i] by {
        assert(tail[i] == (seg + rest)[i]);
        assert(b.subrange(q, q + seg.len())[i] == b[q + i]);
        assert(tail[i] == b[q + i]);
    }
    assert(b.subrange(q, q + seg.len()) =~= seg);
    assert forall|i: int| 0 <= i < rest.len() implies b.subrange(
        q + seg.len(),
        b.len() as int,
    )[i] == rest[i] by {
        assert(tail[seg.len() + i] == (seg + rest)[seg.len() + i]);
        assert(b.subrange(q + seg.len(), b.len() as int)[i] == b[q + seg.len() + i]);
        assert(tail[seg.len() + i] == b[q + seg.len() + i]);
    }
    assert(b.subrange(q + seg.len(), b.len() as int) =~= rest);
}

/// Joining a segment onto the suffix that follows it.
proof fn lemma_glue(b: Seq<u8>, q: int, seg: Seq<u8>, rest: Seq<u8>)
    requires
        0 <= q,
        q + seg.len() + rest.len() == b.len(),
        b.subrange(q, q + seg.len()) =~= seg,
        b.subrange(q + seg.len(), b.len() as int) =~= rest,
    ensures
        b.subrange(q, b.len() as int) =~= seg + rest,
{
    assert forall|i: int| 0 <= i < seg.len() + rest.len() implies b.subrange(
        q,
        b.len() as int,
    )[i] == (seg + rest)[i] by {
        if i < seg.len() {
            assert(b.subrange(q, q + seg.len())[i] == b[q + i]);
        } else {
            assert(b.subrange(q + seg.len(), b.len() as int)[i - seg.len()] == b[q + i]);
        }
        assert(b.subrange(q, b.len() as int)[i] == b[q + i]);
    }
    assert(b.subrange(q, b.len() as int) =~= seg + rest);
}

/// Joining a segment onto a following stretch, both inside `b`, up to `hi`.
proof fn lemma_glue_to(b: Seq<u8>, q: int, hi: int, seg: Seq<u8>, rest: Seq<u8>)
    requires
        0 <= q,
        q + seg.len() + rest.len() == hi <= b.len(),
        b.subrange(q, q + seg.len()) =~= seg,
        b.subrange(q + seg.len(), hi) =~= rest,
    ensures
        b.subrange(q, hi) =~= seg + rest,
{
    assert forall|i: int| 0 <= i < seg.len() + rest.len() implies b.subrange(q, hi)[i] == (seg
        + rest)[i] by {
        if i < seg.len() {
            assert(b.subrange(q, q + seg.len())[i] == b[q + i]);
        } else {
            assert(b.subrange(q + seg.len(), hi)[i - seg.len()] == b[q + i]);
        }
        assert(b.subrange(q, hi)[i] == b[q + i]);
    }
    assert(b.subrange(q, hi) =~= seg + rest);
}

/// In the wire form of `d`, each key literal and each number sits at its
/// canonical offset, and every number is followed by a non-digit.
#[verifier::rlimit(100)]
#[verifier::spinoff_prover]
proof fn lemma_json_decomp(d: StatsResponse, b: Seq<u8>)
    requires
        b =~= json_of(d),
    ensures
        b.len() == o10(d) + 1,
        b.subrange(0, 7) =~= lit_min(),
        fix_rep_at(b, o1(d), d.min as int),
        b.subrange(o2(d), o3(d)) =~= lit_max(),
        fix_rep_at(b, o3(d), d.max as int),
        b.subrange(o4(d), o5(d)) =~= lit_avg(),
        fix_rep_at(b, o5(d), d.curr_avg as int),
        b.subrange(o6(d), o7(d)) =~= lit_sma(),
        fix_rep_at(b, o7(d), d.sma as int),
        b.subrange(o8(d), o9(d)) =~= lit_count(),
        int_rep_at(b, o9(d), d.data_point as int),
        b.subrange(o10(d), o10(d) + 1) =~= lit_close(),
        b[o10(d)] == 125,
{
    let g2 = fix_of(d.min as int);
    let g4 = fix_of(d.max as int);
    let g6 = fix_of(d.curr_avg as int);
    let g8 = fix_of(d.sma as int);
    let g10 = int_rep(d.data_point as int);
    let t11 = lit_close();
    let t10 = g10 + t11;
    let t9 = lit_count() + t10;
    let t8 = g8 + t9;
    let t7 = lit_sma() + t8;
    let t6 = g6 + t7;
    let t5 = lit_avg() + t6;
    let t4 = g4 + t5;
    let t3 = lit_max() + t4;
    let t2 = g2 + t3;
    assert(b.subrange(0, b.len() as int) =~= b);
    assert(json_of(d) == lit_min() + t2);
    lemma_peel(b, 0, lit_min(), t2);
    lemma_peel(b, o1(d), g2, t3);
    lemma_peel(b, o2(d), lit_max(), t4);
    lemma_peel(b, o3(d), g4, t5);
    lemma_peel(b, o4(d), lit_avg(), t6);
    lemma_peel(b, o5(d), g6, t7);
    lemma_peel(b, o6(d), lit_sma(), t8);
    lemma_peel(b, o7(d), g8, t9);
    lemma_peel(b, o8(d), lit_count(), t10);
    lemma_peel(b, o9(d), g10, t11);
    // every number is followed by the first byte of the next literal,
    // which is a comma or a closing brace, never a digit
    assert(b[o2(d)] == lit_max()[0]);
    assert(b[o4(d)] == lit_avg()[0]);
    assert(b[o6(d)] == lit_sma()[0]);
    assert(b[o8(d)] == lit_count()[0]);
    assert(b[o10(d)] == lit_close()[0]);
}

/// Checks that the bytes of `lit` sit at `pos`.
fn expect_bytes(b: &[u8], pos: usize, lit: &Vec<u8>) -> (r: Option<usize>)
    requires
        pos <= b@.len(),
    ensures
        r matches Some(e) ==> e == pos + lit@.len() && e <= b@.len() && b@.subrange(
            pos as int,
            e as int,
        ) =~= lit@,
        r is None ==> !(pos + lit@.len() <= b@.len() && b@.subrange(
            pos as int,
            pos + lit@.len(),
        ) =~= lit@),
{
    let m = lit.len();
    let blen = b.len();
    if blen - pos < m {
        return None;
    }
    let mut i: usize = 0;
    while i < m
        invariant
            pos + m <= blen,
            blen == b@.len(),
            i <= m,
            m == lit@.len(),
            forall|j: int| 0 <= j < i ==> b@[pos + j] == lit@[j],
        decreases m - i,
    {
        if b[pos + i] != lit[i] {
            proof {
                assert(b@.subrange(pos as int, pos + m)[i as int] == b@[pos + i]);
            }
            return None;
        }
        i = i + 1;
    }
    proof {
        assert forall|j: int| 0 <= j < m implies b@.subrange(pos as int, (pos + m) as int)[j]
            == lit@[j] by {
            assert(b@.subrange(pos as int, (pos + m) as int)[j] == b@[pos + j]);
        }
        assert(b@.subrange(pos as int, (pos + m) as int) =~= lit@);
    }
    Some(pos + m)
}

/// The wire bytes up to and including the maximum.
pub open spec fn json_prefix(mn: int, mx: int) -> Seq<u8> {
    lit_min() + (fix_of(mn) + (lit_max() + fix_of(mx)))
}

/// The wire bytes from the running-mean key to the closing brace.
pub open spec fn json_suffix(av: int, sm: int, dp: int) -> Seq<u8> {
    lit_avg() + (fix_of(av) + (lit_sma() + (fix_of(sm) + (lit_count() + (int_rep(dp)
        + lit_close())))))
}

/// The wire form is the min/max prefix followed by the means-and-count
/// suffix.
proof fn lemma_json_split(d: StatsResponse)
    ensures
        json_of(d) =~= json_prefix(d.min as int, d.max as int) + json_suffix(
            d.curr_avg as int,
            d.sma as int,
            d.data_point as int,
        ),
{
    let g1 = lit_min();
    let g2 = fix_of(d.min as int);
    let g3 = lit_max();
    let g4 = fix_of(d.max as int);
    let sfx = json_suffix(d.curr_avg as int, d.sma as int, d.data_point as int);
    lemma_assoc(g3, g4, sfx);
    lemma_assoc(g2, g3 + g4, sfx);
    lemma_assoc(g1, g2 + (g3 + g4), sfx);
    assert(json_prefix(d.min as int, d.max as int) == g1 + (g2 + (g3 + g4)));
    assert(g4 + sfx =~= fix_of(d.max as int) + (lit_avg() + (fix_of(d.curr_avg as int) + (
    lit_sma() + (fix_of(d.sma as int) + (lit_count() + (int_rep(d.data_point as int)
        + lit_close())))))));
}

/// Parses the two fixed-point extremes of the wire form.
#[verifier::rlimit(100)]
#[verifier::spinoff_prover]
fn parse_stats_prefix(b: &[u8]) -> (r: Option<(i64, i64, usize)>)
    ensures
        r matches Some(t) ==> t.2 <= b@.len() && b@.subrange(0, t.2 as int) =~= json_prefix(
            t.0 as int,
            t.1 as int,
        ) && t.0 > i64::MIN && t.1 > i64::MIN,
        forall|d: StatsResponse| #[trigger] wire_match(b@, d) ==> r == Some(
            (d.min, d.max, o4(d) as usize),
        ),
{
    proof {
        assert forall|d: StatsResponse| #[trigger] wire_match(b@, d) implies (b@.len() == o10(
            d,
        ) + 1 && b@.subrange(0, 7) =~= lit_min() && fix_rep_at(b@, o1(d), d.min as int)
            && b@.subrange(o2(d), o3(d)) =~= lit_max() && fix_rep_at(
            b@,
            o3(d),
            d.max as int,
        )) by {
            lemma_json_decomp(d, b@);
        }
    }
    let q1 = match expect_bytes(b, 0, &lit_min_vec()) {
        Some(e) => e,
        None => {
            return None;
        },
    };
    let (v1, q2) = match parse_fix_at(b, q1) {
        Some(t) => t,
        None => {
            return None;
        },
    };
    let q3 = match expect_bytes(b, q2, &lit_max_vec()) {
        Some(e) => e,
        None => {
            return None;
        },
    };
    let (v2, q4) = match parse_fix_at(b, q3) {
        Some(t) => t,
        None => {
            return None;
        },
    };
    proof {
        let g2 = fix_of(v1 as int);
        let g4 = fix_of(v2 as int);
        let t4 = g4;
        let t3 = lit_max() + t4;
        let t2 = g2 + t3;
        lemma_glue_to(b@, q3 as int, q4 as int, g4, Seq::<u8>::empty());
        assert(g4 + Seq::<u8>::empty() =~= t4);
        lemma_glue_to(b@, q2 as int, q4 as int, lit_max(), t4);
        lemma_glue_to(b@, q1 as int, q4 as int, g2, t3);
        lemma_glue_to(b@, 0, q4 as int, lit_min(), t2);
    }
    Some((v1, v2, q4))
}

/// Parses the two fixed-point means, the count, and the closing brace,
/// starting at `pos`.
#[verifier::rlimit(100)]
#[verifier::spinoff_prover]
fn parse_stats_suffix(b: &[u8], pos: usize) -> (r: Option<(i64, i64, u64)>)
    requires
        pos <= b@.len(),
    ensures
        r matches Some(t) ==> b@.subrange(pos as int, b@.len() as int) =~= json_suffix(
            t.0 as int,
            t.1 as int,
            t.2 as int,
        ) && t.0 > i64::MIN && t.1 > i64::MIN,
        forall|d: StatsResponse|
            #[trigger] wire_match(b@, d) && pos == o4(d) ==> r == Some(
                (d.curr_avg, d.sma, d.data_point),
            ),
{
    proof {
        assert forall|d: StatsResponse| #[trigger] wire_match(b@, d) implies (b@.len() == o10(
            d,
        ) + 1 && b@.subrange(o4(d), o5(d)) =~= lit_avg() && fix_rep_at(
            b@,
            o5(d),
            d.curr_avg as int,
        ) && b@.subrange(o6(d), o7(d)) =~= lit_sma() && fix_rep_at(b@, o7(d), d.sma as int)
            && b@.subrange(o8(d), o9(d)) =~= lit_count() && int_rep_at(
            b@,
            o9(d),
            d.data_point as int,
        ) && b@[o10(d)] == 125) by {
            lemma_json_decomp(d, b@);
        }
    }
    let q5 = match expect_bytes(b, pos, &lit_avg_vec()) {
        Some(e) => e,
        None => {
            return None;
        },
    };
    let (v3, q6) = match parse_fix_at(b, q5) {
        Some(t) => t,
        None => {
            return None;
        },
    };
    let q7 = match expect_bytes(b, q6, &lit_sma_vec()) {
        Some(e) => e,
        None => {
            return None;
        },
    };
    let (v4, q8) = match parse_fix_at(b, q7) {
        Some(t) => t,
        None => {
            return None;
        },
    };
    let q9 = match expect_bytes(b, q8, &lit_count_vec()) {
        Some(e) => e,
        None => {
            return None;
        },
    };
    let (v5, q10) = match parse_i128_at(b, q9) {
        Some(t) => t,
        None => {
            return None;
        },
    };
    if v5 < 0 || v5 > (u64::MAX as i128) {
        return None;
    }
    if !(q10 < b.len() && b[q10] == 125 && q10 + 1 == b.len()) {
        return None;
    }
    proof {
        let g6 = fix_of(v3 as int);
        let g8 = fix_of(v4 as int);
        let g10 = int_rep(v5 as int);
        let t11 = lit_close();
        let t10 = g10 + t11;
        let t9 = lit_count() + t10;
        let t8 = g8 + t9;
        let t7 = lit_sma() + t8;
        let t6 = g6 + t7;
        assert(b@.subrange(q10 as int, q10 + 1) =~= t11);
        lemma_glue(b@, q9 as int, g10, t11);
        lemma_glue(b@, q8 as int, lit_count(), t10);
        lemma_glue(b@, q7 as int, g8, t9);
        lemma_glue(b@, q6 as int, lit_sma(), t8);
        lemma_glue(b@, q5 as int, g6, t7);
        lemma_glue(b@, pos as int, lit_avg(), t6);
    }
    Some((v3, v4, v5 as u64))
}

/// Parses the JSON wire form of a snapshot. Exactly the outputs of
/// `render_stats_json` on representable records are accepted, and the
/// parsed record re-renders to the input, so the wire format round-trips.
#[verifier::rlimit(100)]
#[verifier::spinoff_prover]
pub fn parse_stats_json(b: &[u8]) -> (r: Option<StatsResponse>)
    ensures
        r matches Some(d) ==> wire_match(b@, d),
        forall|d: StatsResponse| #[trigger] wire_match(b@, d) ==> r == Some(d),
{
    let (mn, mx, p) = match parse_stats_prefix(b) {
        Some(t) => t,
        None => {
            return None;
        },
    };
    let (av, sm, dp) = match parse_stats_suffix(b, p) {
        Some(t) => t,
        None => {
            return None;
        },
    };
    let dnew = StatsResponse { min: mn, max: mx, curr_avg: av, sma: sm, data_point: dp };
    proof {
        lemma_json_split(dnew);
        let pfx = json_prefix(mn as int, mx as int);
        let sfx = json_suffix(av as int, sm as int, dp as int);
        assert(b@.subrange(0, p as int) =~= pfx);
        assert(b@.subrange(p as int, b@.len() as int) =~= sfx);
        assert(pfx.len() == p);
        lemma_glue(b@, 0, pfx, sfx);
        assert(b@.subrange(0, b@.len() as int) =~= b@);
        assert(b@ =~= json_of(dnew));
    }
    Some(dnew)
}

/// Concatenation of byte sequences is associative.
proof fn lemma_assoc(a: Seq<u8>, b: Seq<u8>, c: Seq<u8>)
    ensures
        (a + b) + c =~= a + (b + c),
{
}

/// Serializes a wire record to its JSON form.
pub fn render_stats_json(d: &StatsResponse) -> (out: Vec<u8>)
    ensures
        out@ =~= json_of(*d),
{
    let mut out: Vec<u8> = Vec::new();
    append_bytes(&mut out, &lit_min_vec());
    push_fix(&mut out, d.min);
    append_bytes(&mut out, &lit_max_vec());
    push_fix(&mut out, d.max);
    append_bytes(&mut out, &lit_avg_vec());
    push_fix(&mut out, d.curr_avg);
    append_bytes(&mut out, &lit_sma_vec());
    push_fix(&mut out, d.sma);
    append_bytes(&mut out, &lit_count_vec());
    push_u128(&mut out, d.data_point as u128);
    out.push(125);
    proof {
        assert(int_rep(d.data_point as int) =~= dec_rep(d.data_point as nat));
        let g1 = lit_min();
        let g2 = fix_of(d.min as int);
        let g3 = lit_max();
        let g4 = fix_of(d.max as int);
        let g5 = lit_avg();
        let g6 = fix_of(d.curr_avg as int);
        let g7 = lit_sma();
        let g8 = fix_of(d.sma as int);
        let g9 = lit_count();
        let g10 = int_rep(d.data_point as int);
        let g11 = lit_close();
        let p1 = g1;
        let p2 = p1 + g2;
        let p3 = p2 + g3;
        let p4 = p3 + g4;
        let p5 = p4 + g5;
        let p6 = p5 + g6;
        let p7 = p6 + g7;
        let p8 = p7 + g8;
        let p9 = p8 + g9;
        let p10 = p9 + g10;
        assert(Seq::<u8>::empty() + g1 =~= g1);
        assert(out@ =~= p10 + g11);
        let t11 = g11;
        let t10 = g10 + t11;
        let t9 = g9 + t10;
        let t8 = g8 + t9;
        let t7 = g7 + t8;
        let t6 = g6 + t7;
        let t5 = g5 + t6;
        let t4 = g4 + t5;
        let t3 = g3 + t4;
        let t2 = g2 + t3;
        lemma_assoc(p9, g10, t11);
        lemma_assoc(p8, g9, t10);
        lemma_assoc(p7, g8, t9);
        lemma_assoc(p6, g7, t8);
        lemma_assoc(p5, g6, t7);
        lemma_assoc(p4, g5, t6);
        lemma_assoc(p3, g4, t5);
        lemma_assoc(p2, g3, t4);
        lemma_assoc(p1, g2, t3);
        assert(out@ =~= g1 + t2);
        assert(json_of(*d) == g1 + t2);
    }
    out
}


/// The number of `10^-8` units a decimal price string denotes: an optional
/// minus sign, integer digits, and optionally a point with up to eight
/// fractional digits (one side of the point may be empty, not both), within
/// the engine's representable range. Anything else is no price. This is
/// narrower than a full floating-point grammar: exponent notation and more
/// than eight fractional digits are not prices here, and such replies count
/// as transient poll errors.
pub open spec fn price_val(bts: Seq<u8>) -> Option<int> {
    let neg = bts.len() > 0 && bts[0] == 45;
    let body = if neg {
        bts.skip(1)
    } else {
        bts
    };
    let dot = find_byte(body, 46);
    let has_frac = dot < body.len();
    let ip = body.subrange(0, dot);
    let fp = if has_frac {
        body.subrange(dot + 1, body.len() as int)
    } else {
        Seq::<u8>::empty()
    };
    if (ip.len() >= 1 || (has_frac && fp.len() >= 1)) && all_dec_digits(ip) && (!has_frac
        || (fp.len() <= 8 && all_dec_digits(fp))) {
        let mag = dec_val(ip) * 100_000_000 + dec_val(fp) * pow10((8 - fp.len()) as nat);
        let v: int = if neg {
            -mag
        } else {
            mag
        };
        if -(PRICE_LIMIT as int) <= v <= PRICE_LIMIT as int {
            Some(v)
        } else {
            None
        }
    } else {
        None
    }
}

/// Parses an upstream decimal price string into engine units.
///
/// This is the numeric half of decoding the upstream reply: the JSON layer
/// hands the `price` field over as text, and this function decides whether
/// it is a representable price. A failure is a transient poll error.
#[verifier::rlimit(100)]
pub fn parse_price(s: &str) -> (r: Option<i64>)
    ensures
        match r {
            Some(v) => price_val(s.spec_bytes()) == Some(v as int),
            None => price_val(s.spec_bytes()) is None,
        },
{
    let b = s.as_bytes();
    let n = b.len();
    let ghost bts = b@;
    let neg = n > 0 && b[0] == 45;
    let off: usize = if neg {
        1
    } else {
        0
    };
    let ghost body = if neg {
        bts.skip(1)
    } else {
        bts
    };
    let ghost dot = find_byte(body, 46);
    proof {
        assert(body.len() == n - off);
        assert(forall|j: int| 0 <= j < body.len() ==> #[trigger] body[j] == bts[off + j]);
        lemma_find_byte_bounds(body, 46);
        lemma_run_end_props(bts, off as int);
    }
    if off < n && b[off] == 46 {
        // a leading point: the integer part is empty, as in ".5"
        proof {
            lemma_find_byte_exact(body, 46, 0);
            assert(body.subrange(0, dot).len() == 0);
            lemma_run_end_props(bts, off + 1);
        }
        let ghost fp = body.subrange(dot + 1, body.len() as int);
        proof {
            assert forall|j: int| 0 <= j < fp.len() implies #[trigger] fp[j] == bts[off + 1
                + j] by {
                assert(fp[j] == body[dot + 1 + j]);
            }
            assert(fp =~= bts.subrange(off + 1, n as int));
        }
        let fr0 = parse_u128_at(b, off + 1);
        match fr0 {
            None => {
                proof {
                    let e2 = run_end(bts, off + 1);
                    if e2 == off + 1 {
                        if off + 1 < n {
                            assert(fp[0] == bts[off + 1]);
                            assert(!is_dec_digit(fp[0]));
                        } else {
                            assert(fp.len() == 0);
                        }
                    } else {
                        if e2 < n {
                            assert(bts.subrange(off + 1, n as int)[e2 - (off + 1)]
                                == bts[e2 as int]);
                            assert(fp[e2 - (off + 1)] == bts[e2 as int]);
                            assert(!is_dec_digit(fp[e2 - (off + 1)]));
                        } else {
                            assert(fp =~= bts.subrange(off + 1, e2));
                            if fp.len() <= 8 {
                                lemma_dec_val_len_bound(fp);
                                lemma_pow10_mono(fp.len(), 8);
                                lemma_pow10_values();
                            }
                        }
                    }
                }
                return None;
            },
            Some((vf, e2)) => {
                if e2 < n {
                    proof {
                        assert(bts.subrange(off + 1, n as int)[e2 - (off + 1)]
                            == bts[e2 as int]);
                        assert(fp[e2 - (off + 1)] == bts[e2 as int]);
                        assert(!is_dec_digit(fp[e2 - (off + 1)]));
                    }
                    return None;
                }
                let flen = e2 - (off + 1);
                proof {
                    assert(fp =~= bts.subrange(off + 1, e2 as int));
                    assert(fp.len() == flen);
                    lemma_dec_val_nonneg_sub(bts, off + 1, e2 as int);
                }
                if flen > 8 {
                    return None;
                }
                let pw: u128 = pow10_units(8 - flen);
                proof {
                    assert forall|j: int| 0 <= j < fp.len() implies is_dec_digit(
                        #[trigger] fp[j],
                    ) by {
                        assert(fp[j] == bts[off + 1 + j]);
                    }
                    lemma_dec_val_len_bound(fp);
                    lemma_frac_scaled_bound(dec_val(fp), flen as nat);
                    let ip = body.subrange(0, dot);
                    assert(ip.len() == 0);
                    assert(dec_val(ip) == 0);
                    assert(0 * 100_000_000 == 0) by (nonlinear_arith);
                }
                let mag: u128 = vf * pw;
                let v = mag as i64;
                return if neg {
                    Some(-v)
                } else {
                    Some(v)
                };
            },
        }
    }
    let ur = parse_u128_at(b, off);
    match ur {
        None => {
            proof {
                let e = run_end(bts, off as int);
                let ip = body.subrange(0, dot);
                if e == off {
                    if off < n {
                        // the first byte is neither a digit nor a point, so
                        // the integer part contains it and is not all digits
                        lemma_find_byte_lb(body, 46, 1);
                        assert(dot >= 1);
                        assert(ip[0] == body[0]);
                        assert(!is_dec_digit(body[0]));
                    } else {
                        assert(body.len() == 0);
                        lemma_find_byte_exact(body, 46, 0);
                        assert(ip.len() == 0);
                    }
                } else {
                    lemma_price_overflow(bts, body, off as int, e, dot);
                }
            }
            None
        },
        Some((vi, e1)) => {
            if e1 == n {
                proof {
                    assert forall|j: int| 0 <= j < body.len() implies #[trigger] body[j]
                        != 46 by {
                        assert(is_dec_digit(bts[off + j]));
                    }
                    lemma_find_byte_exact(body, 46, body.len() as int);
                    assert(body.subrange(0, dot) =~= bts.subrange(off as int, e1 as int));
                    lemma_dec_val_nonneg_sub(bts, off as int, e1 as int);
                }
                if vi > 10_000_000_000u128 {
                    proof {
                        lemma_mul_inequality(10_000_000_001, vi as int, 100_000_000);
                        assert(0 * pow10(8) == 0) by (nonlinear_arith);
                    }
                    return None;
                }
                let mag: u128 = vi * 100_000_000;
                let v = mag as i64;
                proof {
                    assert(0 * pow10(8) == 0) by (nonlinear_arith);
                    lemma_mul_inequality(vi as int, 10_000_000_000, 100_000_000);
                }
                if neg {
                    Some(-v)
                } else {
                    Some(v)
                }
            } else {
                let c = b[e1];
                if c == 46 {
                    proof {
                        assert forall|j: int| 0 <= j < e1 - off implies #[trigger] body[j]
                            != 46 by {
                            assert(is_dec_digit(bts[off + j]));
                        }
                        assert(body[e1 - off] == 46);
                        lemma_find_byte_exact(body, 46, e1 - off);
                        assert(body.subrange(0, dot) =~= bts.subrange(
                            off as int,
                            e1 as int,
                        ));
                        lemma_run_end_props(bts, e1 + 1);
                    }
                    let ghost fp = body.subrange(dot + 1, body.len() as int);
                    proof {
                        assert forall|j: int| 0 <= j < fp.len() implies #[trigger] fp[j]
                            == bts[e1 + 1 + j] by {
                            assert(fp[j] == body[dot + 1 + j]);
                            assert(body[dot + 1 + j] == bts[off + dot + 1 + j]);
                        }
                        assert(fp =~= bts.subrange(e1 + 1, n as int));
                    }
                    if e1 + 1 == n {
                        // a trailing point: the fraction is empty, as in "1."
                        proof {
                            assert(fp.len() == 0);
                            lemma_dec_val_nonneg_sub(bts, off as int, e1 as int);
                            lemma_pow10_values();
                        }
                        if vi > 10_000_000_000u128 {
                            proof {
                                lemma_mul_inequality(10_000_000_001, vi as int, 100_000_000);
                                assert(0 * pow10(8) == 0) by (nonlinear_arith);
                            }
                            return None;
                        }
                        let mag: u128 = vi * 100_000_000;
                        let v = mag as i64;
                        proof {
                            assert(0 * pow10(8) == 0) by (nonlinear_arith);
                            lemma_mul_inequality(vi as int, 10_000_000_000, 100_000_000);
                        }
                        return if neg {
                            Some(-v)
                        } else {
                            Some(v)
                        };
                    }
                    let fr = parse_u128_at(b, e1 + 1);
                    match fr {
                        None => {
                            proof {
                                let e2 = run_end(bts, e1 + 1);
                                if e2 == e1 + 1 {
                                    assert(fp[0] == bts[e1 + 1]);
                                    assert(!is_dec_digit(fp[0]));
                                } else {
                                    if e2 < n {
                                        assert(bts.subrange(e1 + 1, n as int)[e2 - (e1 + 1)]
                                            == bts[e2 as int]);
                                        assert(fp[e2 - (e1 + 1)] == bts[e2 as int]);
                                        assert(!is_dec_digit(fp[e2 - (e1 + 1)]));
                                    } else {
                                        assert(fp =~= bts.subrange(e1 + 1, e2));
                                        if fp.len() <= 8 {
                                            lemma_dec_val_len_bound(fp);
                                            lemma_pow10_mono(fp.len(), 8);
                                            lemma_pow10_values();
                                        }
                                    }
                                }
                            }
                            None
                        },
                        Some((vf, e2)) => {
                            if e2 < n {
                                proof {
                                    assert(bts.subrange(e1 + 1, n as int)[e2 - (e1 + 1)]
                                        == bts[e2 as int]);
                                    assert(fp[e2 - (e1 + 1)] == bts[e2 as int]);
                                    assert(!is_dec_digit(fp[e2 - (e1 + 1)]));
                                }
                                return None;
                            }
                            let flen = e2 - (e1 + 1);
                            proof {
                                assert(fp =~= bts.subrange(e1 + 1, e2 as int));
                                assert(fp.len() == flen);
                                lemma_dec_val_nonneg_sub(bts, off as int, e1 as int);
                                lemma_dec_val_nonneg_sub(bts, e1 + 1, e2 as int);
                            }
                            if flen > 8 {
                                return None;
                            }
                            if vi > 10_000_000_000u128 {
                                proof {
                                    lemma_mul_inequality(
                                        10_000_000_001,
                                        vi as int,
                                        100_000_000,
                                    );
                                    lemma_pow_nonneg((8 - flen) as nat);
                                    vstd::arithmetic::mul::lemma_mul_nonnegative(
                                        dec_val(fp),
                                        pow10((8 - flen) as nat),
                                    );
                                }
                                return None;
                            }
                            let pw: u128 = pow10_units(8 - flen);
                            proof {
                                lemma_mul_inequality(vi as int, 10_000_000_000, 100_000_000);
                                assert forall|j: int| 0 <= j < fp.len() implies is_dec_digit(
                                    #[trigger] fp[j],
                                ) by {
                                    assert(fp[j] == bts[e1 + 1 + j]);
                                }
                                lemma_dec_val_len_bound(fp);
                                lemma_frac_scaled_bound(dec_val(fp), flen as nat);
                            }
                            let mag: u128 = vi * 100_000_000 + vf * pw;
                            if mag > 1_000_000_000_000_000_000u128 {
                                return None;
                            }
                            let v = mag as i64;
                            if neg {
                                Some(-v)
                            } else {
                                Some(v)
                            }
                        },
                    }
                } else {
                    proof {
                        assert forall|j: int| 0 <= j < e1 - off implies #[trigger] body[j]
                            != 46 by {
                            assert(is_dec_digit(bts[off + j]));
                        }
                        assert(body[e1 - off] != 46);
                        lemma_find_byte_lb(body, 46, e1 - off + 1);
                        let ip = body.subrange(0, dot);
                        assert(ip[e1 - off] == body[e1 - off]);
                        assert(!is_dec_digit(ip[e1 - off]));
                    }
                    None
                }
            }
        },
    }
}

/// Ten to a small power, as units.
fn pow10_units(k: usize) -> (r: u128)
    requires
        k <= 8,
    ensures
        r == pow10(k as nat),
{
    let mut r: u128 = 1;
    let mut t: usize = 0;
    while t < k
        invariant
            t <= k <= 8,
            r == pow10(t as nat),
            r <= 100_000_000,
        decreases k - t,
    {
        proof {
            lemma_pow10_mono((t + 1) as nat, 8);
            lemma_pow10_values();
        }
        r = r * 10;
        t = t + 1;
    }
    r
}

/// Powers of ten are positive and monotone.
proof fn lemma_pow_nonneg(k: nat)
    ensures
        pow10(k) >= 1,
    decreases k,
{
    if k > 0 {
        lemma_pow_nonneg((k - 1) as nat);
    }
}

proof fn lemma_pow10_mono(a: nat, b: nat)
    requires
        a <= b,
    ensures
        1 <= pow10(a) <= pow10(b),
    decreases b,
{
    lemma_pow_nonneg(a);
    if a < b {
        lemma_pow10_mono(a, (b - 1) as nat);
        lemma_pow_nonneg((b - 1) as nat);
    }
}

/// A fraction of `l` digits scaled by `10^(8-l)` stays below `10^8`.
proof fn lemma_frac_scaled_bound(f: int, l: nat)
    requires
        l <= 8,
        0 <= f < pow10(l),
    ensures
        0 <= f * pow10((8 - l) as nat) <= 100_000_000 - pow10((8 - l) as nat),
{
    let p = pow10((8 - l) as nat);
    lemma_pow_nonneg((8 - l) as nat);
    vstd::arithmetic::mul::lemma_mul_nonnegative(f, p);
    lemma_mul_inequality(f, pow10(l) - 1, p);
    lemma_pow10_add(l, (8 - l) as nat);
    assert((pow10(l) - 1) * p == pow10(l) * p - p) by (nonlinear_arith);
    lemma_pow10_values();
}

/// The small powers of ten, written out.
proof fn lemma_pow10_values()
    ensures
        pow10(0) == 1,
        pow10(1) == 10,
        pow10(2) == 100,
        pow10(3) == 1000,
        pow10(4) == 10000,
        pow10(5) == 100000,
        pow10(6) == 1000000,
        pow10(7) == 10000000,
        pow10(8) == 100_000_000,
{
    assert(pow10(0) == 1);
    assert(pow10(1) == 10);
    assert(pow10(2) == 100);
    assert(pow10(3) == 1000);
    assert(pow10(4) == 10000);
    assert(pow10(5) == 100000);
    assert(pow10(6) == 1000000);
    assert(pow10(7) == 10000000);
    assert(pow10(8) == 100_000_000);
}

/// The value of a digit subrange is non-negative.
proof fn lemma_dec_val_nonneg_sub(bts: Seq<u8>, lo: int, hi: int)
    requires
        0 <= lo <= hi <= bts.len(),
        forall|j: int| lo <= j < hi ==> is_dec_digit(#[trigger] bts[j]),
    ensures
        dec_val(bts.subrange(lo, hi)) >= 0,
{
    let t = bts.subrange(lo, hi);
    assert forall|j: int| 0 <= j < t.len() implies is_dec_digit(#[trigger] t[j]) by {
        assert(t[j] == bts[lo + j]);
    }
    lemma_dec_val_nonneg(t);
}

/// In the overflow rejection of the integer part, no price shape can hold:
/// either the digits run into a non-digit that the shape forbids, or the
/// integer part alone exceeds the representable range.
proof fn lemma_price_overflow(bts: Seq<u8>, body: Seq<u8>, off: int, e: int, dot: int)
    requires
        0 <= off <= bts.len(),
        body.len() == bts.len() - off,
        forall|j: int| 0 <= j < body.len() ==> #[trigger] body[j] == bts[off + j],
        dot == find_byte(body, 46),
        off < e <= bts.len(),
        forall|j: int| off <= j < e ==> is_dec_digit(#[trigger] bts[j]),
        e < bts.len() ==> !is_dec_digit(bts[e]),
        dec_val(bts.subrange(off, e)) > u128::MAX,
    ensures
        ({
            let ip = body.subrange(0, dot);
            let has_frac = dot < body.len();
            let fp = if has_frac {
                body.subrange(dot + 1, body.len() as int)
            } else {
                Seq::<u8>::empty()
            };
            !((ip.len() >= 1 || (has_frac && fp.len() >= 1)) && all_dec_digits(ip) && (!has_frac
                || (fp.len() <= 8 && all_dec_digits(fp)))) || dec_val(ip) * 100_000_000 + dec_val(fp) * pow10(
                (8 - fp.len()) as nat,
            ) > PRICE_LIMIT
        }),
{
    lemma_find_byte_bounds(body, 46);
    assert forall|j: int| 0 <= j < e - off implies #[trigger] body[j] != 46 by {
        assert(is_dec_digit(bts[off + j]));
    }
    let ip = body.subrange(0, dot);
    if e < bts.len() && bts[e] == 46 {
        lemma_find_byte_exact(body, 46, e - off);
        assert(ip =~= bts.subrange(off, e));
        lemma_big_int_part(bts, body, off, e, dot);
    } else if e < bts.len() {
        assert(body[e - off] != 46);
        lemma_find_byte_lb(body, 46, e - off + 1);
        assert(ip[e - off] == body[e - off]);
        assert(!is_dec_digit(ip[e - off]));
    } else {
        lemma_find_byte_exact(body, 46, body.len() as int);
        assert(ip =~= bts.subrange(off, e));
        lemma_big_int_part(bts, body, off, e, dot);
    }
}

/// An integer part beyond `u128` pushes the scaled price beyond the range.
proof fn lemma_big_int_part(bts: Seq<u8>, body: Seq<u8>, off: int, e: int, dot: int)
    requires
        0 <= off <= e <= bts.len(),
        body.len() == bts.len() - off,
        forall|j: int| 0 <= j < body.len() ==> #[trigger] body[j] == bts[off + j],
        0 <= dot <= body.len(),
        body.subrange(0, dot) =~= bts.subrange(off, e),
        dec_val(bts.subrange(off, e)) > u128::MAX,
    ensures
        ({
            let ip = body.subrange(0, dot);
            let has_frac = dot < body.len();
            let fp = if has_frac {
                body.subrange(dot + 1, body.len() as int)
            } else {
                Seq::<u8>::empty()
            };
            !((ip.len() >= 1 || (has_frac && fp.len() >= 1)) && all_dec_digits(ip) && (!has_frac
                || (fp.len() <= 8 && all_dec_digits(fp)))) || dec_val(ip) * 100_000_000 + dec_val(fp) * pow10(
                (8 - fp.len()) as nat,
            ) > PRICE_LIMIT
        }),
{
    let ip = body.subrange(0, dot);
    let has_frac = dot < body.len();
    let fp = if has_frac {
        body.subrange(dot + 1, body.len() as int)
    } else {
        Seq::<u8>::empty()
    };
    if (ip.len() >= 1 || (has_frac && fp.len() >= 1)) && all_dec_digits(ip) && (!has_frac
        || (fp.len() <= 8 && all_dec_digits(fp))) {
        lemma_mul_inequality(u128::MAX as int + 1, dec_val(ip), 100_000_000);
        if has_frac {
            lemma_dec_val_nonneg(fp);
        }
        lemma_pow_nonneg((8 - fp.len()) as nat);
        vstd::arithmetic::mul::lemma_mul_nonnegative(dec_val(fp), pow10((8 - fp.len()) as nat));
    }
}

/// Response for health check endpoints.
///
/// Used to return a simple JSON status indicating that the service is
/// healthy.
#[derive(Debug)]
pub struct HealthResponse {
    /// Always "ok" when the service is healthy.
    pub status: &'static str,
}

impl HealthResponse {
    /// Returns a JSON-formatted health status string.
    pub fn health_status_json_string_default() -> (r: &'static str)
        ensures
            r@ == "{\"status\":\"ok\"}"@,
    {
        "{\"status\":\"ok\"}"
    }
}

impl Default for HealthResponse {
    fn default() -> (r: Self)
        ensures
            r.status@ == "ok"@,
    {
        HealthResponse { status: "ok" }
    }
}

/// Trait to generalize extracting a price from different response types.
pub trait GetPrice {
    /// Returns the current price as a fixed-point unit count.
    fn get_price(&self) -> i64;
}

/// Upstream API response for a trading pair's price: the symbol and the
/// price as a fixed-point unit count.
#[derive(Debug)]
pub struct BinancePrice {
    pub symbol: String,
    pub price: i64,
}

impl GetPrice for BinancePrice {
    fn get_price(&self) -> (p: i64)
        ensures
            p == self.price,
    {
        self.price
    }
}

/// Combined response for all state statistics of a symbol: the pair of a
/// symbol name and its snapshot, serialized as a single-key object.
#[derive(Debug)]
pub struct AllStatesResponse {
    pub symbol: String,
    pub stats: StatsResponse,
}

} // verus!
