//! Exact decimal rendering and parsing, the numeric core of the snapshot
//! wire format and of configuration parsing.
//!
//! `dec_rep` / `int_rep` give the canonical decimal byte form of an integer,
//! `fix_of` the canonical fixed-point decimal form of a unit count, and
//! `dec_val` the value of a digit string. Rendering emits exactly the
//! canonical forms, and parsing accepts exactly the canonical forms, so the
//! two compose to the identity.

use vstd::prelude::*;
use vstd::arithmetic::div_mod::{
    lemma_div_is_ordered, lemma_fundamental_div_mod, lemma_fundamental_div_mod_converse,
};
use vstd::string::*;

verus! {

/// Is the byte an ASCII decimal digit?
pub open spec fn is_dec_digit(b: u8) -> bool {
    48 <= b <= 57
}

/// Every byte of the sequence is an ASCII decimal digit.
pub open spec fn all_dec_digits(s: Seq<u8>) -> bool {
    forall|i: int| 0 <= i < s.len() ==> is_dec_digit(#[trigger] s[i])
}

/// Numeric value of a sequence of ASCII digits.
pub open spec fn dec_val(s: Seq<u8>) -> int
    decreases s.len(),
{
    if s.len() == 0 {
        0
    } else {
        dec_val(s.drop_last()) * 10 + (s.last() - 48)
    }
}

/// Canonical decimal digits of a non-negative integer: no redundant leading
/// zero.
pub open spec fn dec_rep(v: nat) -> Seq<u8>
    decreases v,
{
    if v < 10 {
        seq![(48 + v) as u8]
    } else {
        dec_rep(v / 10).push((48 + v % 10) as u8)
    }
}

/// Canonical decimal form of an integer: a minus sign before the digits of
/// the magnitude for negative values.
pub open spec fn int_rep(v: int) -> Seq<u8> {
    if v < 0 {
        seq![45u8] + dec_rep((-v) as nat)
    } else {
        dec_rep(v as nat)
    }
}

/// The canonical form is made of digits and never starts with a redundant
/// zero.
pub proof fn lemma_dec_rep_digits(v: nat)
    ensures
        dec_rep(v).len() >= 1,
        all_dec_digits(dec_rep(v)),
        v >= 1 ==> dec_rep(v)[0] != 48,
        v < 10 ==> dec_rep(v).len() == 1,
    decreases v,
{
    if v < 10 {
    } else {
        lemma_dec_rep_digits(v / 10);
        let s = dec_rep(v);
        let p = dec_rep(v / 10);
        assert(s[0] == p[0]);
        assert forall|i: int| 0 <= i < s.len() implies is_dec_digit(#[trigger] s[i]) by {
            if i < p.len() {
                assert(s[i] == p[i]);
            }
        }
    }
}

/// The canonical form of a value reads back as that value.
pub proof fn lemma_dec_val_rep(v: nat)
    ensures
        dec_val(dec_rep(v)) == v,
    decreases v,
{
    if v < 10 {
        let s = dec_rep(v);
        assert(s.drop_last() =~= Seq::<u8>::empty());
        assert(dec_val(Seq::<u8>::empty()) == 0);
    } else {
        lemma_dec_val_rep(v / 10);
        let s = dec_rep(v);
        assert(s.drop_last() =~= dec_rep(v / 10));
        assert(s.last() == (48 + v % 10) as u8);
    }
}

/// A digit string has a non-negative value.
pub proof fn lemma_dec_val_nonneg(s: Seq<u8>)
    requires
        all_dec_digits(s),
    ensures
        dec_val(s) >= 0,
    decreases s.len(),
{
    if s.len() == 0 {
    } else {
        let dl = s.drop_last();
        assert forall|i: int| 0 <= i < dl.len() implies is_dec_digit(#[trigger] dl[i]) by {
            assert(dl[i] == s[i]);
        }
        lemma_dec_val_nonneg(dl);
        assert(is_dec_digit(s.last()));
    }
}

/// A digit string that does not start with `0` has a positive value.
pub proof fn lemma_dec_val_pos(s: Seq<u8>)
    requires
        all_dec_digits(s),
        s.len() >= 1,
        s[0] != 48,
    ensures
        dec_val(s) >= 1,
    decreases s.len(),
{
    if s.len() == 1 {
        assert(s.drop_last() =~= Seq::<u8>::empty());
        assert(dec_val(Seq::<u8>::empty()) == 0);
        assert(s.last() == s[0]);
        assert(is_dec_digit(s[0]));
    } else {
        let dl = s.drop_last();
        assert forall|i: int| 0 <= i < dl.len() implies is_dec_digit(#[trigger] dl[i]) by {
            assert(dl[i] == s[i]);
        }
        assert(dl[0] == s[0]);
        lemma_dec_val_pos(dl);
        assert(is_dec_digit(s.last()));
    }
}

/// Extending a digit string to the right never lowers its value.
pub proof fn lemma_dec_val_prefix(s: Seq<u8>, i: int)
    requires
        all_dec_digits(s),
        0 <= i <= s.len(),
    ensures
        dec_val(s.subrange(0, i)) <= dec_val(s),
    decreases s.len() - i,
{
    if i == s.len() {
        assert(s.subrange(0, i) =~= s);
    } else {
        let t = s.subrange(0, i + 1);
        assert forall|j: int| 0 <= j < t.len() implies is_dec_digit(#[trigger] t[j]) by {
            assert(t[j] == s[j]);
        }
        assert(t.drop_last() =~= s.subrange(0, i));
        lemma_dec_val_nonneg(t.drop_last());
        assert(is_dec_digit(t.last()));
        assert(dec_val(t) == dec_val(s.subrange(0, i)) * 10 + (t.last() - 48));
        assert(dec_val(s.subrange(0, i)) * 10 >= dec_val(s.subrange(0, i)));
        lemma_dec_val_prefix(s, i + 1);
    }
}

/// A digit string without a redundant leading zero is the canonical form of
/// its value.
pub proof fn lemma_rep_of_canonical(s: Seq<u8>)
    requires
        all_dec_digits(s),
        s.len() >= 1,
        s[0] != 48 || s.len() == 1,
    ensures
        dec_rep(dec_val(s) as nat) =~= s,
    decreases s.len(),
{
    lemma_dec_val_nonneg(s);
    if s.len() == 1 {
        assert(s.drop_last() =~= Seq::<u8>::empty());
        assert(dec_val(Seq::<u8>::empty()) == 0);
        assert(is_dec_digit(s[0]));
        assert(dec_val(s) == s[0] - 48);
        assert(dec_rep((s[0] - 48) as nat) =~= seq![s[0]]);
        assert(s =~= seq![s[0]]);
    } else {
        let dl = s.drop_last();
        assert forall|i: int| 0 <= i < dl.len() implies is_dec_digit(#[trigger] dl[i]) by {
            assert(dl[i] == s[i]);
        }
        assert(dl[0] == s[0]);
        lemma_dec_val_pos(dl);
        lemma_rep_of_canonical(dl);
        let vv = dec_val(dl);
        let d = (s.last() - 48) as int;
        assert(is_dec_digit(s.last()));
        assert(0 <= d < 10);
        let v = dec_val(s);
        assert(v == vv * 10 + d);
        assert(vv * 10 >= 10);
        lemma_fundamental_div_mod_converse(v, 10, vv, d);
        assert(dec_rep(v as nat) =~= dec_rep(vv as nat).push((48 + (v as nat) % 10) as u8));
    }
}

/// Appends the canonical decimal digits of `v`.
pub fn push_u128(out: &mut Vec<u8>, v: u128)
    ensures
        final(out)@ =~= old(out)@ + dec_rep(v as nat),
    decreases v,
{
    if v < 10 {
        out.push(48 + (v as u8));
        assert(final(out)@ =~= old(out)@ + seq![(48 + (v as nat)) as u8]);
    } else {
        let q = v / 10;
        let r = v % 10;
        push_u128(out, q);
        out.push(48 + (r as u8));
        proof {
            assert((v as nat) / 10 == q as nat);
            assert((v as nat) % 10 == r as nat);
            assert(dec_rep(v as nat) =~= dec_rep(q as nat).push((48 + (r as nat)) as u8));
            assert(final(out)@ =~= old(out)@ + dec_rep(q as nat) + seq![
                (48 + (r as nat)) as u8,
            ]);
        }
    }
}

/// The end of the run of decimal digits starting at `pos`.
pub open spec fn run_end(s: Seq<u8>, pos: int) -> int
    decreases s.len() - pos when 0 <= pos <= s.len()
{
    if pos < s.len() && is_dec_digit(s[pos]) {
        run_end(s, pos + 1)
    } else {
        pos
    }
}

/// The digit run is made of digits and ends at the first non-digit.
pub proof fn lemma_run_end_props(s: Seq<u8>, pos: int)
    requires
        0 <= pos <= s.len(),
    ensures
        pos <= run_end(s, pos) <= s.len(),
        forall|i: int| pos <= i < run_end(s, pos) ==> is_dec_digit(#[trigger] s[i]),
        run_end(s, pos) < s.len() ==> !is_dec_digit(s[run_end(s, pos)]),
    decreases s.len() - pos,
{
    if pos < s.len() && is_dec_digit(s[pos]) {
        lemma_run_end_props(s, pos + 1);
    }
}

/// Parses the maximal digit run starting at `pos`: its value and its end.
/// Fails exactly when there is no digit at `pos` or the run's value does not
/// fit in `u128`.
pub fn parse_u128_at(b: &[u8], pos: usize) -> (r: Option<(u128, usize)>)
    requires
        pos <= b@.len(),
    ensures
        ({
            let e = run_end(b@, pos as int);
            match r {
                Some(p) => p.1 == e && pos < e && p.0 == dec_val(
                    b@.subrange(pos as int, e),
                ),
                None => e == pos || dec_val(b@.subrange(pos as int, e)) > u128::MAX,
            }
        }),
{
    proof {
        lemma_run_end_props(b@, pos as int);
    }
    let ghost e = run_end(b@, pos as int);
    let len = b.len();
    if pos == len || !(48 <= b[pos] && b[pos] <= 57) {
        return None;
    }
    let mut i = pos;
    let mut acc: u128 = 0;
    proof {
        assert(b@.subrange(pos as int, pos as int) =~= Seq::<u8>::empty());
        assert(dec_val(Seq::<u8>::empty()) == 0);
    }
    while i < len && 48 <= b[i] && b[i] <= 57
        invariant
            pos <= i <= len,
            len == b@.len(),
            e == run_end(b@, pos as int),
            run_end(b@, pos as int) == run_end(b@, i as int),
            forall|j: int| pos <= j < i ==> is_dec_digit(#[trigger] b@[j]),
            acc == dec_val(b@.subrange(pos as int, i as int)),
        decreases len - i,
    {
        proof {
            lemma_run_end_props(b@, i as int);
            assert(i < e);
        }
        let d = b[i] - 48;
        if acc > (u128::MAX - (d as u128)) / 10 {
            proof {
                let q = (u128::MAX - d) as int / 10;
                assert(q * 10 + 10 > u128::MAX - d);
                assert(acc * 10 >= (q + 1) * 10);
                assert((q + 1) * 10 == q * 10 + 10);
                let t = b@.subrange(pos as int, i + 1);
                assert(t.drop_last() =~= b@.subrange(pos as int, i as int));
                assert(t.last() == b@[i as int]);
                assert(dec_val(t) == acc * 10 + d);
                assert(dec_val(t) > u128::MAX);
                let s = b@.subrange(pos as int, e);
                assert forall|j: int| 0 <= j < s.len() implies is_dec_digit(
                    #[trigger] s[j],
                ) by {
                    assert(s[j] == b@[pos + j]);
                }
                lemma_dec_val_prefix(s, i + 1 - pos);
                assert(s.subrange(0, i + 1 - pos) =~= t);
            }
            return None;
        }
        proof {
            let q = (u128::MAX - d) as int / 10;
            assert(q * 10 <= u128::MAX - d);
            assert(acc * 10 <= q * 10);
        }
        acc = acc * 10 + (d as u128);
        i = i + 1;
        proof {
            let t = b@.subrange(pos as int, i as int);
            assert(t.drop_last() =~= b@.subrange(pos as int, i - 1));
            assert(t.last() == b@[i - 1]);
        }
    }
    proof {
        assert(run_end(b@, i as int) == i);
        assert(e >= pos + 1);
    }
    Some((acc, i))
}

/// The canonical decimal form of `v` sits at `pos` and is followed by a
/// non-digit (or by the end of the input).
pub open spec fn int_rep_at(s: Seq<u8>, pos: int, v: int) -> bool {
    &&& 0 <= pos
    &&& pos + int_rep(v).len() <= s.len()
    &&& s.subrange(pos, pos + int_rep(v).len()) =~= int_rep(v)
    &&& (pos + int_rep(v).len() == s.len() || !is_dec_digit(s[pos + int_rep(v).len()]))
}

/// Parses a signed integer in canonical decimal form at `pos`: an optional
/// minus sign, then digits with no redundant leading zero. Exactly the
/// canonical forms of the `i128` values above `i128::MIN` are accepted, and
/// a successful parse returns precisely the span it consumed.
pub fn parse_i128_at(b: &[u8], pos: usize) -> (r: Option<(i128, usize)>)
    requires
        pos <= b@.len(),
    ensures
        r matches Some(p) ==> pos < p.1 <= b@.len() && b@.subrange(pos as int, p.1 as int)
            =~= int_rep(p.0 as int) && (p.1 == b@.len() || !is_dec_digit(b@[p.1 as int]))
            && p.0 > i128::MIN,
        forall|v: int|
            i128::MIN < v <= i128::MAX && #[trigger] int_rep_at(b@, pos as int, v) ==> r
                == Some((v as i128, (pos + int_rep(v).len()) as usize)),
{
    let len = b.len();
    proof {
        lemma_run_end_props(b@, pos as int);
    }
    if pos < len && b[pos] == 45 {
        // negative: a minus sign, then the canonical digits of the magnitude
        let ur = parse_u128_at(b, pos + 1);
        proof {
            lemma_run_end_props(b@, pos + 1);
        }
        match ur {
            Some((m, e)) => {
                if (b[pos + 1] == 48 && e > pos + 2) || m == 0 || m > (i128::MAX as u128) {
                    proof {
                        lemma_neg_none(b@, pos as int, e as int, m as int);
                    }
                    return None;
                }
                let v: i128 = -(m as i128);
                proof {
                    let run = b@.subrange(pos + 1, e as int);
                    assert forall|j: int| 0 <= j < run.len() implies is_dec_digit(
                        #[trigger] run[j],
                    ) by {
                        assert(run[j] == b@[pos + 1 + j]);
                    }
                    assert(run[0] == b@[pos + 1]);
                    lemma_rep_of_canonical(run);
                    assert(int_rep(v as int) =~= seq![45u8] + dec_rep(m as nat));
                    assert(b@.subrange(pos as int, e as int) =~= seq![45u8] + run);
                    lemma_int_rep_unique(b@, pos as int, e as int, v as int);
                }
                Some((v, e))
            },
            None => {
                proof {
                    let e = run_end(b@, pos + 1);
                    lemma_neg_none(b@, pos as int, e, -1);
                }
                None
            },
        }
    } else {
        // non-negative: canonical digits only
        let ur = parse_u128_at(b, pos);
        match ur {
            Some((m, e)) => {
                if (b[pos] == 48 && e > pos + 1) || m > (i128::MAX as u128) {
                    proof {
                        lemma_pos_none(b@, pos as int, len as int);
                    }
                    return None;
                }
                let v: i128 = m as i128;
                proof {
                    let run = b@.subrange(pos as int, e as int);
                    assert forall|j: int| 0 <= j < run.len() implies is_dec_digit(
                        #[trigger] run[j],
                    ) by {
                        assert(run[j] == b@[pos + j]);
                    }
                    assert(run[0] == b@[pos as int]);
                    lemma_rep_of_canonical(run);
                    lemma_int_rep_unique(b@, pos as int, e as int, v as int);
                }
                Some((v, e))
            },
            None => {
                proof {
                    lemma_pos_none(b@, pos as int, len as int);
                }
                None
            },
        }
    }
}

/// Helper for the rejection paths of `parse_i128_at` when the input starts
/// with a minus sign: no canonical form can sit at `pos`.
proof fn lemma_neg_none(s: Seq<u8>, pos: int, e: int, m: int)
    requires
        0 <= pos < s.len(),
        s[pos] == 45,
        e == run_end(s, pos + 1),
        m >= -1,
        m == -1 ==> e == pos + 1 || dec_val(s.subrange(pos + 1, e)) > u128::MAX,
        m >= 0 ==> m == dec_val(s.subrange(pos + 1, e)) && pos + 1 < e,
        m >= 0 ==> (s[pos + 1] == 48 && e > pos + 2) || m == 0 || m > i128::MAX,
    ensures
        forall|v: int|
            i128::MIN < v <= i128::MAX ==> !(#[trigger] int_rep_at(s, pos, v)),
{
    lemma_run_end_props(s, pos + 1);
    assert forall|v: int| i128::MIN < v <= i128::MAX implies !(#[trigger] int_rep_at(
        s,
        pos,
        v,
    )) by {
        if int_rep_at(s, pos, v) {
            let rep = int_rep(v);
            lemma_dec_rep_digits(if v < 0 {
                (-v) as nat
            } else {
                v as nat
            });
            if v >= 0 {
                // a non-negative canonical form starts with a digit, not '-'
                assert(s[pos] == rep[0]);
                assert(is_dec_digit(rep[0]));
            } else {
                let mag = dec_rep((-v) as nat);
                let ev = pos + rep.len();
                assert(rep.len() == 1 + mag.len());
                assert forall|j: int| pos + 1 <= j < ev implies is_dec_digit(
                    #[trigger] s[j],
                ) by {
                    assert(s.subrange(pos, pos + rep.len())[j - pos] == rep[j - pos]);
                    assert(s[j] == rep[j - pos]);
                    assert(rep[j - pos] == mag[j - pos - 1]);
                }
                lemma_run_end_of(s, pos + 1, ev);
                assert(e == ev);
                assert forall|j: int| 0 <= j < mag.len() implies s.subrange(pos + 1, e)[j]
                    == mag[j] by {
                    assert(s.subrange(pos, pos + rep.len())[j + 1] == rep[j + 1]);
                    assert(rep[j + 1] == mag[j]);
                    assert(s.subrange(pos + 1, e)[j] == s[pos + 1 + j]);
                }
                assert(s.subrange(pos + 1, e) =~= mag);
                lemma_dec_val_rep((-v) as nat);
                assert(dec_val(s.subrange(pos + 1, e)) == -v);
                assert(-v <= i128::MAX);
                assert(pos + 1 < e);
                // so the parse succeeded with m == -v >= 1, and the
                // rejection must have been the leading-zero test
                assert(m >= 0);
                assert(m == -v);
                assert(s[pos + 1] == 48 && e > pos + 2);
                assert(s.subrange(pos, pos + rep.len())[1] == rep[1]);
                assert(s[pos + 1] == rep[1]);
                assert(rep[1] == mag[0]);
                // but the canonical magnitude of a positive value never
                // starts with a zero
                assert(mag[0] != 48);
            }
        }
    }
}

/// Helper for the rejection paths of `parse_i128_at` on inputs that do not
/// start with a minus sign: no canonical form can sit at `pos`.
proof fn lemma_pos_none(s: Seq<u8>, pos: int, len: int)
    requires
        0 <= pos <= s.len(),
        len == s.len(),
        pos < len ==> s[pos] != 45,
        ({
            let e = run_end(s, pos);
            e == pos || dec_val(s.subrange(pos, e)) > u128::MAX || (s[pos] == 48 && e > pos
                + 1) || dec_val(s.subrange(pos, e)) > i128::MAX
        }),
    ensures
        forall|v: int|
            i128::MIN < v <= i128::MAX ==> !(#[trigger] int_rep_at(s, pos, v)),
{
    lemma_run_end_props(s, pos);
    let e = run_end(s, pos);
    assert forall|v: int| i128::MIN < v <= i128::MAX implies !(#[trigger] int_rep_at(
        s,
        pos,
        v,
    )) by {
        if int_rep_at(s, pos, v) {
            let rep = int_rep(v);
            lemma_dec_rep_digits(if v < 0 {
                (-v) as nat
            } else {
                v as nat
            });
            if v < 0 {
                assert(s[pos] == rep[0]);
            } else {
                let ev = pos + rep.len();
                assert forall|j: int| pos <= j < ev implies is_dec_digit(
                    #[trigger] s[j],
                ) by {
                    assert(s[j] == rep[j - pos]);
                }
                lemma_run_end_of(s, pos, ev);
                assert(s.subrange(pos, e) =~= rep);
                lemma_dec_val_rep(v as nat);
                assert(dec_val(s.subrange(pos, e)) == v);
                if s[pos] == 48 && e > pos + 1 {
                    assert(rep[0] == 48);
                    assert(v < 10);
                    assert(rep.len() == 1);
                }
            }
        }
    }
}

/// A successful parse is the only canonical form at `pos`: any value whose
/// canonical form sits there is the parsed one.
proof fn lemma_int_rep_unique(s: Seq<u8>, pos: int, e: int, parsed: int)
    requires
        0 <= pos < e <= s.len(),
        s.subrange(pos, e) =~= int_rep(parsed),
        e == s.len() || !is_dec_digit(s[e]),
        i128::MIN < parsed <= i128::MAX,
    ensures
        forall|v: int|
            i128::MIN < v <= i128::MAX && #[trigger] int_rep_at(s, pos, v) ==> v == parsed
                && pos + int_rep(v).len() == e,
{
    assert forall|v: int|
        i128::MIN < v <= i128::MAX && #[trigger] int_rep_at(s, pos, v) implies v == parsed
        && pos + int_rep(v).len() == e by {
        let rep = int_rep(v);
        let repp = int_rep(parsed);
        lemma_dec_rep_digits(if v < 0 {
            (-v) as nat
        } else {
            v as nat
        });
        lemma_dec_rep_digits(if parsed < 0 {
            (-parsed) as nat
        } else {
            parsed as nat
        });
        let ev = pos + rep.len();
        let ep = e;
        // both forms start at pos and end at the first non-digit, so the
        // spans coincide
        if v >= 0 && parsed >= 0 {
            assert forall|j: int| pos <= j < ev implies is_dec_digit(#[trigger] s[j]) by {
                assert(s.subrange(pos, pos + rep.len())[j - pos] == rep[j - pos]);
                assert(s[j] == rep[j - pos]);
            }
            assert forall|j: int| pos <= j < ep implies is_dec_digit(#[trigger] s[j]) by {
                assert(s.subrange(pos, ep)[j - pos] == repp[j - pos]);
                assert(s[j] == repp[j - pos]);
            }
            lemma_run_end_of(s, pos, ev);
            lemma_run_end_of(s, pos, ep);
            assert(ev == ep);
            assert forall|j: int| 0 <= j < rep.len() implies rep[j] == repp[j] by {
                assert(s.subrange(pos, pos + rep.len())[j] == rep[j]);
                assert(s.subrange(pos, ep)[j] == repp[j]);
                assert(s[pos + j] == rep[j]);
                assert(s[pos + j] == repp[j]);
            }
            assert(rep =~= repp);
            lemma_dec_val_rep(v as nat);
            lemma_dec_val_rep(parsed as nat);
            assert(dec_val(rep) == v && dec_val(repp) == parsed);
        } else if v < 0 && parsed < 0 {
            let mag_v = dec_rep((-v) as nat);
            let mag_p = dec_rep((-parsed) as nat);
            assert(rep.len() == 1 + mag_v.len());
            assert(repp.len() == 1 + mag_p.len());
            assert forall|j: int| pos + 1 <= j < ev implies is_dec_digit(
                #[trigger] s[j],
            ) by {
                assert(s.subrange(pos, pos + rep.len())[j - pos] == rep[j - pos]);
                assert(s[j] == rep[j - pos]);
                assert(rep[j - pos] == mag_v[j - pos - 1]);
            }
            assert forall|j: int| pos + 1 <= j < ep implies is_dec_digit(
                #[trigger] s[j],
            ) by {
                assert(s.subrange(pos, ep)[j - pos] == repp[j - pos]);
                assert(s[j] == repp[j - pos]);
                assert(repp[j - pos] == mag_p[j - pos - 1]);
            }
            lemma_run_end_of(s, pos + 1, ev);
            lemma_run_end_of(s, pos + 1, ep);
            assert(ev == ep);
            assert(mag_v.len() == mag_p.len());
            assert forall|j: int| 0 <= j < mag_v.len() implies mag_v[j] == mag_p[j] by {
                assert(s.subrange(pos, pos + rep.len())[j + 1] == rep[j + 1]);
                assert(s.subrange(pos, ep)[j + 1] == repp[j + 1]);
                assert(rep[j + 1] == mag_v[j]);
                assert(repp[j + 1] == mag_p[j]);
                assert(s[pos + 1 + j] == rep[j + 1]);
                assert(s[pos + 1 + j] == repp[j + 1]);
            }
            assert(mag_v =~= mag_p);
            lemma_dec_val_rep((-v) as nat);
            lemma_dec_val_rep((-parsed) as nat);
            assert(dec_val(mag_v) == -v);
            assert(dec_val(mag_p) == -parsed);
        } else if v >= 0 && parsed < 0 {
            assert(s[pos] == repp[0]);
            assert(repp[0] == 45);
            assert(s[pos] == rep[0]);
            assert(is_dec_digit(rep[0]));
        } else {
            assert(s[pos] == rep[0]);
            assert(rep[0] == 45);
            assert(s[pos] == repp[0]);
            assert(is_dec_digit(repp[0]));
        }
    }
}

/// Powers of ten.
pub open spec fn pow10(k: nat) -> int
    decreases k,
{
    if k == 0 {
        1
    } else {
        10 * pow10((k - 1) as nat)
    }
}

/// A digit string of length `k` has a value below `10^k`.
pub proof fn lemma_dec_val_len_bound(s: Seq<u8>)
    requires
        all_dec_digits(s),
    ensures
        0 <= dec_val(s) < pow10(s.len()),
    decreases s.len(),
{
    if s.len() == 0 {
    } else {
        let dl = s.drop_last();
        assert forall|i: int| 0 <= i < dl.len() implies is_dec_digit(#[trigger] dl[i]) by {
            assert(dl[i] == s[i]);
        }
        lemma_dec_val_len_bound(dl);
        assert(is_dec_digit(s.last()));
        assert(dec_val(s) == dec_val(dl) * 10 + (s.last() - 48));
    }
}

/// `10^a * 10^b == 10^(a+b)`.
pub proof fn lemma_pow10_add(a: nat, b: nat)
    ensures
        pow10(a) * pow10(b) == pow10(a + b),
    decreases a,
{
    if a == 0 {
        assert(1 * pow10(b) == pow10(b)) by (nonlinear_arith);
    } else {
        lemma_pow10_add((a - 1) as nat, b);
        assert((10 * pow10((a - 1) as nat)) * pow10(b) == 10 * (pow10((a - 1) as nat)
            * pow10(b))) by (nonlinear_arith);
    }
}

/// Index of the first occurrence of `c`, or the length when there is none.
pub open spec fn find_byte(s: Seq<u8>, c: u8) -> int
    decreases s.len(),
{
    if s.len() == 0 {
        0
    } else if s[0] == c {
        0
    } else {
        1 + find_byte(s.skip(1), c)
    }
}

/// The position of the first occurrence of `c` is exactly `k` when nothing
/// before `k` is a `c` and `k` holds one (or is the end).
pub proof fn lemma_find_byte_exact(s: Seq<u8>, c: u8, k: int)
    requires
        0 <= k <= s.len(),
        forall|j: int| 0 <= j < k ==> #[trigger] s[j] != c,
        k == s.len() || s[k] == c,
    ensures
        find_byte(s, c) == k,
    decreases k,
{
    if s.len() == 0 {
    } else if k == 0 {
    } else {
        assert(s[0] != c);
        let t = s.skip(1);
        assert forall|j: int| 0 <= j < k - 1 implies #[trigger] t[j] != c by {
            assert(t[j] == s[j + 1]);
        }
        if k < s.len() {
            assert(t[k - 1] == s[k]);
        }
        lemma_find_byte_exact(t, c, k - 1);
    }
}

/// The first occurrence of `c` lies within the sequence bounds.
pub proof fn lemma_find_byte_bounds(s: Seq<u8>, c: u8)
    ensures
        0 <= find_byte(s, c) <= s.len(),
    decreases s.len(),
{
    if s.len() > 0 && s[0] != c {
        lemma_find_byte_bounds(s.skip(1), c);
    }
}

/// The first occurrence of `c` comes no earlier than `k` when nothing
/// before `k` is a `c`.
pub proof fn lemma_find_byte_lb(s: Seq<u8>, c: u8, k: int)
    requires
        0 <= k <= s.len(),
        forall|j: int| 0 <= j < k ==> #[trigger] s[j] != c,
    ensures
        find_byte(s, c) >= k,
    decreases k,
{
    lemma_find_byte_bounds(s, c);
    if s.len() == 0 || k == 0 {
    } else {
        assert(s[0] != c);
        let t = s.skip(1);
        assert forall|j: int| 0 <= j < k - 1 implies #[trigger] t[j] != c by {
            assert(t[j] == s[j + 1]);
        }
        lemma_find_byte_lb(t, c, k - 1);
    }
}


/// Exactly `k` decimal digits of `f`, zero-padded on the left (`f < 10^k`).
pub open spec fn pad_rep(f: nat, k: nat) -> Seq<u8>
    decreases k,
{
    if k == 0 {
        Seq::<u8>::empty()
    } else {
        pad_rep(f / 10, (k - 1) as nat).push((48 + f % 10) as u8)
    }
}

/// The padded form has exactly `k` digits and reads back as its value.
pub proof fn lemma_pad_rep_props(f: nat, k: nat)
    requires
        f < pow10(k),
    ensures
        pad_rep(f, k).len() == k,
        all_dec_digits(pad_rep(f, k)),
        dec_val(pad_rep(f, k)) == f,
    decreases k,
{
    if k == 0 {
        assert(dec_val(Seq::<u8>::empty()) == 0);
    } else {
        lemma_pad_rep_props(f / 10, (k - 1) as nat);
        let s = pad_rep(f, k);
        let p = pad_rep(f / 10, (k - 1) as nat);
        assert(s.drop_last() =~= p);
        assert(s.last() == (48 + f % 10) as u8);
        assert forall|i: int| 0 <= i < s.len() implies is_dec_digit(#[trigger] s[i]) by {
            if i < p.len() {
                assert(s[i] == p[i]);
            }
        }
    }
}

/// A `k`-digit string is the padded form of its value.
pub proof fn lemma_pad_of_digits(s: Seq<u8>, k: nat)
    requires
        all_dec_digits(s),
        s.len() == k,
    ensures
        pad_rep(dec_val(s) as nat, k) =~= s,
    decreases k,
{
    lemma_dec_val_nonneg(s);
    if k == 0 {
        assert(s =~= Seq::<u8>::empty());
    } else {
        let dl = s.drop_last();
        assert forall|i: int| 0 <= i < dl.len() implies is_dec_digit(#[trigger] dl[i]) by {
            assert(dl[i] == s[i]);
        }
        lemma_dec_val_nonneg(dl);
        lemma_pad_of_digits(dl, (k - 1) as nat);
        let d = (s.last() - 48) as int;
        assert(is_dec_digit(s.last()));
        let v = dec_val(s);
        assert(v == dec_val(dl) * 10 + d);
        lemma_fundamental_div_mod_converse(v, 10, dec_val(dl), d);
        assert(pad_rep(v as nat, k) =~= pad_rep((v as nat) / 10, (k - 1) as nat).push(
            (48 + (v as nat) % 10) as u8,
        ));
    }
}

/// Appends exactly `k` zero-padded digits of `f`.
pub fn push_padded(out: &mut Vec<u8>, f: u64, k: usize)
    requires
        f < pow10(k as nat),
    ensures
        final(out)@ =~= old(out)@ + pad_rep(f as nat, k as nat),
    decreases k,
{
    if k == 0 {
        proof {
            assert(out@ + pad_rep(f as nat, 0) =~= out@);
        }
    } else {
        push_padded(out, f / 10, k - 1);
        out.push(48 + (f % 10) as u8);
        proof {
            assert((f as nat) / 10 == (f / 10) as nat);
            assert((f as nat) % 10 == (f % 10) as nat);
            assert(pad_rep(f as nat, k as nat) =~= pad_rep((f / 10) as nat, (k - 1) as nat).push(
                (48 + (f % 10) as nat) as u8,
            ));
            assert(final(out)@ =~= old(out)@ + pad_rep((f / 10) as nat, (k - 1) as nat) + seq![
                (48 + (f % 10) as nat) as u8,
            ]);
        }
    }
}

/// The small powers of ten, written out.
pub proof fn lemma_pow10_small()
    ensures
        pow10(0) == 1,
        pow10(8) == 100_000_000,
        pow10(10) == 10_000_000_000,
{
    assert(pow10(0) == 1);
    assert(pow10(1) == 10);
    assert(pow10(2) == 100);
    assert(pow10(3) == 1000);
    assert(pow10(4) == 10000);
    assert(pow10(5) == 100000);
    assert(pow10(6) == 1000000);
    assert(pow10(7) == 10000000);
    assert(pow10(8) == 100000000);
    assert(pow10(9) == 1000000000);
    assert(pow10(10) == 10000000000);
}


/// Concatenation of byte sequences is associative.
proof fn lemma_cat_assoc(a: Seq<u8>, b: Seq<u8>, c: Seq<u8>)
    ensures
        (a + b) + c =~= a + (b + c),
{
}

/// Splitting one segment off the front of a stretch of `b`.
proof fn lemma_peel_part(b: Seq<u8>, q: int, hi: int, seg: Seq<u8>, rest: Seq<u8>)
    requires
        0 <= q <= hi <= b.len(),
        b.subrange(q, hi) =~= seg + rest,
    ensures
        q + seg.len() + rest.len() == hi,
        b.subrange(q, q + seg.len()) =~= seg,
        b.subrange(q + seg.len(), hi) =~= rest,
{
    let tail = b.subrange(q, hi);
    assert(tail.len() == seg.len() + rest.len());
    assert forall|i: int| 0 <= i < seg.len() implies b.subrange(q, q + seg.len())[i]
        == seg[i] by {
        assert(tail[i] == (seg + rest)[i]);
        assert(b.subrange(q, q + seg.len())[i] == b[q + i]);
        assert(tail[i] == b[q + i]);
    }
    assert(b.subrange(q, q + seg.len()) =~= seg);
    assert forall|i: int| 0 <= i < rest.len() implies b.subrange(q + seg.len(), hi)[i]
        == rest[i] by {
        assert(tail[seg.len() + i] == (seg + rest)[seg.len() + i]);
        assert(b.subrange(q + seg.len(), hi)[i] == b[q + seg.len() + i]);
        assert(tail[seg.len() + i] == b[q + seg.len() + i]);
    }
    assert(b.subrange(q + seg.len(), hi) =~= rest);
}

/// Joining a segment onto the stretch that follows it.
proof fn lemma_glue_part(b: Seq<u8>, q: int, hi: int, seg: Seq<u8>, rest: Seq<u8>)
    requires
        0 <= q,
        q + seg.len() + rest.len() == hi <= b.len(),
        b.subrange(q, q + seg.len()) =~= seg,
        b.subrange(q + seg.len(), hi) =~= rest,
    ensures
        b.subrange(q, hi) =~= seg + rest,
{
    assert forall|i: int| 0 <= i < seg.len() + rest.len() implies b.subrange(q, hi)[i] == (seg
        + rest)[i] by {
        if i < seg.len() {
            assert(b.subrange(q, q + seg.len())[i] == b[q + i]);
        } else {
            assert(b.subrange(q + seg.len(), hi)[i - seg.len()] == b[q + i]);
        }
        assert(b.subrange(q, hi)[i] == b[q + i]);
    }
    assert(b.subrange(q, hi) =~= seg + rest);
}

/// Canonical fixed-point decimal form of a unit count (`10^-8` of a whole):
/// an optional minus sign, the whole part without redundant leading zeros, a
/// point, and exactly eight fractional digits.
pub open spec fn fix_of(v: int) -> Seq<u8> {
    let m = if v < 0 {
        -v
    } else {
        v
    };
    let sign: Seq<u8> = if v < 0 {
        seq![45u8]
    } else {
        Seq::<u8>::empty()
    };
    sign + dec_rep((m / 100_000_000) as nat) + seq![46u8] + pad_rep((m % 100_000_000) as nat, 8)
}

/// The canonical fixed-point form of `v` sits at `pos` and is followed by a
/// non-digit (or by the end of the input).
pub open spec fn fix_rep_at(s: Seq<u8>, pos: int, v: int) -> bool {
    &&& 0 <= pos
    &&& pos + fix_of(v).len() <= s.len()
    &&& s.subrange(pos, pos + fix_of(v).len()) =~= fix_of(v)
    &&& (pos + fix_of(v).len() == s.len() || !is_dec_digit(s[pos + fix_of(v).len()]))
}

/// Appends the canonical fixed-point form of a unit count.
pub fn push_fix(out: &mut Vec<u8>, v: i64)
    ensures
        final(out)@ =~= old(out)@ + fix_of(v as int),
{
    let m: u128 = if v >= 0 {
        v as u128
    } else {
        ((-(v + 1)) as u128) + 1
    };
    proof {
        lemma_pow10_small();
        assert(m as int == if (v as int) < 0 {
            -(v as int)
        } else {
            v as int
        });
    }
    if v < 0 {
        out.push(45);
    }
    let w = m / 100_000_000;
    let f = (m % 100_000_000) as u64;
    push_u128(out, w);
    out.push(46);
    push_padded(out, f, 8);
    proof {
        let mv: int = if (v as int) < 0 {
            -(v as int)
        } else {
            v as int
        };
        assert(w as nat == (mv / 100_000_000) as nat);
        assert(f as nat == (mv % 100_000_000) as nat);
        assert(final(out)@ =~= old(out)@ + fix_of(v as int));
    }
}

/// Where the canonical fixed-point form of `v` sits at `pos`, its pieces and
/// their boundaries are forced: the sign byte, the maximal whole-part digit
/// run, the point, and the eight-digit fraction.
#[verifier::rlimit(100)]
#[verifier::spinoff_prover]
proof fn lemma_fix_decomp(s: Seq<u8>, pos: int, v: int)
    requires
        i64::MIN < v <= i64::MAX,
        fix_rep_at(s, pos, v),
    ensures
        ({
            let m = if v < 0 {
                -v
            } else {
                v
            };
            let ws = if v < 0 {
                pos + 1
            } else {
                pos
            };
            let wlen = dec_rep((m / 100_000_000) as nat).len() as int;
            &&& pos < s.len()
            &&& (v < 0 <==> s[pos] == 45)
            &&& (v >= 0 ==> is_dec_digit(s[pos]))
            &&& run_end(s, ws) == ws + wlen
            &&& s.subrange(ws, ws + wlen) =~= dec_rep((m / 100_000_000) as nat)
            &&& dec_val(s.subrange(ws, ws + wlen)) == m / 100_000_000
            &&& ws + wlen < s.len() && s[ws + wlen] == 46
            &&& run_end(s, ws + wlen + 1) == ws + wlen + 9
            &&& s.subrange(ws + wlen + 1, ws + wlen + 9) =~= pad_rep(
                (m % 100_000_000) as nat,
                8,
            )
            &&& dec_val(s.subrange(ws + wlen + 1, ws + wlen + 9)) == m % 100_000_000
            &&& pos + fix_of(v).len() == ws + wlen + 9
        }),
{
    let m = if v < 0 {
        -v
    } else {
        v
    };
    let w = (m / 100_000_000) as nat;
    let fr = (m % 100_000_000) as nat;
    let wrep = dec_rep(w);
    let prep = pad_rep(fr, 8);
    lemma_pow10_small();
    lemma_dec_rep_digits(w);
    lemma_pad_rep_props(fr, 8);
    lemma_dec_val_rep(w);
    let rep = fix_of(v);
    let hi = pos + rep.len();
    let wlen = wrep.len() as int;
    let ws = if v < 0 {
        pos + 1
    } else {
        pos
    };
    let dotp = seq![46u8] + prep;
    if v < 0 {
        let sign = seq![45u8];
        lemma_cat_assoc(sign + wrep, seq![46u8], prep);
        lemma_cat_assoc(sign, wrep, seq![46u8] + prep);
        assert(rep =~= sign + (wrep + dotp));
        lemma_peel_part(s, pos, hi, sign, wrep + dotp);
        assert(s.subrange(pos, pos + 1)[0] == s[pos]);
        assert(s[pos] == 45);
        lemma_peel_part(s, pos + 1, hi, wrep, dotp);
    } else {
        let sign = Seq::<u8>::empty();
        lemma_cat_assoc(sign + wrep, seq![46u8], prep);
        lemma_cat_assoc(sign, wrep, seq![46u8] + prep);
        assert(sign + (wrep + dotp) =~= wrep + dotp);
        assert(rep =~= wrep + dotp);
        lemma_peel_part(s, pos, hi, wrep, dotp);
        assert(s.subrange(pos, pos + wlen)[0] == s[pos]);
        assert(is_dec_digit(wrep[0]));
        assert(s[pos] != 45);
    }
    lemma_peel_part(s, ws + wlen, hi, seq![46u8], prep);
    assert(s.subrange(ws + wlen, ws + wlen + 1)[0] == s[ws + wlen]);
    assert(s[ws + wlen] == 46);
    assert forall|j: int| ws <= j < ws + wlen implies is_dec_digit(#[trigger] s[j]) by {
        assert(s.subrange(ws, ws + wlen)[j - ws] == s[j]);
        assert(is_dec_digit(wrep[j - ws]));
    }
    lemma_run_end_of(s, ws, ws + wlen);
    assert forall|j: int| ws + wlen + 1 <= j < ws + wlen + 9 implies is_dec_digit(
        #[trigger] s[j],
    ) by {
        assert(s.subrange(ws + wlen + 1, ws + wlen + 9)[j - (ws + wlen + 1)] == s[j]);
        assert(is_dec_digit(prep[j - (ws + wlen + 1)]));
    }
    lemma_run_end_of(s, ws + wlen + 1, ws + wlen + 9);
}

/// A successful fixed-point parse is the only canonical form at `pos`.
proof fn lemma_fix_unique(s: Seq<u8>, pos: int, parsed: int)
    requires
        i64::MIN < parsed <= i64::MAX,
        fix_rep_at(s, pos, parsed),
    ensures
        forall|v: int|
            i64::MIN < v <= i64::MAX && #[trigger] fix_rep_at(s, pos, v) ==> v == parsed
                && fix_of(v).len() == fix_of(parsed).len(),
{
    lemma_fix_decomp(s, pos, parsed);
    let mp = if parsed < 0 {
        -parsed
    } else {
        parsed
    };
    assert forall|v: int|
        i64::MIN < v <= i64::MAX && #[trigger] fix_rep_at(s, pos, v) implies v == parsed
        && fix_of(v).len() == fix_of(parsed).len() by {
        lemma_fix_decomp(s, pos, v);
        let mv = if v < 0 {
            -v
        } else {
            v
        };
        // the sign byte decides both signs the same way
        assert((v < 0) == (parsed < 0));
        let ws = if v < 0 {
            pos + 1
        } else {
            pos
        };
        // the maximal digit run fixes the whole part for both
        assert(ws + dec_rep((mv / 100_000_000) as nat).len() == run_end(s, ws));
        assert(ws + dec_rep((mp / 100_000_000) as nat).len() == run_end(s, ws));
        let wlen = run_end(s, ws) - ws;
        assert(dec_val(s.subrange(ws, ws + wlen)) == mv / 100_000_000);
        assert(dec_val(s.subrange(ws, ws + wlen)) == mp / 100_000_000);
        assert(dec_val(s.subrange(ws + wlen + 1, ws + wlen + 9)) == mv % 100_000_000);
        assert(dec_val(s.subrange(ws + wlen + 1, ws + wlen + 9)) == mp % 100_000_000);
        lemma_fundamental_div_mod(mv, 100_000_000);
        lemma_fundamental_div_mod(mp, 100_000_000);
        assert(mv == mp);
    }
}

/// Parses a fixed-point decimal in canonical form at `pos`: an optional
/// minus sign, whole digits with no redundant leading zero, a point, and
/// exactly eight fractional digits. Exactly the canonical forms of the unit
/// counts above `i64::MIN` are accepted, and a successful parse returns
/// precisely the span it consumed.
#[verifier::rlimit(100)]
#[verifier::spinoff_prover]
pub fn parse_fix_at(b: &[u8], pos: usize) -> (r: Option<(i64, usize)>)
    requires
        pos <= b@.len(),
    ensures
        r matches Some(p) ==> pos < p.1 <= b@.len() && b@.subrange(pos as int, p.1 as int)
            =~= fix_of(p.0 as int) && (p.1 == b@.len() || !is_dec_digit(b@[p.1 as int]))
            && p.0 > i64::MIN,
        forall|v: int|
            i64::MIN < v <= i64::MAX && #[trigger] fix_rep_at(b@, pos as int, v) ==> r
                == Some((v as i64, (pos + fix_of(v).len()) as usize)),
{
    let len = b.len();
    proof {
        lemma_pow10_small();
    }
    let neg = pos < len && b[pos] == 45;
    let wstart = if neg {
        pos + 1
    } else {
        pos
    };
    proof {
        lemma_run_end_props(b@, wstart as int);
    }
    let wr = parse_u128_at(b, wstart);
    let (w, e) = match wr {
        Some(t) => t,
        None => {
            proof {
                assert forall|v: int|
                    i64::MIN < v <= i64::MAX && #[trigger] fix_rep_at(
                        b@,
                        pos as int,
                        v,
                    ) implies false by {
                    lemma_fix_decomp(b@, pos as int, v);
                    let m = if v < 0 {
                        -v
                    } else {
                        v
                    };
                    lemma_div_is_ordered(m, i64::MAX as int, 100_000_000);
                }
            }
            return None;
        },
    };
    if b[wstart] == 48 && e > wstart + 1 {
        proof {
            assert forall|v: int|
                i64::MIN < v <= i64::MAX && #[trigger] fix_rep_at(
                    b@,
                    pos as int,
                    v,
                ) implies false by {
                lemma_fix_decomp(b@, pos as int, v);
                let m = if v < 0 {
                    -v
                } else {
                    v
                };
                lemma_dec_rep_digits((m / 100_000_000) as nat);
            }
        }
        return None;
    }
    if !(e < len && b[e] == 46) {
        proof {
            assert forall|v: int|
                i64::MIN < v <= i64::MAX && #[trigger] fix_rep_at(
                    b@,
                    pos as int,
                    v,
                ) implies false by {
                lemma_fix_decomp(b@, pos as int, v);
            }
        }
        return None;
    }
    proof {
        lemma_run_end_props(b@, e + 1);
    }
    let fr2 = parse_u128_at(b, e + 1);
    let (f, e2) = match fr2 {
        Some(t) => t,
        None => {
            proof {
                assert forall|v: int|
                    i64::MIN < v <= i64::MAX && #[trigger] fix_rep_at(
                        b@,
                        pos as int,
                        v,
                    ) implies false by {
                    lemma_fix_decomp(b@, pos as int, v);
                    let m = if v < 0 {
                        -v
                    } else {
                        v
                    };
                    lemma_pad_rep_props((m % 100_000_000) as nat, 8);
                }
            }
            return None;
        },
    };
    if e2 - (e + 1) != 8 {
        proof {
            assert forall|v: int|
                i64::MIN < v <= i64::MAX && #[trigger] fix_rep_at(
                    b@,
                    pos as int,
                    v,
                ) implies false by {
                lemma_fix_decomp(b@, pos as int, v);
            }
        }
        return None;
    }
    if w > 92_233_720_368u128 {
        proof {
            assert forall|v: int|
                i64::MIN < v <= i64::MAX && #[trigger] fix_rep_at(
                    b@,
                    pos as int,
                    v,
                ) implies false by {
                lemma_fix_decomp(b@, pos as int, v);
                let m = if v < 0 {
                    -v
                } else {
                    v
                };
                lemma_div_is_ordered(m, i64::MAX as int, 100_000_000);
            }
        }
        return None;
    }
    proof {
        let frun = b@.subrange(e + 1, e2 as int);
        assert forall|j: int| 0 <= j < frun.len() implies is_dec_digit(#[trigger] frun[j]) by {
            assert(frun[j] == b@[e + 1 + j]);
        }
        lemma_dec_val_len_bound(frun);
    }
    let val: u128 = w * 100_000_000 + f;
    if val > (i64::MAX as u128) {
        proof {
            assert forall|v: int|
                i64::MIN < v <= i64::MAX && #[trigger] fix_rep_at(
                    b@,
                    pos as int,
                    v,
                ) implies false by {
                lemma_fix_decomp(b@, pos as int, v);
                let m = if v < 0 {
                    -v
                } else {
                    v
                };
                lemma_fundamental_div_mod(m, 100_000_000);
                assert(100_000_000 * (m / 100_000_000) == (m / 100_000_000) * 100_000_000)
                    by (nonlinear_arith);
            }
        }
        return None;
    }
    if neg && val == 0 {
        proof {
            assert forall|v: int|
                i64::MIN < v <= i64::MAX && #[trigger] fix_rep_at(
                    b@,
                    pos as int,
                    v,
                ) implies false by {
                lemma_fix_decomp(b@, pos as int, v);
                let m = if v < 0 {
                    -v
                } else {
                    v
                };
                lemma_fundamental_div_mod(m, 100_000_000);
                assert(100_000_000 * (m / 100_000_000) == (m / 100_000_000) * 100_000_000)
                    by (nonlinear_arith);
            }
        }
        return None;
    }
    let v: i64 = if neg {
        -(val as i64)
    } else {
        val as i64
    };
    proof {
        let wrun = b@.subrange(wstart as int, e as int);
        assert forall|j: int| 0 <= j < wrun.len() implies is_dec_digit(#[trigger] wrun[j]) by {
            assert(wrun[j] == b@[wstart + j]);
        }
        assert(wrun[0] == b@[wstart as int]);
        lemma_rep_of_canonical(wrun);
        let frun = b@.subrange(e + 1, e2 as int);
        lemma_pad_of_digits(frun, 8);
        let m: int = if (v as int) < 0 {
            -(v as int)
        } else {
            v as int
        };
        assert(m == val);
        lemma_fundamental_div_mod_converse(m, 100_000_000, w as int, f as int);
        assert(dec_rep((m / 100_000_000) as nat) =~= wrun);
        assert(pad_rep((m % 100_000_000) as nat, 8) =~= frun);
        assert(b@.subrange(e as int, e + 1)[0] == b@[e as int]);
        assert(b@.subrange(e as int, e + 1) =~= seq![46u8]);
        lemma_glue_part(b@, e as int, e2 as int, seq![46u8], frun);
        lemma_glue_part(b@, wstart as int, e2 as int, wrun, seq![46u8] + frun);
        let rep = fix_of(v as int);
        if neg {
            assert(b@.subrange(pos as int, pos + 1)[0] == b@[pos as int]);
            assert(b@.subrange(pos as int, pos + 1) =~= seq![45u8]);
            lemma_glue_part(b@, pos as int, e2 as int, seq![45u8], wrun + (seq![46u8] + frun));
            lemma_cat_assoc(seq![45u8] + wrun, seq![46u8], frun);
            lemma_cat_assoc(seq![45u8], wrun, seq![46u8] + frun);
            assert(rep =~= seq![45u8] + (wrun + (seq![46u8] + frun)));
        } else {
            lemma_cat_assoc(Seq::<u8>::empty() + wrun, seq![46u8], frun);
            assert(Seq::<u8>::empty() + wrun =~= wrun);
            assert(rep =~= wrun + (seq![46u8] + frun));
        }
        assert(b@.subrange(pos as int, e2 as int) =~= rep);
        assert(fix_rep_at(b@, pos as int, v as int));
        lemma_fix_unique(b@, pos as int, v as int);
    }
    Some((v, e2))
}

/// Parses a whole string of ASCII digits as a `u64`, the way configuration
/// values are written. Leading zeros are accepted; anything else fails.
pub fn parse_u64(s: &str) -> (r: Option<u64>)
    ensures
        ({
            let bts = s.spec_bytes();
            match r {
                Some(v) => bts.len() >= 1 && all_dec_digits(bts) && dec_val(bts) <= u64::MAX
                    && v == dec_val(bts),
                None => !(bts.len() >= 1 && all_dec_digits(bts) && dec_val(bts) <= u64::MAX),
            }
        }),
{
    let b = s.as_bytes();
    proof {
        lemma_run_end_props(b@, 0);
    }
    match parse_u128_at(b, 0) {
        Some((v, e)) => {
            if e == b.len() && v <= (u64::MAX as u128) {
                proof {
                    assert(b@.subrange(0, b@.len() as int) =~= b@);
                }
                Some(v as u64)
            } else {
                proof {
                    if e < b@.len() {
                        assert(!is_dec_digit(b@[e as int]));
                    } else {
                        assert(b@.subrange(0, b@.len() as int) =~= b@);
                    }
                }
                None
            }
        },
        None => {
            proof {
                let e = run_end(b@, 0);
                if b@.len() >= 1 && all_dec_digits(b@) {
                    lemma_run_end_of(b@, 0, b@.len() as int);
                    assert(b@.subrange(0, b@.len() as int) =~= b@);
                }
            }
            None
        },
    }
}

/// A stretch of digits followed by a non-digit (or the end) is the maximal
/// digit run.
pub proof fn lemma_run_end_of(s: Seq<u8>, pos: int, e: int)
    requires
        0 <= pos <= e <= s.len(),
        forall|i: int| pos <= i < e ==> is_dec_digit(#[trigger] s[i]),
        e < s.len() ==> !is_dec_digit(s[e]),
    ensures
        run_end(s, pos) == e,
    decreases e - pos,
{
    if pos < e {
        lemma_run_end_of(s, pos + 1, e);
    }
}

} // verus!
