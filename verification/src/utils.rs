//! Small numeric and string helpers used by the statistics engine and the
//! configuration loader.

use vstd::prelude::*;
use vstd::string::*;
use crate::data_processor::Ratio;

verus! {

/// Incrementally advances the mean of a data stream by one element.
///
/// `curr_avg` is the exact mean of the first `n - 1` elements, held as the
/// rational (sum of elements) / (count). Adding `new_elem` yields the mean of
/// all `n` elements: the sum grows by the element and the count becomes `n`.
/// Over the rationals this is exactly the classical online update
/// `new_avg = curr_avg + (new_elem - curr_avg) / n`
/// (see `lemma_stream_mean_is_online_update`).
pub fn calculate_stream_mean(curr_avg: Ratio, new_elem: i64, n: u64) -> (r: Ratio)
    requires
        n >= 1,
        curr_avg.den + 1 == n,
        i128::MIN <= curr_avg.num + new_elem <= i128::MAX,
    ensures
        r.num == curr_avg.num + new_elem,
        r.den == n,
{
    Ratio { num: curr_avg.num + (new_elem as i128), den: n }
}

/// Law: `calculate_stream_mean` performs the online mean update. With the
/// prior mean `c = s / (n - 1)` and the result `r = (s + x) / n`, the
/// identity `r = c + (x - c) / n` holds over the rationals; cleared of
/// denominators: `(s + x) * (n - 1) == s * n + (x * (n - 1) - s)`.
pub proof fn lemma_stream_mean_is_online_update(s: int, x: int, n: int)
    requires
        n >= 1,
    ensures
        (s + x) * (n - 1) == s * n + (x * (n - 1) - s),
{
    assert((s + x) * (n - 1) == s * n + (x * (n - 1) - s)) by (nonlinear_arith);
}

/// Bounds an index by an exclusive upper limit: returns `idx` when
/// `idx < bound_by`, and `0` otherwise. This is not a modulus: an
/// out-of-range index resets to zero.
pub fn bound_index(idx: usize, bound_by: usize) -> (r: usize)
    ensures
        r == if idx < bound_by { idx as int } else { 0int },
{
    if idx < bound_by {
        idx
    } else {
        0
    }
}

/// Maps an `isize` to the `usize` with the same bit pattern: non-negative
/// values keep their value, negative values wrap to the top of the range as
/// two's complement does.
pub fn isize2usize(val: isize) -> (r: usize)
    ensures
        val >= 0 ==> r == val,
        val < 0 ==> r as int == val + usize::MAX + 1,
{
    if val >= 0 {
        val as usize
    } else {
        usize::MAX - ((-(val + 1)) as usize)
    }
}

/// The marker whose first occurrence in a URL precedes the symbol name.
pub open spec fn sym_key() -> Seq<char> {
    "symbol="@
}

/// The marker sits in `s` at position `i`.
pub open spec fn key_at(s: Seq<char>, i: int) -> bool {
    0 <= i && i + 7 <= s.len() && s.subrange(i, i + 7) =~= sym_key()
}

/// Extracts the symbol from a URL: everything after the first occurrence of
/// the `symbol=` marker, or nothing when the marker does not occur.
pub fn extract_symbol(url: &str) -> (r: Option<String>)
    ensures
        r is Some <==> exists|i: int| key_at(url@, i),
        r matches Some(sym) ==> exists|i: int|
            #[trigger] key_at(url@, i) && (forall|j: int| 0 <= j < i ==> !key_at(url@, j))
                && sym@ =~= url@.subrange(i + 7, url@.len() as int),
{
    let pat = "symbol=";
    proof {
        reveal_strlit("symbol=");
        assert(pat@.len() == 7);
    }
    let n = url.unicode_len();
    if n < 7 {
        return None;
    }
    let mut i: usize = 0;
    while i <= n - 7
        invariant
            7 <= n,
            n == url@.len(),
            i <= n - 7 + 1,
            pat@ == sym_key(),
            pat@.len() == 7,
            forall|j: int| 0 <= j < i ==> !key_at(url@, j),
        decreases n - i,
    {
        let mut j: usize = 0;
        let mut ok = true;
        while j < 7
            invariant
                j <= 7,
                i + 7 <= n,
                n == url@.len(),
                pat@ == sym_key(),
                pat@.len() == 7,
                ok ==> forall|t: int| 0 <= t < j ==> url@[i + t] == #[trigger] sym_key()[t],
                !ok ==> !key_at(url@, i as int),
            decreases 7 - j,
        {
            if url.get_char(i + j) != pat.get_char(j) {
                proof {
                    assert(url@.subrange(i as int, i + 7)[j as int] == url@[i + j]);
                }
                ok = false;
            }
            j = j + 1;
        }
        if ok {
            proof {
                assert forall|t: int| 0 <= t < 7 implies url@.subrange(i as int, i + 7)[t]
                    == sym_key()[t] by {
                    assert(url@.subrange(i as int, i + 7)[t] == url@[i + t]);
                }
                assert(url@.subrange(i as int, i + 7) =~= sym_key());
                assert(key_at(url@, i as int));
            }
            let sym = url.substring_char(i + 7, n);
            return Some(sym.to_owned());
        }
        i = i + 1;
    }
    proof {
        assert forall|i0: int| !(#[trigger] key_at(url@, i0)) by {
            if key_at(url@, i0) {
                assert(0 <= i0 <= n - 7);
            }
        }
    }
    None
}

} // verus!
