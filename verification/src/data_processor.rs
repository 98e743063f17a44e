//! The per-symbol statistics engine.
//!
//! The engine keeps, for one stream of fixed-point price observations, the
//! minimum, the maximum, the running mean over all observations and a simple
//! moving average (SMA) over the last `N` observations, together with the
//! observation count. Every aggregate is exact: prices are `i64` unit counts,
//! sums are `i128`, and the two means are published as exact rationals.
//!
//! Snapshots are published through two slots selected by an index that flips
//! on every write, so a reader always sees all five fields of one update.

use vstd::prelude::*;
use vstd::pervasive::VecAdditionalExecFns;
use vstd::arithmetic::mul::lemma_mul_inequality;
use crate::utils::bound_index;
use crate::utils::calculate_stream_mean;

verus! {

/// Largest magnitude one observation may have, in units of `10^-8` of a
/// whole price. The bound keeps every running sum inside `i128`.
pub const PRICE_LIMIT: i64 = 1_000_000_000_000_000_000;

/// An observation small enough that running sums cannot overflow.
pub open spec fn obs_ok(x: int) -> bool {
    -(PRICE_LIMIT as int) <= x <= PRICE_LIMIT as int
}

/// Every element of the sequence is a bounded observation.
pub open spec fn all_obs_ok(s: Seq<int>) -> bool {
    forall|i: int| 0 <= i < s.len() ==> obs_ok(#[trigger] s[i])
}

/// Sum of a sequence of observations.
pub open spec fn seq_sum(s: Seq<int>) -> int
    decreases s.len(),
{
    if s.len() == 0 {
        0
    } else {
        seq_sum(s.drop_last()) + s.last()
    }
}

pub open spec fn min2(a: int, b: int) -> int {
    if a <= b {
        a
    } else {
        b
    }
}

pub open spec fn max2(a: int, b: int) -> int {
    if a >= b {
        a
    } else {
        b
    }
}

/// Smallest element of a nonempty sequence.
pub open spec fn seq_min(s: Seq<int>) -> int
    decreases s.len(),
{
    if s.len() <= 1 {
        s[0]
    } else {
        min2(seq_min(s.drop_last()), s.last())
    }
}

/// Largest element of a nonempty sequence.
pub open spec fn seq_max(s: Seq<int>) -> int
    decreases s.len(),
{
    if s.len() <= 1 {
        s[0]
    } else {
        max2(seq_max(s.drop_last()), s.last())
    }
}

/// The conceptual stream behind the SMA: `n` copies of the seed (the first
/// observation), then every later observation in order.
pub open spec fn conceptual(n: nat, hist: Seq<int>) -> Seq<int> {
    Seq::new(n, |i: int| hist[0]) + hist.skip(1)
}

/// The last `n` values of the conceptual stream: the SMA window.
pub open spec fn window(n: nat, hist: Seq<int>) -> Seq<int> {
    conceptual(n, hist).subrange(
        conceptual(n, hist).len() - n,
        conceptual(n, hist).len() as int,
    )
}

/// An exact rational number with a positive denominator.
#[derive(Clone, Copy, Debug, PartialEq, Eq, Structural)]
pub struct Ratio {
    pub num: i128,
    pub den: u64,
}

/// The rational `r` equals the integer `v`.
pub open spec fn ratio_is(r: Ratio, v: int) -> bool {
    r.den >= 1 && r.num == v * r.den
}

/// Raw statistical data snapshot: the five aggregates published by one write.
#[derive(Clone, Copy, Debug, PartialEq, Eq, Structural)]
pub struct RawData {
    /// Minimum value observed.
    pub min: i64,
    /// Maximum value observed.
    pub max: i64,
    /// Streaming mean (average) of all values, as an exact rational.
    pub curr_avg: Ratio,
    /// Simple moving average over the configured window, as an exact rational.
    pub sma: Ratio,
    /// Number of data points observed.
    pub data_point: u64,
}

/// The snapshot `d` is exactly the one determined by window size `n` and the
/// full observation history `hist` (seed first).
pub open spec fn snapshot_matches(d: RawData, n: nat, hist: Seq<int>) -> bool {
    &&& d.min == seq_min(hist)
    &&& d.max == seq_max(hist)
    &&& d.curr_avg.num == seq_sum(hist)
    &&& d.curr_avg.den == hist.len()
    &&& d.sma.num == seq_sum(window(n, hist))
    &&& d.sma.den == n
    &&& d.data_point == hist.len()
}

/// Fixed-capacity storage for the SMA ring. Capacity is chosen at
/// construction and never changes; every access is bounds-checked by
/// contract.
pub struct UnsafeQueue<T: Copy> {
    data: Vec<T>,
}

impl<T: Copy> View for UnsafeQueue<T> {
    type V = Seq<T>;

    closed spec fn view(&self) -> Seq<T> {
        self.data@
    }
}

impl<T: Copy> UnsafeQueue<T> {
    /// Allocates a queue of the given capacity with every slot holding `fill`.
    pub fn new(capacity: usize, fill: T) -> (q: Self)
        ensures
            q@ =~= Seq::new(capacity as nat, |i: int| fill),
    {
        let mut data: Vec<T> = Vec::new();
        let mut i: usize = 0;
        while i < capacity
            invariant
                i <= capacity,
                data@ =~= Seq::new(i as nat, |j: int| fill),
            decreases capacity - i,
        {
            data.push(fill);
            i = i + 1;
        }
        UnsafeQueue { data }
    }

    /// The fixed capacity.
    pub fn capacity(&self) -> (c: usize)
        ensures
            c == self@.len(),
    {
        self.data.len()
    }

    /// Sets the value at the given index.
    pub fn set(&mut self, val: T, idx: usize)
        requires
            idx < old(self)@.len(),
        ensures
            final(self)@ =~= old(self)@.update(idx as int, val),
    {
        self.data.set(idx, val);
    }

    /// Gets the value at the given index.
    pub fn get(&self, idx: usize) -> (r: T)
        requires
            idx < self@.len(),
        ensures
            r == self@[idx as int],
    {
        self.data[idx]
    }

    /// Swaps the value at the given index with a new value, returning the
    /// value that was there.
    pub fn swap(&mut self, idx: usize, val: T) -> (popped: T)
        requires
            idx < old(self)@.len(),
        ensures
            popped == old(self)@[idx as int],
            final(self)@ =~= old(self)@.update(idx as int, val),
    {
        let popped = self.data[idx];
        self.data.set(idx, val);
        popped
    }
}

/// Position in the ring at which the next value is stored: the stored cursor
/// when it is still in range, and `0` otherwise.
pub open spec fn bpos(idx: int, n: int) -> int {
    if idx < n {
        idx
    } else {
        0
    }
}

/// Ring position `t` steps after position `c` (both below `n`).
pub open spec fn wrap(c: int, t: int, n: int) -> int {
    if c + t < n {
        c + t
    } else {
        c + t - n
    }
}

/// A processor that maintains streaming statistics and an SMA over one
/// stream of observations, publishing tear-free snapshots through two slots.
pub struct DataProcessor {
    /// Two snapshot slots; the active one is what readers see.
    slots: Vec<RawData>,
    /// Which slot (0 or 1) currently holds the published snapshot.
    active2read: usize,
    /// Circular buffer holding the current SMA window.
    queue: UnsafeQueue<i64>,
    /// Running sum of the values in the SMA window.
    curr_sma_sum: i128,
    /// Cursor into the circular buffer; bounded at the point of use.
    curr_queue_idx: usize,
    /// The full observation history, seed first.
    hist: Ghost<Seq<int>>,
}

impl DataProcessor {
    /// Every observation handed to this processor so far, seed first.
    pub closed spec fn history(&self) -> Seq<int> {
        self.hist@
    }

    /// The fixed SMA window size.
    pub closed spec fn win_size(&self) -> nat {
        self.queue@.len()
    }

    /// Internal well-formedness: the published slot holds exactly the
    /// snapshot of the history, and the ring holds the SMA window rotated
    /// so that its oldest value sits where the cursor points.
    pub closed spec fn wf(&self) -> bool {
        let n = self.win_size() as int;
        let c = bpos(self.curr_queue_idx as int, n);
        &&& self.slots@.len() == 2
        &&& self.active2read < 2
        &&& n >= 1
        &&& 1 <= self.history().len() <= u64::MAX
        &&& all_obs_ok(self.history())
        &&& snapshot_matches(
            self.slots@[self.active2read as int],
            self.win_size(),
            self.history(),
        )
        &&& self.curr_queue_idx <= n
        &&& self.curr_sma_sum == seq_sum(window(self.win_size(), self.history()))
        &&& forall|t: int|
            0 <= t < n ==> self.queue@[wrap(c, t, n)] == window(
                self.win_size(),
                self.history(),
            )[t]
    }

    /// Builds a processor seeded with `initial_data`: all aggregates start at
    /// the seed, the count at one, and every ring slot holds the seed.
    ///
    /// # Arguments
    /// - `sma_n_size`: window size for the simple moving average
    /// - `initial_data`: initial seed value for statistics
    pub fn split(sma_n_size: usize, initial_data: i64) -> (p: DataProcessor)
        requires
            sma_n_size >= 1,
            obs_ok(initial_data as int),
        ensures
            p.wf(),
            p.win_size() == sma_n_size,
            p.history() =~= seq![initial_data as int],
    {
        proof {
            lemma_limit_bounds();
            assert(sma_n_size as int <= u64::MAX as int);
            lemma_mul_inequality(sma_n_size as int, u64::MAX as int, PRICE_LIMIT as int);
            lemma_mul_abs_bound(sma_n_size as int, initial_data as int, PRICE_LIMIT as int);
            assert((initial_data as int) * (sma_n_size as int) == (sma_n_size as int) * (
            initial_data as int)) by (nonlinear_arith);
        }
        let seed_sum: i128 = (initial_data as i128) * (sma_n_size as i128);
        let raw = RawData {
            curr_avg: Ratio { num: initial_data as i128, den: 1 },
            max: initial_data,
            min: initial_data,
            sma: Ratio { num: seed_sum, den: sma_n_size as u64 },
            data_point: 1,
        };
        let queue = UnsafeQueue::new(sma_n_size, initial_data);
        let mut slots: Vec<RawData> = Vec::new();
        slots.push(raw);
        slots.push(raw);
        let ghost hist0: Seq<int> = seq![initial_data as int];
        let p = DataProcessor {
            slots,
            active2read: 0,
            queue,
            curr_sma_sum: seed_sum,
            curr_queue_idx: 0,
            hist: Ghost(hist0),
        };
        proof {
            let v = initial_data as int;
            let n = sma_n_size as nat;
            assert(hist0.len() == 1 && hist0[0] == v);
            assert(hist0.skip(1) =~= Seq::<int>::empty());
            assert(conceptual(n, hist0) =~= Seq::new(n, |i: int| v));
            assert(window(n, hist0) =~= conceptual(n, hist0));
            lemma_sum_constant(n, v);
            assert(hist0.drop_last() =~= Seq::<int>::empty());
            assert(seq_sum(Seq::<int>::empty()) == 0);
            assert(hist0.last() == v);
            assert(seq_sum(hist0) == seq_sum(hist0.drop_last()) + hist0.last());
            assert(seq_sum(hist0) == v);
            assert(seq_min(hist0) == v);
            assert(seq_max(hist0) == v);
            assert(seed_sum == n * v);
        }
        p
    }

    /// Updates statistics with a new data point.
    ///
    /// Updates:
    /// - min / max
    /// - streaming mean (`curr_avg`)
    /// - simple moving average (`sma`)
    /// - data point count
    ///
    /// The new snapshot is written into the inactive slot, and the active
    /// index then flips to publish it.
    pub fn write(&mut self, new_data: i64)
        requires
            old(self).wf(),
            obs_ok(new_data as int),
            old(self).history().len() < u64::MAX,
        ensures
            final(self).wf(),
            final(self).win_size() == old(self).win_size(),
            final(self).history() =~= old(self).history().push(new_data as int),
    {
        let ghost hist = self.hist@;
        let ghost n = self.win_size();
        let ghost x = new_data as int;
        let ghost w = window(n, hist);
        let ghost c = bpos(self.curr_queue_idx as int, n as int);
        proof {
            lemma_limit_bounds();
            lemma_window_props(n, hist);
            lemma_sum_bound(hist);
            lemma_sum_bound(w);
            lemma_mul_inequality(hist.len() as int, u64::MAX as int, PRICE_LIMIT as int);
            lemma_mul_inequality(n as int, u64::MAX as int, PRICE_LIMIT as int);
        }
        // Load the current reader index (0 or 1) and the prior snapshot.
        let idx = self.active2read;
        let old_raw = self.slots[idx];

        // Update min/max and the data point count.
        let min = if new_data < old_raw.min {
            new_data
        } else {
            old_raw.min
        };
        let max = if new_data > old_raw.max {
            new_data
        } else {
            old_raw.max
        };
        let data_point = old_raw.data_point + 1;

        // Streaming mean (online update, exact).
        let curr_avg = calculate_stream_mean(old_raw.curr_avg, new_data, data_point);

        // Simple Moving Average (SMA) update: swap the new value into the
        // ring at the bounded cursor and slide the running window sum.
        let cap = self.queue.capacity();
        let b_idx = bound_index(self.curr_queue_idx, cap);
        self.curr_queue_idx = b_idx + 1;
        let popped = self.queue.swap(b_idx, new_data);
        let new_sum = self.curr_sma_sum - (popped as i128) + (new_data as i128);
        self.curr_sma_sum = new_sum;
        let sma = Ratio { num: new_sum, den: cap as u64 };

        let new_raw = RawData { curr_avg, max, min, sma, data_point };
        let bounded_idx = bound_index(idx + 1, 2);

        // Write into the inactive slot, then switch the active index.
        self.slots.set(bounded_idx, new_raw);
        self.active2read = bounded_idx;
        self.hist = Ghost(hist.push(x));

        proof {
            let hist2 = hist.push(x);
            let w2 = window(n, hist2);
            lemma_sum_push(hist, x);
            lemma_minmax_push(hist, x);
            lemma_window_push(n, hist, x);
            lemma_sum_first(w);
            lemma_sum_push(w.skip(1), x);
            assert(w2 =~= w.skip(1).push(x));
            assert(popped as int == w[0]);
            assert(seq_sum(w2) == seq_sum(w) - w[0] + x);
            assert(all_obs_ok(hist2)) by {
                assert(forall|i: int|
                    0 <= i < hist.len() ==> hist2[i] == #[trigger] hist[i]);
            }
            let c2 = bpos(self.curr_queue_idx as int, n as int);
            assert(c2 == wrap(c, 1, n as int));
            assert forall|t: int| 0 <= t < n implies self.queue@[wrap(c2, t, n as int)]
                == w2[t] by {
                if t < n - 1 {
                    assert(wrap(c2, t, n as int) == wrap(c, t + 1, n as int));
                    assert(wrap(c, t + 1, n as int) != c);
                    assert(self.queue@[wrap(c, t + 1, n as int)] == old(
                        self,
                    ).queue@[wrap(c, t + 1, n as int)]);
                    assert(old(self).queue@[wrap(c, t + 1, n as int)] == w[t + 1]);
                } else {
                    assert(wrap(c2, t, n as int) == c);
                    assert(self.queue@[c as int] == x);
                }
            }
        }
    }

    /// Reads the latest snapshot of statistics.
    pub fn read(&self) -> (r: RawData)
        requires
            self.wf(),
        ensures
            snapshot_matches(r, self.win_size(), self.history()),
    {
        let idx = self.active2read;
        self.slots[idx]
    }
}

/// `PRICE_LIMIT`-scale products stay inside `i128`.
proof fn lemma_limit_bounds()
    ensures
        (u64::MAX as int) * (PRICE_LIMIT as int) + (PRICE_LIMIT as int) + (PRICE_LIMIT as int)
            <= i128::MAX,
        -((u64::MAX as int) * (PRICE_LIMIT as int)) - (PRICE_LIMIT as int) - (PRICE_LIMIT as int)
            >= i128::MIN,
{
}

/// If `|b| <= l` and `0 <= a`, then `|a * b| <= a * l`.
proof fn lemma_mul_abs_bound(a: int, b: int, l: int)
    requires
        a >= 0,
        -l <= b <= l,
    ensures
        -(a * l) <= a * b <= a * l,
{
    lemma_mul_inequality(-l, b, a);
    lemma_mul_inequality(b, l, a);
    assert(a * b == b * a) by (nonlinear_arith);
    assert(a * l == l * a) by (nonlinear_arith);
    assert((-l) * a == -(l * a)) by (nonlinear_arith);
}

/// Appending one element adds it to the sum.
pub proof fn lemma_sum_push(s: Seq<int>, x: int)
    ensures
        seq_sum(s.push(x)) == seq_sum(s) + x,
{
    assert(s.push(x).drop_last() =~= s);
    assert(s.push(x).last() == x);
}

/// Appending one element updates the minimum and maximum pointwise.
pub proof fn lemma_minmax_push(s: Seq<int>, x: int)
    requires
        s.len() >= 1,
    ensures
        seq_min(s.push(x)) == min2(seq_min(s), x),
        seq_max(s.push(x)) == max2(seq_max(s), x),
{
    assert(s.push(x).drop_last() =~= s);
    assert(s.push(x).last() == x);
}

/// The sum of a nonempty sequence splits off its first element.
pub proof fn lemma_sum_first(s: Seq<int>)
    requires
        s.len() >= 1,
    ensures
        seq_sum(s) == s[0] + seq_sum(s.skip(1)),
    decreases s.len(),
{
    if s.len() == 1 {
        assert(s.drop_last() =~= Seq::<int>::empty());
        assert(s.skip(1) =~= Seq::<int>::empty());
        assert(seq_sum(Seq::<int>::empty()) == 0);
        assert(s.last() == s[0]);
    } else {
        let dl = s.drop_last();
        lemma_sum_first(dl);
        assert(dl.skip(1) =~= s.skip(1).drop_last());
        assert(s.skip(1).last() == s.last());
        assert(seq_sum(s.skip(1)) == seq_sum(s.skip(1).drop_last()) + s.skip(1).last());
        assert(dl[0] == s[0]);
    }
}

/// A sum of bounded observations is bounded by their count times the limit.
pub proof fn lemma_sum_bound(s: Seq<int>)
    requires
        all_obs_ok(s),
    ensures
        -(s.len() * (PRICE_LIMIT as int)) <= seq_sum(s) <= s.len() * (PRICE_LIMIT as int),
    decreases s.len(),
{
    let l = PRICE_LIMIT as int;
    if s.len() == 0 {
    } else {
        let dl = s.drop_last();
        assert forall|i: int| 0 <= i < dl.len() implies obs_ok(#[trigger] dl[i]) by {
            assert(dl[i] == s[i]);
        }
        lemma_sum_bound(dl);
        assert(obs_ok(s.last()));
        let k = s.len() as int;
        assert(k * l == (k - 1) * l + l) by (nonlinear_arith);
        assert(dl.len() as int == k - 1);
    }
}

/// The SMA window has length `n`, and a bounded history gives a bounded
/// window.
pub proof fn lemma_window_props(n: nat, hist: Seq<int>)
    requires
        n >= 1,
        hist.len() >= 1,
        all_obs_ok(hist),
    ensures
        window(n, hist).len() == n,
        all_obs_ok(window(n, hist)),
{
    let c = conceptual(n, hist);
    let w = window(n, hist);
    assert(c.len() == n + hist.len() - 1);
    assert(w.len() == n);
    assert forall|i: int| 0 <= i < w.len() implies obs_ok(#[trigger] w[i]) by {
        let j = c.len() - n + i;
        assert(w[i] == c[j]);
        if j < n {
            assert(c[j] == hist[0]);
        } else {
            assert(c[j] == hist[j - n + 1]);
        }
    }
}

/// Writing one value slides the SMA window by one: the oldest value leaves
/// and the new value enters at the end.
pub proof fn lemma_window_push(n: nat, hist: Seq<int>, x: int)
    requires
        n >= 1,
        hist.len() >= 1,
    ensures
        window(n, hist.push(x)) =~= window(n, hist).skip(1).push(x),
{
    let h2 = hist.push(x);
    let c1 = conceptual(n, hist);
    let c2 = conceptual(n, h2);
    assert(h2[0] == hist[0]);
    assert(h2.skip(1) =~= hist.skip(1).push(x));
    assert(c2 =~= c1.push(x));
    let w1 = window(n, hist);
    let w2 = window(n, h2);
    assert forall|t: int| 0 <= t < n implies w2[t] == w1.skip(1).push(x)[t] by {
        if t < n - 1 {
            assert(w2[t] == c2[c2.len() - n + t]);
            assert(c2[c2.len() - n + t] == c1[c1.len() - n + t + 1]);
            assert(w1[t + 1] == c1[c1.len() - n + t + 1]);
        } else {
            assert(w2[t] == x);
        }
    }
    assert(w2.len() == n);
    assert(w1.skip(1).push(x).len() == n);
}

/// Every element of a nonempty sequence lies between its minimum and its
/// maximum.
pub proof fn lemma_minmax_all(s: Seq<int>)
    requires
        s.len() >= 1,
    ensures
        forall|i: int| 0 <= i < s.len() ==> seq_min(s) <= #[trigger] s[i] <= seq_max(s),
    decreases s.len(),
{
    if s.len() == 1 {
    } else {
        let dl = s.drop_last();
        lemma_minmax_all(dl);
        assert forall|i: int| 0 <= i < s.len() implies seq_min(s) <= #[trigger] s[i]
            <= seq_max(s) by {
            if i < dl.len() {
                assert(dl[i] == s[i]);
            }
        }
    }
}

/// The sum of a nonempty sequence lies between its minimum and its maximum,
/// each scaled by the length.
pub proof fn lemma_sum_between(s: Seq<int>)
    requires
        s.len() >= 1,
    ensures
        seq_min(s) * s.len() <= seq_sum(s) <= seq_max(s) * s.len(),
    decreases s.len(),
{
    let k = s.len() as int;
    if s.len() == 1 {
        assert(s.drop_last() =~= Seq::<int>::empty());
        assert(seq_sum(Seq::<int>::empty()) == 0);
        assert(seq_sum(s) == s[0]);
        assert(seq_min(s) * 1 == seq_min(s)) by (nonlinear_arith);
        assert(seq_max(s) * 1 == seq_max(s)) by (nonlinear_arith);
    } else {
        let dl = s.drop_last();
        lemma_sum_between(dl);
        // seq_min(s) <= seq_min(dl), so the inductive bound transfers.
        lemma_mul_inequality(seq_min(s), seq_min(dl), k - 1);
        lemma_mul_inequality(seq_max(dl), seq_max(s), k - 1);
        assert(seq_min(s) * k == seq_min(s) * (k - 1) + seq_min(s)) by (nonlinear_arith);
        assert(seq_max(s) * k == seq_max(s) * (k - 1) + seq_max(s)) by (nonlinear_arith);
        assert(seq_min(dl) * (k - 1) == (k - 1) * seq_min(dl)) by (nonlinear_arith);
        assert(seq_min(s) * (k - 1) == (k - 1) * seq_min(s)) by (nonlinear_arith);
        assert(seq_max(dl) * (k - 1) == (k - 1) * seq_max(dl)) by (nonlinear_arith);
        assert(seq_max(s) * (k - 1) == (k - 1) * seq_max(s)) by (nonlinear_arith);
    }
}

/// Law: immediately after construction with seed `v` and window `n`, the
/// snapshot reads `{min = v, max = v, curr_avg = v, sma = v, data_point = 1}`
/// (both means as exact rationals equal to `v`).
pub proof fn lemma_initial_snapshot(d: RawData, n: nat, v: int)
    requires
        n >= 1,
        snapshot_matches(d, n, seq![v]),
    ensures
        d.min == v,
        d.max == v,
        ratio_is(d.curr_avg, v),
        ratio_is(d.sma, v),
        d.data_point == 1,
{
    let hist = seq![v];
    assert(hist.drop_last() =~= Seq::<int>::empty());
    assert(seq_sum(Seq::<int>::empty()) == 0);
    assert(seq_sum(hist) == v);
    assert(hist.skip(1) =~= Seq::<int>::empty());
    assert(conceptual(n, hist) =~= Seq::new(n, |i: int| v));
    assert(window(n, hist) =~= conceptual(n, hist));
    lemma_sum_constant(n, v);
    assert(v * 1 == v) by (nonlinear_arith);
    assert(n * v == v * n) by (nonlinear_arith);
}

/// Law: in any snapshot of a nonempty history, the running mean lies between
/// the minimum and the maximum, every observation does too, the count equals
/// the number of observations, and the SMA is a finite rational.
pub proof fn lemma_snapshot_invariant(d: RawData, n: nat, hist: Seq<int>)
    requires
        n >= 1,
        hist.len() >= 1,
        snapshot_matches(d, n, hist),
    ensures
        d.min * d.curr_avg.den <= d.curr_avg.num <= d.max * d.curr_avg.den,
        forall|i: int| 0 <= i < hist.len() ==> d.min <= #[trigger] hist[i] <= d.max,
        d.data_point == hist.len(),
        d.data_point >= 1,
        d.min <= d.max,
        d.sma.den >= 1,
        d.curr_avg.den >= 1,
{
    lemma_minmax_all(hist);
    lemma_sum_between(hist);
    assert(hist[0] == hist[0]);
    assert(seq_min(hist) <= hist[0] <= seq_max(hist));
}

/// Law: along a growing history the count never shrinks, the minimum never
/// rises and the maximum never falls.
pub proof fn lemma_history_monotone(h1: Seq<int>, h2: Seq<int>)
    requires
        1 <= h1.len() <= h2.len(),
        h1 =~= h2.subrange(0, h1.len() as int),
    ensures
        seq_min(h2) <= seq_min(h1),
        seq_max(h2) >= seq_max(h1),
    decreases h2.len(),
{
    if h1.len() == h2.len() {
        assert(h1 =~= h2);
    } else {
        let dl = h2.drop_last();
        assert(h1 =~= dl.subrange(0, h1.len() as int));
        lemma_history_monotone(h1, dl);
    }
}

/// Law: two snapshots taken along one growing history never disagree with
/// time's arrow: the later count is no smaller, the later minimum no larger,
/// and the later maximum no smaller.
pub proof fn lemma_reads_monotone(
    d1: RawData,
    d2: RawData,
    n: nat,
    h1: Seq<int>,
    h2: Seq<int>,
)
    requires
        n >= 1,
        1 <= h1.len() <= h2.len(),
        h1 =~= h2.subrange(0, h1.len() as int),
        snapshot_matches(d1, n, h1),
        snapshot_matches(d2, n, h2),
    ensures
        d2.data_point >= d1.data_point,
        d2.min <= d1.min,
        d2.max >= d1.max,
{
    lemma_history_monotone(h1, h2);
}

/// Law: the published SMA is exactly the mean of the last `n` values of the
/// conceptual stream (`n` copies of the seed, then every written value):
/// its numerator is that window's sum and its denominator is `n`.
pub proof fn lemma_sma_exact(d: RawData, n: nat, hist: Seq<int>)
    requires
        n >= 1,
        hist.len() >= 1,
        snapshot_matches(d, n, hist),
    ensures
        d.sma.num == seq_sum(window(n, hist)),
        d.sma.den == n,
        window(n, hist).len() == n,
{
    assert(conceptual(n, hist).len() == n + hist.len() - 1);
}

/// The sum of `n` copies of `v` is `n * v`.
pub proof fn lemma_sum_constant(n: nat, v: int)
    ensures
        seq_sum(Seq::new(n, |i: int| v)) == n * v,
    decreases n,
{
    let s = Seq::new(n, |i: int| v);
    if n == 0 {
        assert(seq_sum(s) == 0);
    } else {
        let prev = Seq::new((n - 1) as nat, |i: int| v);
        assert(s.drop_last() =~= prev);
        lemma_sum_constant((n - 1) as nat, v);
        assert(n * v == (n - 1) * v + v) by (nonlinear_arith);
    }
}

} // verus!
