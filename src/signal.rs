//! Mathematical model of discrete linear convolution.
//!
//! A signal is a finite `Seq<int>`; outside its index range it is silent
//! (zero). The convolution of an input `x` with an impulse response `h` of
//! length `L >= 1` is the sequence of length `x.len() + L - 1` whose sample
//! `n` is `sum_{j < L} h[j] * x[n - j]`.
use vstd::prelude::*;

verus! {

/// Largest magnitude of a 16-bit sample: `|i16::MIN|`.
pub open spec fn sample_bound() -> int {
    32768
}

/// Largest magnitude of the product of two 16-bit samples.
pub open spec fn product_bound() -> int {
    0x4000_0000
}

/// Sample `i` of `x`, with silence before index 0 and after the end.
pub open spec fn sample_at(x: Seq<int>, i: int) -> int {
    if 0 <= i < x.len() {
        x[i]
    } else {
        0
    }
}

/// The first `k` terms of the convolution sum at output index `n`:
/// `sum_{j < k} h[j] * x[n - j]`.
pub open spec fn tap_sum(h: Seq<int>, x: Seq<int>, n: int, k: int) -> int
    decreases k,
{
    if k <= 0 {
        0
    } else {
        tap_sum(h, x, n, k - 1) + sample_at(h, k - 1) * sample_at(x, n - (k - 1))
    }
}

/// Sample `n` of the convolution of `x` with `h`.
pub open spec fn conv_at(h: Seq<int>, x: Seq<int>, n: int) -> int {
    tap_sum(h, x, n, h.len() as int)
}

/// The full linear convolution of `x` with `h`: `x.len() + h.len() - 1`
/// samples (for a non-empty `h`).
pub open spec fn convolution(h: Seq<int>, x: Seq<int>) -> Seq<int> {
    Seq::new((x.len() + h.len() - 1) as nat, |n: int| conv_at(h, x, n))
}

/// The `L - 1` samples of the convolution that follow the end of `x`: what
/// is still owed once `x` has been emitted.
pub open spec fn tail_of(h: Seq<int>, x: Seq<int>) -> Seq<int> {
    convolution(h, x).subrange(x.len() as int, x.len() + h.len() - 1)
}

/// The blocks one after another.
pub open spec fn joined(blocks: Seq<Seq<int>>) -> Seq<int>
    decreases blocks.len(),
{
    if blocks.len() == 0 {
        Seq::empty()
    } else {
        joined(blocks.drop_last()) + blocks.last()
    }
}

/// What a streaming convolver emits when fed `blocks` in order from a silent
/// start: for each block, the window of the convolution of everything fed so
/// far that the block covers.
pub open spec fn streamed(h: Seq<int>, blocks: Seq<Seq<int>>) -> Seq<int>
    decreases blocks.len(),
{
    if blocks.len() == 0 {
        Seq::empty()
    } else {
        let before = joined(blocks.drop_last());
        let all = joined(blocks);
        streamed(h, blocks.drop_last()) + convolution(h, all).subrange(before.len() as int, all.len() as int)
    }
}

/// `a * x + b * y`, sample by sample, over the length of `x`.
pub open spec fn mix(a: int, x: Seq<int>, b: int, y: Seq<int>) -> Seq<int> {
    Seq::new(x.len(), |i: int| a * x[i] + b * sample_at(y, i))
}

/// A unit impulse at index `k` in a signal of `n` samples.
pub open spec fn unit_impulse(k: int, n: nat) -> Seq<int> {
    Seq::new(n, |i: int| if i == k { 1int } else { 0int })
}

/// Every sample of `x` fits in 16 bits.
pub open spec fn fits_16(x: Seq<int>) -> bool {
    forall|i: int| 0 <= i < x.len() ==> -sample_bound() <= #[trigger] x[i] < sample_bound()
}

/// Widens a sequence of 16-bit samples.
pub open spec fn ints_of_i16(s: Seq<i16>) -> Seq<int> {
    s.map_values(|v: i16| v as int)
}

/// Widens a sequence of 64-bit samples.
pub open spec fn ints_of_i64(s: Seq<i64>) -> Seq<int> {
    s.map_values(|v: i64| v as int)
}

/// `n` samples of silence.
pub open spec fn silence(n: nat) -> Seq<int> {
    Seq::new(n, |i: int| 0)
}

/// Two signals that agree on the `k` input samples read at output index `n`
/// give the same partial sum.
pub proof fn lemma_tap_sum_agree(h: Seq<int>, x: Seq<int>, y: Seq<int>, n: int, k: int)
    requires
        forall|i: int| n - k < i <= n ==> #[trigger] sample_at(x, i) == sample_at(y, i),
    ensures
        tap_sum(h, x, n, k) == tap_sum(h, y, n, k),
    decreases k,
{
    if k > 0 {
        lemma_tap_sum_agree(h, x, y, n, k - 1);
        assert(sample_at(x, n - (k - 1)) == sample_at(y, n - (k - 1)));
    }
}

/// The partial sum is additive in the input signal.
pub proof fn lemma_tap_sum_add(h: Seq<int>, x: Seq<int>, y: Seq<int>, z: Seq<int>, n: int, k: int)
    requires
        forall|i: int| #[trigger] sample_at(z, i) == sample_at(x, i) + sample_at(y, i),
    ensures
        tap_sum(h, z, n, k) == tap_sum(h, x, n, k) + tap_sum(h, y, n, k),
    decreases k,
{
    if k > 0 {
        lemma_tap_sum_add(h, x, y, z, n, k - 1);
        let c = sample_at(h, k - 1);
        let i = n - (k - 1);
        assert(sample_at(z, i) == sample_at(x, i) + sample_at(y, i));
        assert(c * sample_at(z, i) == c * sample_at(x, i) + c * sample_at(y, i)) by (nonlinear_arith)
            requires
                sample_at(z, i) == sample_at(x, i) + sample_at(y, i),
        ;
    }
}

/// The partial sum scales with the input signal.
pub proof fn lemma_tap_sum_scale(h: Seq<int>, x: Seq<int>, z: Seq<int>, a: int, n: int, k: int)
    requires
        forall|i: int| #[trigger] sample_at(z, i) == a * sample_at(x, i),
    ensures
        tap_sum(h, z, n, k) == a * tap_sum(h, x, n, k),
    decreases k,
{
    if k > 0 {
        lemma_tap_sum_scale(h, x, z, a, n, k - 1);
        let c = sample_at(h, k - 1);
        let i = n - (k - 1);
        let t = tap_sum(h, x, n, k - 1);
        assert(sample_at(z, i) == a * sample_at(x, i));
        assert(a * t + c * (a * sample_at(x, i)) == a * (t + c * sample_at(x, i))) by (nonlinear_arith);
    }
}

/// Delaying the input by `d` samples delays the partial sum by `d` samples.
pub proof fn lemma_tap_sum_shift(h: Seq<int>, x: Seq<int>, y: Seq<int>, d: int, n: int, k: int)
    requires
        forall|i: int| #[trigger] sample_at(y, i) == sample_at(x, i - d),
    ensures
        tap_sum(h, y, n, k) == tap_sum(h, x, n - d, k),
    decreases k,
{
    if k > 0 {
        lemma_tap_sum_shift(h, x, y, d, n, k - 1);
        assert(sample_at(y, n - (k - 1)) == sample_at(x, n - (k - 1) - d));
        assert(n - (k - 1) - d == (n - d) - (k - 1));
    }
}

/// Taps past the end of `h` add nothing.
pub proof fn lemma_tap_sum_past_end(h: Seq<int>, x: Seq<int>, n: int, k: int)
    requires
        k >= h.len(),
    ensures
        tap_sum(h, x, n, k) == tap_sum(h, x, n, h.len() as int),
    decreases k,
{
    if k > h.len() {
        lemma_tap_sum_past_end(h, x, n, k - 1);
    }
}

/// Each term of the sum is bounded by the product of two 16-bit samples.
pub proof fn lemma_tap_sum_bound(h: Seq<int>, x: Seq<int>, n: int, k: int)
    requires
        fits_16(h),
        fits_16(x),
        k >= 0,
    ensures
        -k * product_bound() <= tap_sum(h, x, n, k) <= k * product_bound(),
    decreases k,
{
    if k > 0 {
        lemma_tap_sum_bound(h, x, n, k - 1);
        let c = sample_at(h, k - 1);
        let v = sample_at(x, n - (k - 1));
        assert(-sample_bound() <= c <= sample_bound());
        assert(-sample_bound() <= v <= sample_bound());
        assert(-product_bound() <= c * v <= product_bound()) by (nonlinear_arith)
            requires
                -32768 <= c <= 32768,
                -32768 <= v <= 32768,
        ;
    }
}

/// The partial sum reads only taps below `L`, so it is bounded by `L` products.
pub proof fn lemma_tap_sum_bound_taps(h: Seq<int>, x: Seq<int>, n: int, k: int)
    requires
        fits_16(h),
        fits_16(x),
        k >= 0,
    ensures
        -h.len() * product_bound() <= tap_sum(h, x, n, k) <= h.len() * product_bound(),
{
    if k >= h.len() {
        lemma_tap_sum_past_end(h, x, n, k);
        lemma_tap_sum_bound(h, x, n, h.len() as int);
    } else {
        lemma_tap_sum_bound(h, x, n, k);
        assert(k * product_bound() <= h.len() * product_bound()) by (nonlinear_arith)
            requires
                k <= h.len(),
        ;
    }
}

/// Output samples at or past `x.len() + k - 1` read only silence.
pub proof fn lemma_tap_sum_after_end(h: Seq<int>, x: Seq<int>, n: int, k: int)
    requires
        n - k + 1 >= x.len(),
    ensures
        tap_sum(h, x, n, k) == 0,
    decreases k,
{
    if k > 0 {
        lemma_tap_sum_after_end(h, x, n, k - 1);
    }
}

/// A silent input gives a silent output.
pub proof fn lemma_tap_sum_silent(h: Seq<int>, x: Seq<int>, n: int, k: int)
    requires
        forall|i: int| 0 <= i < x.len() ==> #[trigger] x[i] == 0,
    ensures
        tap_sum(h, x, n, k) == 0,
    decreases k,
{
    if k > 0 {
        lemma_tap_sum_silent(h, x, n, k - 1);
    }
}

/// Output samples before index 0 read only silence.
pub proof fn lemma_tap_sum_before_start(h: Seq<int>, x: Seq<int>, n: int, k: int)
    requires
        n < 0,
    ensures
        tap_sum(h, x, n, k) == 0,
    decreases k,
{
    if k > 0 {
        lemma_tap_sum_before_start(h, x, n, k - 1);
    }
}

/// Taps `o .. o + k` of `h`, where `part` holds the samples of `h` from `o`
/// on, contribute the partial sum of `part` delayed by `o`.
pub proof fn lemma_tap_sum_split(h: Seq<int>, part: Seq<int>, o: int, x: Seq<int>, n: int, k: int)
    requires
        o >= 0,
        0 <= k <= part.len(),
        forall|i: int| 0 <= i < part.len() ==> #[trigger] part[i] == sample_at(h, o + i),
    ensures
        tap_sum(h, x, n, o + k) == tap_sum(h, x, n, o) + tap_sum(part, x, n - o, k),
    decreases k,
{
    if k > 0 {
        lemma_tap_sum_split(h, part, o, x, n, k - 1);
        assert(part[k - 1] == sample_at(h, o + k - 1));
        assert(n - (o + k - 1) == (n - o) - (k - 1));
    }
}

/// A sample of `a + b` is the sample of `a` plus that of `b` delayed by `a.len()`.
pub proof fn lemma_sample_at_concat(a: Seq<int>, b: Seq<int>, i: int)
    ensures
        sample_at(a + b, i) == sample_at(a, i) + sample_at(b, i - a.len()),
{
}

/// Convolution of a concatenation splits into the first part's sum and the
/// second part's sum, delayed by the first part's length.
pub proof fn lemma_tap_sum_concat(h: Seq<int>, a: Seq<int>, b: Seq<int>, n: int, k: int)
    ensures
        tap_sum(h, a + b, n, k) == tap_sum(h, a, n, k) + tap_sum(h, b, n - a.len(), k),
{
    let d = a.len() as int;
    let db = Seq::new((d + b.len()) as nat, |i: int| sample_at(b, i - d));
    assert forall|i: int| #[trigger] sample_at(a + b, i) == sample_at(a, i) + sample_at(db, i) by {
        lemma_sample_at_concat(a, b, i);
    }
    lemma_tap_sum_add(h, a, db, a + b, n, k);
    assert forall|i: int| #[trigger] sample_at(db, i) == sample_at(b, i - d) by {}
    lemma_tap_sum_shift(h, b, db, d, n, k);
}

} // verus!
