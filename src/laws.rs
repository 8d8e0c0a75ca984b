//! Properties of streaming convolution, stated over the model in `signal`
//! that the engine's contracts use.
use vstd::prelude::*;
use crate::signal::{
    conv_at, convolution, joined, lemma_tap_sum_add, lemma_tap_sum_agree, lemma_tap_sum_scale,
    mix, sample_at, streamed, tail_of, tap_sum, unit_impulse,
};

verus! {

/// Linearity: convolving `a * x + b * y` gives `a` times the convolution of
/// `x` plus `b` times that of `y`.
pub proof fn lemma_linearity(h: Seq<int>, x: Seq<int>, y: Seq<int>, a: int, b: int)
    requires
        h.len() >= 1,
        x.len() == y.len(),
    ensures
        convolution(h, mix(a, x, b, y)) == mix(a, convolution(h, x), b, convolution(h, y)),
{
    let z = mix(a, x, b, y);
    let ax = Seq::new(x.len(), |i: int| a * x[i]);
    let by = Seq::new(y.len(), |i: int| b * y[i]);
    assert forall|i: int| #[trigger] sample_at(ax, i) == a * sample_at(x, i) by {}
    assert forall|i: int| #[trigger] sample_at(by, i) == b * sample_at(y, i) by {}
    assert forall|i: int| #[trigger] sample_at(z, i) == sample_at(ax, i) + sample_at(by, i) by {}
    let lhs = convolution(h, z);
    let rhs = mix(a, convolution(h, x), b, convolution(h, y));
    assert forall|n: int| 0 <= n < lhs.len() implies #[trigger] lhs[n] == rhs[n] by {
        let k = h.len() as int;
        lemma_tap_sum_add(h, ax, by, z, n, k);
        lemma_tap_sum_scale(h, x, ax, a, n, k);
        lemma_tap_sum_scale(h, y, by, b, n, k);
    }
    assert(lhs =~= rhs);
}

/// The convolution up to index `n` reads only the input up to index `n`.
pub proof fn lemma_causal(h: Seq<int>, x: Seq<int>, extra: Seq<int>, n: int)
    requires
        n < x.len(),
    ensures
        conv_at(h, x + extra, n) == conv_at(h, x, n),
{
    assert forall|i: int| n - h.len() < i <= n implies #[trigger] sample_at(x + extra, i) == sample_at(x, i) by {}
    lemma_tap_sum_agree(h, x + extra, x, n, h.len() as int);
}

/// What the stream has emitted before `flush` is the convolution of all its
/// input, up to the input's length.
pub proof fn lemma_streamed_prefix(h: Seq<int>, blocks: Seq<Seq<int>>)
    requires
        h.len() >= 1,
    ensures
        streamed(h, blocks) == convolution(h, joined(blocks)).subrange(0, joined(blocks).len() as int),
    decreases blocks.len(),
{
    if blocks.len() > 0 {
        let front = blocks.drop_last();
        let before = joined(front);
        let all = joined(blocks);
        lemma_streamed_prefix(h, front);
        assert(all == before + blocks.last());
        let lhs = streamed(h, blocks);
        let rhs = convolution(h, all).subrange(0, all.len() as int);
        assert forall|i: int| 0 <= i < all.len() implies #[trigger] lhs[i] == rhs[i] by {
            if i < before.len() {
                lemma_causal(h, before, blocks.last(), i);
            }
        }
        assert(lhs =~= rhs);
    } else {
        assert(streamed(h, blocks) =~= convolution(h, joined(blocks)).subrange(0, 0));
    }
}

/// Block-size invariance: however the input is cut into blocks, feeding them
/// in order and then flushing emits the convolution of the whole input, the
/// same samples as feeding it in one block.
pub proof fn lemma_block_size_invariance(h: Seq<int>, blocks: Seq<Seq<int>>)
    requires
        h.len() >= 1,
    ensures
        streamed(h, blocks) == streamed(h, seq![joined(blocks)]),
        streamed(h, blocks) + tail_of(h, joined(blocks)) == convolution(h, joined(blocks)),
{
    let x = joined(blocks);
    let single = seq![x];
    lemma_streamed_prefix(h, blocks);
    lemma_streamed_prefix(h, single);
    assert(single.drop_last() =~= Seq::<Seq<int>>::empty());
    assert(joined(single) =~= x);
    assert(streamed(h, blocks) + tail_of(h, x) =~= convolution(h, x));
}

/// Tail completeness: the tail holds `L - 1` samples, and with what the
/// stream emitted before it, `input length + L - 1` samples in all.
pub proof fn lemma_tail_completeness(h: Seq<int>, blocks: Seq<Seq<int>>)
    requires
        h.len() >= 1,
    ensures
        tail_of(h, joined(blocks)).len() == h.len() - 1,
        (streamed(h, blocks) + tail_of(h, joined(blocks))).len() == joined(blocks).len() + h.len() - 1,
{
    lemma_streamed_prefix(h, blocks);
}

proof fn lemma_tap_sum_impulse(h: Seq<int>, k: int, len: nat, n: int, taps: int)
    requires
        0 <= k < len,
        0 <= taps <= h.len(),
    ensures
        tap_sum(h, unit_impulse(k, len), n, taps) == if 0 <= n - k < taps { h[n - k] } else { 0 },
    decreases taps,
{
    if taps > 0 {
        lemma_tap_sum_impulse(h, k, len, n, taps - 1);
    }
}

/// Shift: the convolution of a unit impulse at index `k` is the impulse
/// response itself, starting at index `k`, and silence elsewhere.
pub proof fn lemma_impulse_shift(h: Seq<int>, k: int, n: nat)
    requires
        h.len() >= 1,
        0 <= k < n,
    ensures
        convolution(h, unit_impulse(k, n)).len() == n + h.len() - 1,
        forall|i: int|
            0 <= i < n + h.len() - 1 ==> #[trigger] convolution(h, unit_impulse(k, n))[i] == sample_at(h, i - k),
{
    assert forall|i: int| 0 <= i < n + h.len() - 1 implies #[trigger] convolution(h, unit_impulse(k, n))[i] == sample_at(h, i - k) by {
        lemma_tap_sum_impulse(h, k, n, i, h.len() as int);
    }
}

/// Linearity holds of the stream too: mixing two inputs cut into blocks of
/// the same sizes mixes what the stream emits, for every way of cutting.
pub proof fn lemma_streamed_linearity(h: Seq<int>, xs: Seq<Seq<int>>, ys: Seq<Seq<int>>, a: int, b: int)
    requires
        h.len() >= 1,
        xs.len() == ys.len(),
        forall|i: int| 0 <= i < xs.len() ==> (#[trigger] xs[i]).len() == ys[i].len(),
    ensures
        streamed(h, Seq::new(xs.len(), |i: int| mix(a, xs[i], b, ys[i])))
            == mix(a, streamed(h, xs), b, streamed(h, ys)),
{
    let zs = Seq::new(xs.len(), |i: int| mix(a, xs[i], b, ys[i]));
    lemma_joined_mix(xs, ys, a, b);
    lemma_streamed_prefix(h, zs);
    lemma_streamed_prefix(h, xs);
    lemma_streamed_prefix(h, ys);
    let jx = joined(xs);
    let jy = joined(ys);
    lemma_linearity(h, jx, jy, a, b);
    let lhs = streamed(h, zs);
    let rhs = mix(a, streamed(h, xs), b, streamed(h, ys));
    assert forall|i: int| 0 <= i < lhs.len() implies #[trigger] lhs[i] == rhs[i] by {
        assert(convolution(h, mix(a, jx, b, jy))[i] == mix(a, convolution(h, jx), b, convolution(h, jy))[i]);
    }
    assert(lhs =~= rhs);
}

proof fn lemma_joined_mix(xs: Seq<Seq<int>>, ys: Seq<Seq<int>>, a: int, b: int)
    requires
        xs.len() == ys.len(),
        forall|i: int| 0 <= i < xs.len() ==> (#[trigger] xs[i]).len() == ys[i].len(),
    ensures
        joined(Seq::new(xs.len(), |i: int| mix(a, xs[i], b, ys[i]))) == mix(a, joined(xs), b, joined(ys)),
        joined(xs).len() == joined(ys).len(),
    decreases xs.len(),
{
    let zs = Seq::new(xs.len(), |i: int| mix(a, xs[i], b, ys[i]));
    if xs.len() > 0 {
        let fx = xs.drop_last();
        let fy = ys.drop_last();
        lemma_joined_mix(fx, fy, a, b);
        let fz = Seq::new(fx.len(), |i: int| mix(a, fx[i], b, fy[i]));
        assert(zs.drop_last() =~= fz);
        let lhs = joined(zs);
        let rhs = mix(a, joined(xs), b, joined(ys));
        assert(lhs.len() == rhs.len());
        assert forall|i: int| 0 <= i < lhs.len() implies #[trigger] lhs[i] == rhs[i] by {
            if i >= joined(fx).len() {
                assert(lhs[i] == zs.last()[i - joined(fx).len()]);
            }
        }
        assert(lhs =~= rhs);
    } else {
        assert(joined(zs) =~= mix(a, joined(xs), b, joined(ys)));
    }
}

} // verus!
