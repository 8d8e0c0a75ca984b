//! Streaming convolution engine.
//!
//! The engine keeps, as ghost state, every input sample it has been fed
//! since it was built or reset (its history `H`). Each call of `process`
//! appends its block `x` to `H` and emits exactly the samples of the full
//! convolution of the new history that lie in the block's window; the part
//! that still depends on future input stays in the carry store, which always
//! holds the `L - 1` samples that follow the end of `H`.
use vstd::prelude::*;
use vstd::arithmetic::div_mod::{lemma_fundamental_div_mod, lemma_mod_bound};
use crate::signal::{
    conv_at, convolution, fits_16, ints_of_i16, ints_of_i64, lemma_tap_sum_after_end,
    lemma_tap_sum_bound_taps, lemma_tap_sum_concat, lemma_tap_sum_past_end, lemma_tap_sum_silent,
    product_bound, sample_at, silence, tail_of, tap_sum, lemma_tap_sum_before_start, lemma_tap_sum_split,
};

verus! {

/// The longest impulse response, and the largest block size, an engine
/// accepts. Every partial sum that an output sample goes through is then a
/// few sums of at most this many 16-bit products, which fits in an `i64`.
pub const MAX_TAPS: usize = 0x1000_0000;

/// How the engine forms each output sample.
#[derive(Debug, Clone, Copy, PartialEq, Eq, Structural)]
pub enum ConvolutionMode {
    /// Direct sum over every tap of the impulse response.
    TimeDomain,
    /// Partitioned overlap-add: the impulse response is cut once, at
    /// construction, into `block_size`-long chunks (the last one
    /// zero-padded); each call cuts its input into chunks of the same size,
    /// convolves every input chunk with every impulse chunk, and adds each
    /// product into an accumulator at the sum of the two chunks' offsets.
    /// The products are formed directly on the integer samples, so the
    /// output is exactly that of `TimeDomain`, with no added latency.
    FrequencyDomain { block_size: usize },
}

/// Why a call was refused.
#[derive(Debug, Clone, Copy, PartialEq, Eq, Structural)]
pub enum ConvolverError {
    /// An empty impulse response, or a partitioned mode with a zero block size.
    Configuration,
    /// Input and output buffers whose lengths break the call's contract.
    LengthMismatch,
}

/// Applies a fixed impulse response to a stream of 16-bit samples fed in
/// blocks of any size, with exact 64-bit output: full linear convolution,
/// completed by `flush`.
pub struct FastConvolver {
    impulse_response: Vec<i16>,
    mode: ConvolutionMode,
    partitions: Vec<Vec<i16>>,
    carry: Vec<i64>,
    history: Ghost<Seq<int>>,
}

/// `parts` is the impulse response `h` cut into chunks of `b` samples, the
/// last one padded with zeros.
pub open spec fn is_partition(h: Seq<int>, b: int, parts: Seq<Seq<i16>>) -> bool {
    &&& b >= 1
    &&& (parts.len() - 1) * b < h.len() <= parts.len() * b
    &&& forall|p: int|
        0 <= p < parts.len() ==> {
            &&& (#[trigger] parts[p]).len() == b
            &&& forall|k: int| 0 <= k < b ==> parts[p][k] as int == sample_at(h, p * b + k)
        }
}

/// The mode is usable: a partitioned mode has a positive block size.
pub open spec fn mode_valid(mode: ConvolutionMode) -> bool {
    match mode {
        ConvolutionMode::TimeDomain => true,
        ConvolutionMode::FrequencyDomain { block_size } => block_size >= 1,
    }
}

impl FastConvolver {
    /// The impulse response, widened.
    pub closed spec fn impulse(&self) -> Seq<int> {
        ints_of_i16(self.impulse_response@)
    }

    pub closed spec fn mode(&self) -> ConvolutionMode {
        self.mode
    }

    /// Every input sample fed since construction or the last reset.
    pub closed spec fn history(&self) -> Seq<int> {
        self.history@
    }

    /// The `L - 1` samples that `flush` would emit now: the convolution of the
    /// history past the history's end.
    pub open spec fn pending(&self) -> Seq<int> {
        tail_of(self.impulse(), self.history())
    }

    /// The engine is in the state that construction from `h` and `mode`
    /// leaves it in: nothing fed yet, nothing pending.
    pub open spec fn is_fresh(&self, h: Seq<int>, mode: ConvolutionMode) -> bool {
        &&& self.wf()
        &&& self.impulse() == h
        &&& self.mode() == mode
        &&& self.history() == Seq::<int>::empty()
    }

    pub closed spec fn wf(&self) -> bool {
        let h = self.impulse();
        let hist = self.history@;
        &&& 1 <= h.len() <= MAX_TAPS
        &&& fits_16(hist)
        &&& mode_valid(self.mode)
        &&& self.carry@.len() == h.len() - 1
        &&& forall|i: int|
            0 <= i < h.len() - 1 ==> #[trigger] self.carry@[i] as int == conv_at(h, hist, hist.len() + i)
        &&& match self.mode {
            ConvolutionMode::TimeDomain => self.partitions@.len() == 0,
            ConvolutionMode::FrequencyDomain { block_size } => {
                &&& block_size <= MAX_TAPS
                &&& is_partition(h, block_size as int, self.partitions@.map_values(|v: Vec<i16>| v@))
            },
        }
    }

    /// Chunk `p` of the partitioned impulse response, widened.
    closed spec fn part_of(&self, p: int) -> Seq<int> {
        ints_of_i16(self.partitions@[p]@)
    }

    /// Builds an engine for `impulse_response` with silent history.
    ///
    /// Fails with `Configuration` exactly when the impulse response is empty
    /// or a partitioned mode has a zero block size.
    pub fn new(impulse_response: &[i16], mode: ConvolutionMode) -> (r: Result<Self, ConvolverError>)
        requires
            impulse_response.len() <= MAX_TAPS,
            mode matches ConvolutionMode::FrequencyDomain { block_size } ==> block_size <= MAX_TAPS,
        ensures
            r is Err <==> impulse_response.len() == 0 || !mode_valid(mode),
            r matches Err(e) ==> e == ConvolverError::Configuration,
            r matches Ok(c) ==> c.is_fresh(ints_of_i16(impulse_response@), mode),
    {
        if impulse_response.len() == 0 || !Self::mode_is_valid(mode) {
            return Err(ConvolverError::Configuration);
        }
        let len = impulse_response.len();
        let mut ir: Vec<i16> = Vec::new();
        let mut i: usize = 0;
        while i < len
            invariant
                i <= len,
                len == impulse_response.len(),
                ir@ == impulse_response@.subrange(0, i as int),
            decreases len - i,
        {
            ir.push(impulse_response[i]);
            i += 1;
        }
        assert(ir@ =~= impulse_response@);
        let partitions = match mode {
            ConvolutionMode::TimeDomain => Vec::new(),
            ConvolutionMode::FrequencyDomain { block_size } => Self::partition_and_transform_ir(&ir, block_size),
        };
        let carry = zeros(len - 1);
        let c = FastConvolver { impulse_response: ir, mode, partitions, carry, history: Ghost(Seq::empty()) };
        proof {
            lemma_ints_fit(c.impulse_response@);
            assert forall|i: int| 0 <= i < len - 1 implies #[trigger] c.carry@[i] as int == conv_at(
                c.impulse(),
                Seq::empty(),
                i,
            ) by {
                lemma_tap_sum_silent(c.impulse(), Seq::empty(), i, len as int);
            }
        }
        Ok(c)
    }

    /// Feeds the block `input` and writes into `output` the samples of the
    /// full convolution of the history followed by `input` that fall in this
    /// block's window; what lies past the block stays in the carry store.
    ///
    /// Fails with `LengthMismatch`, changing nothing, exactly when the two
    /// buffers differ in length.
    pub fn process(&mut self, input: &[i16], output: &mut [i64]) -> (r: Result<(), ConvolverError>)
        requires
            old(self).wf(),
            input.len() + 2 * MAX_TAPS <= usize::MAX,
        ensures
            final(self).wf(),
            final(self).impulse() == old(self).impulse(),
            final(self).mode() == old(self).mode(),
            r is Err <==> input.len() != old(output).len(),
            r matches Err(e) ==> {
                &&& e == ConvolverError::LengthMismatch
                &&& final(self).history() == old(self).history()
                &&& final(output)@ == old(output)@
            },
            r is Ok ==> {
                &&& final(self).history() == old(self).history() + ints_of_i16(input@)
                &&& ints_of_i64(final(output)@) == convolution(final(self).impulse(), final(self).history()).subrange(
                    old(self).history().len() as int,
                    final(self).history().len() as int,
                )
            },
    {
        if input.len() != output.len() {
            return Err(ConvolverError::LengthMismatch);
        }
        let ghost h = self.impulse();
        let ghost hist = self.history();
        let ghost next = hist + ints_of_i16(input@);
        let n = input.len();
        let tail = self.carry.len();
        let full = match self.mode {
            ConvolutionMode::TimeDomain => self.direct_block(input),
            ConvolutionMode::FrequencyDomain { block_size } => self.partitioned_block(input, block_size),
        };
        let mut m: usize = 0;
        while m < n
            invariant
                n == input.len(),
                tail == h.len() - 1,
                full@.len() >= n + tail,
                forall|i: int| 0 <= i < n + tail ==> #[trigger] full@[i] as int == conv_at(h, next, hist.len() + i),
                output@.len() == n,
                m <= n,
                forall|i: int| 0 <= i < m ==> #[trigger] output@[i] as int == conv_at(h, next, hist.len() + i),
            decreases n - m,
        {
            output[m] = full[m];
            m += 1;
        }
        let mut carry: Vec<i64> = Vec::new();
        let mut i: usize = 0;
        while i < tail
            invariant
                n == input.len(),
                tail == h.len() - 1,
                full@.len() >= n + tail,
                forall|i: int| 0 <= i < n + tail ==> #[trigger] full@[i] as int == conv_at(h, next, hist.len() + i),
                n + tail <= usize::MAX,
                i <= tail,
                carry@.len() == i,
                forall|j: int| 0 <= j < i ==> #[trigger] carry@[j] as int == conv_at(h, next, hist.len() + n + j),
            decreases tail - i,
        {
            assert(n + i < n + tail);
            carry.push(full[n + i]);
            i += 1;
        }
        self.carry = carry;
        self.history = Ghost(next);
        proof {
            lemma_ints_fit(input@);
            assert(ints_of_i64(output@) =~= convolution(h, next).subrange(hist.len() as int, next.len() as int));
        }
        Ok(())
    }

    /// Writes the `L - 1` pending samples into `output`: the tail of the
    /// convolution after the last input sample. The stream then goes on as
    /// if that many samples of silence had been fed.
    ///
    /// Fails with `LengthMismatch`, changing nothing, exactly when `output`
    /// does not hold `L - 1` samples.
    pub fn flush(&mut self, output: &mut [i64]) -> (r: Result<(), ConvolverError>)
        requires
            old(self).wf(),
        ensures
            final(self).wf(),
            final(self).impulse() == old(self).impulse(),
            final(self).mode() == old(self).mode(),
            r is Err <==> old(output).len() != old(self).impulse().len() - 1,
            r matches Err(e) ==> {
                &&& e == ConvolverError::LengthMismatch
                &&& final(self).history() == old(self).history()
                &&& final(output)@ == old(output)@
            },
            r is Ok ==> {
                &&& ints_of_i64(final(output)@) == old(self).pending()
                &&& final(self).history() == old(self).history() + silence((old(self).impulse().len() - 1) as nat)
                &&& final(self).pending() == silence((old(self).impulse().len() - 1) as nat)
            },
    {
        if output.len() != self.carry.len() {
            return Err(ConvolverError::LengthMismatch);
        }
        let ghost h = self.impulse();
        let ghost hist = self.history();
        let tail = self.carry.len();
        let mut i: usize = 0;
        while i < tail
            invariant
                self.wf(),
                h == self.impulse(),
                hist == self.history(),
                tail == h.len() - 1,
                output@.len() == tail,
                i <= tail,
                forall|j: int| 0 <= j < i ==> #[trigger] output@[j] as int == conv_at(h, hist, hist.len() + j),
            decreases tail - i,
        {
            output[i] = self.carry[i];
            i += 1;
        }
        let ghost next = hist + silence(tail as nat);
        self.carry = zeros(tail);
        self.history = Ghost(next);
        proof {
            assert(ints_of_i64(output@) =~= old(self).pending());
            assert forall|j: int| 0 <= j < tail implies #[trigger] self.carry@[j] as int == conv_at(h, next, next.len() + j) by {
                self.lemma_silent_after(hist, tail as nat, j);
            }
            assert forall|j: int| 0 <= j < tail implies #[trigger] self.pending()[j] == silence(tail as nat)[j] by {
                self.lemma_silent_after(hist, tail as nat, j);
            }
            assert(self.pending() =~= silence(tail as nat));
            assert forall|j: int| 0 <= j < next.len() implies -0x8000 <= #[trigger] next[j] < 0x8000 by {
                if j >= hist.len() {
                    assert(next[j] == 0);
                }
            }
        }
        Ok(())
    }

    proof fn lemma_silent_after(&self, hist: Seq<int>, t: nat, j: int)
        requires
            t == self.impulse().len() - 1,
            0 <= j,
        ensures
            conv_at(self.impulse(), hist + silence(t), hist.len() + t + j) == 0,
    {
        let h = self.impulse();
        let n = hist.len() + t + j;
        lemma_tap_sum_concat(h, hist, silence(t), n, h.len() as int);
        lemma_tap_sum_after_end(h, hist, n, h.len() as int);
        lemma_tap_sum_silent(h, silence(t), n - hist.len(), h.len() as int);
    }

    /// Clears the carry store and the history; the impulse response and mode
    /// are kept, so the engine behaves as one freshly built from them.
    pub fn reset(&mut self)
        requires
            old(self).wf(),
        ensures
            final(self).is_fresh(old(self).impulse(), old(self).mode()),
    {
        let tail = self.carry.len();
        self.carry = zeros(tail);
        self.history = Ghost(Seq::empty());
        proof {
            let h = self.impulse();
            assert forall|i: int| 0 <= i < tail implies #[trigger] self.carry@[i] as int == conv_at(h, Seq::empty(), i) by {
                lemma_tap_sum_silent(h, Seq::empty(), i, h.len() as int);
            }
        }
    }

    /// The part of output sample `H.len() + m` carried from the history.
    spec fn carried(&self, m: int) -> int {
        if m < self.carry@.len() {
            self.carry@[m] as int
        } else {
            0
        }
    }

    proof fn lemma_carried(&self, m: int)
        requires
            self.wf(),
            m >= 0,
        ensures
            self.carried(m) == tap_sum(self.impulse(), self.history(), self.history().len() + m, self.impulse().len() as int),
            -self.impulse().len() * product_bound() <= self.carried(m) <= self.impulse().len() * product_bound(),
            self.impulse().len() * product_bound() <= 0x0400_0000_0000_0000,
    {
        assert(self.impulse().len() * product_bound() <= 0x0400_0000_0000_0000) by (nonlinear_arith)
            requires
                self.impulse().len() <= 0x1000_0000,
        ;
        let h = self.impulse();
        let hist = self.history();
        lemma_ints_fit(self.impulse_response@);
        if m >= h.len() - 1 {
            lemma_tap_sum_after_end(h, hist, hist.len() + m, h.len() as int);
        } else {
            assert(self.carry@[m] as int == conv_at(h, hist, hist.len() + m));
        }
        lemma_tap_sum_bound_taps(h, hist, hist.len() + m, h.len() as int);
    }

    /// Sample `H.len() + m` of the convolution of the history followed by `x`,
    /// summed tap by tap.
    fn direct_sample(&self, x: &[i16], m: usize) -> (r: i64)
        requires
            self.wf(),
        ensures
            r == conv_at(self.impulse(), self.history() + ints_of_i16(x@), self.history().len() + m),
    {
        let ghost h = self.impulse();
        let ghost xs = ints_of_i16(x@);
        let len = self.impulse_response.len();
        proof {
            self.lemma_carried(m as int);
            lemma_ints_fit(self.impulse_response@);
            lemma_ints_fit(x@);
        }
        let mut acc: i64 = if m < self.carry.len() { self.carry[m] } else { 0 };
        let mut j: usize = 0;
        while j < len
            invariant
                self.wf(),
                h == self.impulse(),
                xs == ints_of_i16(x@),
                fits_16(h),
                fits_16(xs),
                len == h.len(),
                j <= len,
                acc == self.carried(m as int) + tap_sum(h, xs, m as int, j as int),
            decreases len - j,
        {
            proof {
                self.lemma_carried(m as int);
                lemma_tap_sum_bound_taps(h, xs, m as int, j + 1);
            }
            assert(tap_sum(h, xs, m as int, j + 1) == tap_sum(h, xs, m as int, j as int) + sample_at(h, j as int) * sample_at(xs, m - j));
            if j <= m && m - j < x.len() {
                assert(sample_at(h, j as int) == self.impulse_response@[j as int] as int);
                assert(sample_at(xs, m - j) == x@[m - j] as int);
                let prod = product(self.impulse_response[j], x[m - j]);
                assert(prod == sample_at(h, j as int) * sample_at(xs, m - j));
                assert(acc + prod == self.carried(m as int) + tap_sum(h, xs, m as int, j + 1));
                acc = acc + prod;
            }
            j += 1;
        }
        proof {
            self.lemma_carried(m as int);
            lemma_tap_sum_concat(h, self.history(), xs, self.history().len() + m, len as int);
        }
        acc
    }

    /// Samples `H.len() .. H.len() + x.len() + L - 1` of the convolution of
    /// the history followed by `x`, each summed tap by tap.
    fn direct_block(&self, x: &[i16]) -> (r: Vec<i64>)
        requires
            self.wf(),
            x.len() + 2 * MAX_TAPS <= usize::MAX,
        ensures
            r@.len() >= x.len() + self.impulse().len() - 1,
            forall|m: int|
                0 <= m < x.len() + self.impulse().len() - 1 ==> #[trigger] r@[m] as int == conv_at(
                    self.impulse(),
                    self.history() + ints_of_i16(x@),
                    self.history().len() + m,
                ),
    {
        let total = x.len() + self.carry.len();
        let mut r: Vec<i64> = Vec::new();
        let mut m: usize = 0;
        while m < total
            invariant
                self.wf(),
                total == x.len() + self.impulse().len() - 1,
                m <= total,
                r@.len() == m,
                forall|i: int|
                    0 <= i < m ==> #[trigger] r@[i] as int == conv_at(
                        self.impulse(),
                        self.history() + ints_of_i16(x@),
                        self.history().len() + i,
                    ),
            decreases total - m,
        {
            r.push(self.direct_sample(x, m));
            m += 1;
        }
        r
    }

    /// The same samples by partitioned overlap-add: the input is cut into
    /// `block_size` chunks, each chunk is convolved with each partition of the
    /// impulse response, and each product is added into the accumulator at
    /// the chunk's offset plus the partition's offset. The accumulator starts
    /// from the carried samples.
    fn partitioned_block(&self, x: &[i16], block_size: usize) -> (r: Vec<i64>)
        requires
            self.wf(),
            self.mode() == (ConvolutionMode::FrequencyDomain { block_size }),
            x.len() + 2 * MAX_TAPS <= usize::MAX,
        ensures
            r@.len() >= x.len() + self.impulse().len() - 1,
            forall|m: int|
                0 <= m < x.len() + self.impulse().len() - 1 ==> #[trigger] r@[m] as int == conv_at(
                    self.impulse(),
                    self.history() + ints_of_i16(x@),
                    self.history().len() + m,
                ),
    {
        let ghost h = self.impulse();
        let ghost hist = self.history();
        let ghost xs = ints_of_i16(x@);
        let ghost b = block_size as int;
        let ghost parts = self.partitions@.map_values(|v: Vec<i16>| v@);
        let n = x.len();
        let count = self.partitions.len();
        proof {
            lemma_ints_fit(self.impulse_response@);
            lemma_ints_fit(x@);
            assert(count * b < h.len() + b) by (nonlinear_arith)
                requires
                    (count - 1) * b < h.len(),
            ;
        }
        let reach = count * block_size;
        let total = n + reach - 1;
        let ghost pb = reach as int;
        let mut acc: Vec<i64> = Vec::new();
        let mut m: usize = 0;
        while m < total
            invariant
                self.wf(),
                m <= total,
                acc@.len() == m,
                forall|i: int| 0 <= i < m ==> #[trigger] acc@[i] as int == self.carried(i),
            decreases total - m,
        {
            acc.push(if m < self.carry.len() { self.carry[m] } else { 0 });
            m += 1;
        }
        proof {
            assert forall|i: int| 0 <= i < total implies #[trigger] acc@[i] as int == self.carried(i) + tap_sum(h, xs.take(0), i, pb) by {
                lemma_tap_sum_silent(h, xs.take(0), i, pb);
            }
        }
        let mut start: usize = 0;
        while start < n
            invariant
                self.wf(),
                self.mode() == (ConvolutionMode::FrequencyDomain { block_size }),
                h == self.impulse(),
                hist == self.history(),
                xs == ints_of_i16(x@),
                fits_16(h),
                fits_16(xs),
                parts == self.partitions@.map_values(|v: Vec<i16>| v@),
                is_partition(h, b, parts),
                b == block_size,
                1 <= b <= MAX_TAPS,
                count == parts.len(),
                pb == count * b,
                h.len() <= pb < h.len() + b,
                n == x.len(),
                n + 2 * MAX_TAPS <= usize::MAX,
                total == n + pb - 1,
                start <= n,
                acc@.len() == total,
                forall|i: int| 0 <= i < total ==> #[trigger] acc@[i] as int == self.carried(i) + tap_sum(h, xs.take(start as int), i, pb),
            decreases n - start,
        {
            let end = if n - start < block_size { n } else { start + block_size };
            let ghost before = xs.take(start as int);
            let ghost chunk = xs.subrange(start as int, end as int);
            assert(fits_16(before) && fits_16(chunk)) by {
                assert forall|i: int| 0 <= i < before.len() implies -0x8000 <= #[trigger] before[i] < 0x8000 by {
                    assert(before[i] == xs[i]);
                }
                assert forall|i: int| 0 <= i < chunk.len() implies -0x8000 <= #[trigger] chunk[i] < 0x8000 by {
                    assert(chunk[i] == xs[start + i]);
                }
            }
            let mut p: usize = 0;
            while p < count
                invariant
                    self.wf(),
                    self.mode() == (ConvolutionMode::FrequencyDomain { block_size }),
                    h == self.impulse(),
                    xs == ints_of_i16(x@),
                    fits_16(h),
                    fits_16(xs),
                    parts == self.partitions@.map_values(|v: Vec<i16>| v@),
                    is_partition(h, b, parts),
                    b == block_size,
                    1 <= b <= MAX_TAPS,
                    count == parts.len(),
                    pb == count * b,
                    h.len() <= pb < h.len() + b,
                    n == x.len(),
                    n + 2 * MAX_TAPS <= usize::MAX,
                    total == n + pb - 1,
                    start < end <= n,
                    end - start <= b,
                    before == xs.take(start as int),
                    chunk == xs.subrange(start as int, end as int),
                    fits_16(before),
                    fits_16(chunk),
                    p <= count,
                    acc@.len() == total,
                    forall|i: int| 0 <= i < total ==> #[trigger] acc@[i] as int == self.carried(i) + tap_sum(h, before, i, pb) + tap_sum(h, chunk, i - start, p * b),
                decreases count - p,
            {
                proof {
                    assert(p * b + b <= pb) by (nonlinear_arith)
                        requires
                            p < count,
                            pb == count * b,
                            b >= 1,
                    ;
                    assert(parts[p as int] == self.partitions@[p as int]@);
                }
                let offset = start + p * block_size;
                let span = (end - start) + block_size - 1;
                let ghost part = self.part_of(p as int);
                let ghost base = acc@;
                proof {
                    assert forall|i: int| 0 <= i < b implies #[trigger] part[i] == sample_at(h, p * b + i) by {
                        assert(parts[p as int] == self.partitions@[p as int]@);
                    }
                }
                let mut t: usize = 0;
                while t < span
                    invariant
                        self.wf(),
                        self.mode() == (ConvolutionMode::FrequencyDomain { block_size }),
                        h == self.impulse(),
                        xs == ints_of_i16(x@),
                        fits_16(h),
                        fits_16(xs),
                        b == block_size,
                        1 <= b <= MAX_TAPS,
                        p < count,
                        count == self.partitions@.len(),
                        part == self.part_of(p as int),
                        part.len() == b,
                        forall|i: int| 0 <= i < b ==> #[trigger] part[i] == sample_at(h, p * b + i),
                        total == n + pb - 1,
                        h.len() <= pb,
                        n == x.len(),
                        start < end <= n,
                        chunk == xs.subrange(start as int, end as int),
                        fits_16(before),
                        fits_16(chunk),
                        offset == start + p * b,
                        span == (end - start) + b - 1,
                        offset + span <= total,
                        t <= span,
                        acc@.len() == total,
                        base.len() == total,
                        forall|i: int| 0 <= i < total ==> #[trigger] base[i] as int == self.carried(i) + tap_sum(h, before, i, pb) + tap_sum(h, chunk, i - start, p * b),
                        forall|i: int|
                            0 <= i < total ==> #[trigger] acc@[i] as int == base[i] as int + (if offset <= i < offset + t {
                                tap_sum(part, chunk, i - offset, b)
                            } else {
                                0
                            }),
                    decreases span - t,
                {
                    let v = self.chunk_product(p, block_size, x, start, end, t);
                    let at = offset + t;
                    proof {
                        let i = at as int;
                        self.lemma_carried(i);
                        lemma_ints_fit(x@);
                        lemma_tap_sum_bound_taps(h, before, i, pb);
                        lemma_tap_sum_bound_taps(h, chunk, i - start, p * b);
                    }
                    acc.set(at, acc[at] + v);
                    t += 1;
                }
                proof {
                    assert forall|i: int| 0 <= i < total implies #[trigger] acc@[i] as int == self.carried(i) + tap_sum(h, before, i, pb) + tap_sum(h, chunk, i - start, (p + 1) * b) by {
                        if i < offset {
                            lemma_tap_sum_before_start(part, chunk, i - offset, b);
                        } else if i >= offset + span {
                            lemma_tap_sum_after_end(part, chunk, i - offset, b);
                        }
                        lemma_tap_sum_split(h, part, p * b, chunk, i - start, b);
                        assert(p * b + b == (p + 1) * b) by (nonlinear_arith);
                    }
                }
                p += 1;
            }
            proof {
                assert(xs.take(end as int) =~= before + chunk);
                assert forall|i: int| 0 <= i < total implies #[trigger] acc@[i] as int == self.carried(i) + tap_sum(h, xs.take(end as int), i, pb) by {
                    lemma_tap_sum_concat(h, before, chunk, i, pb);
                }
            }
            start = end;
        }
        proof {
            assert(xs.take(n as int) =~= xs);
            assert forall|i: int| 0 <= i < n + h.len() - 1 implies #[trigger] acc@[i] as int == conv_at(h, hist + xs, hist.len() + i) by {
                self.lemma_carried(i);
                lemma_tap_sum_past_end(h, xs, i, pb);
                lemma_tap_sum_concat(h, hist, xs, hist.len() + i, h.len() as int);
            }
        }
        acc
    }

    /// Sample `t` of the convolution of chunk `x[start..end]` of the input
    /// with partition `p` of the impulse response.
    fn chunk_product(&self, p: usize, block_size: usize, x: &[i16], start: usize, end: usize, t: usize) -> (r: i64)
        requires
            self.wf(),
            self.mode() == (ConvolutionMode::FrequencyDomain { block_size }),
            p < self.partitions@.len(),
            start <= end <= x.len(),
        ensures
            r == tap_sum(self.part_of(p as int), ints_of_i16(x@).subrange(start as int, end as int), t as int, block_size as int),
            ({
                let bound = 2 * self.impulse().len() * product_bound();
                -bound <= r <= bound
            }),
    {
        let ghost h = self.impulse();
        let ghost b = block_size as int;
        let ghost part = self.part_of(p as int);
        let ghost chunk = ints_of_i16(x@).subrange(start as int, end as int);
        let ghost parts = self.partitions@.map_values(|v: Vec<i16>| v@);
        let part_vec = &self.partitions[p];
        proof {
            lemma_ints_fit(self.impulse_response@);
            lemma_ints_fit(x@);
            assert(parts[p as int] == part_vec@);
            assert(p * b < h.len()) by (nonlinear_arith)
                requires
                    p < parts.len(),
                    (parts.len() - 1) * b < h.len(),
                    b >= 1,
            ;
            assert forall|i: int| 0 <= i < b implies #[trigger] part[i] == sample_at(h, p * b + i) by {}
            self.lemma_carried(0);
        }
        let mut acc: i64 = 0;
        let mut k: usize = 0;
        while k < block_size
            invariant
                self.wf(),
                h == self.impulse(),
                fits_16(h),
                fits_16(chunk),
                b == block_size,
                b >= 1,
                part == self.part_of(p as int),
                part_vec@.len() == b,
                part == ints_of_i16(part_vec@),
                forall|i: int| 0 <= i < b ==> #[trigger] part[i] == sample_at(h, p * b + i),
                chunk == ints_of_i16(x@).subrange(start as int, end as int),
                start <= end <= x.len(),
                h.len() * product_bound() <= 0x0400_0000_0000_0000,
                k <= b,
                acc == tap_sum(part, chunk, t as int, k as int),
            decreases b - k,
        {
            proof {
                lemma_tap_sum_split(h, part, p * b, chunk, t + p * b, k + 1);
                lemma_tap_sum_bound_taps(h, chunk, t + p * b, p * b + k + 1);
                lemma_tap_sum_bound_taps(h, chunk, t + p * b, p * b);
            }
            if k <= t && t - k < end - start {
                let prod = product(part_vec[k], x[start + (t - k)]);
                assert(prod == sample_at(part, k as int) * sample_at(chunk, t - k));
                acc = acc + prod;
            }
            k += 1;
        }
        proof {
            lemma_tap_sum_split(h, part, p * b, chunk, t + p * b, b);
            lemma_tap_sum_bound_taps(h, chunk, t + p * b, p * b + b);
            lemma_tap_sum_bound_taps(h, chunk, t + p * b, p * b);
        }
        acc
    }

    /// Cuts the impulse response `h` into chunks of `block_size` samples,
    /// zero-padding the last one, as the partitioned mode uses them. The chunks
    /// stay in the time domain: the engine multiplies them directly with exact
    /// integer samples, so no spectral transform is taken.
    pub fn partition_and_transform_ir(h: &[i16], block_size: usize) -> (r: Vec<Vec<i16>>)
        requires
            1 <= h@.len() <= MAX_TAPS,
            block_size >= 1,
        ensures
            is_partition(ints_of_i16(h@), block_size as int, r@.map_values(|v: Vec<i16>| v@)),
    {
        let len = h.len();
        let count = if len % block_size == 0 { len / block_size } else { len / block_size + 1 };
        let ghost hs = ints_of_i16(h@);
        let ghost b = block_size as int;
        proof {
            let li = len as int;
            let q = li / b;
            let rem = li % b;
            lemma_fundamental_div_mod(li, b);
            lemma_mod_bound(li, b);
            assert(count == (if rem == 0 { q } else { q + 1 }));
            assert((count - 1) * b < li <= count * b) by (nonlinear_arith)
                requires
                    b >= 1,
                    li == b * q + rem,
                    0 <= rem < b,
                    count == (if rem == 0 { q } else { q + 1 }),
            ;
        }
        let mut parts: Vec<Vec<i16>> = Vec::new();
        let mut p: usize = 0;
        while p < count
            invariant
                p <= count,
                len == h@.len(),
                hs == ints_of_i16(h@),
                b == block_size,
                b >= 1,
                (count - 1) * b < len,
                parts@.len() == p,
                forall|q: int|
                    0 <= q < p ==> {
                        &&& (#[trigger] parts@[q])@.len() == b
                        &&& forall|k: int| 0 <= k < b ==> parts@[q]@[k] as int == sample_at(hs, q * b + k)
                    },
            decreases count - p,
        {
            assert(p * b < len) by (nonlinear_arith)
                requires
                    p < count,
                    (count - 1) * b < len,
                    b >= 1,
            ;
            let offset = p * block_size;
            let mut chunk: Vec<i16> = Vec::new();
            let mut k: usize = 0;
            while k < block_size
                invariant
                    k <= block_size,
                    offset == p * b,
                    offset < len,
                    len == h@.len(),
                    hs == ints_of_i16(h@),
                    b == block_size,
                    chunk@.len() == k,
                    forall|j: int| 0 <= j < k ==> chunk@[j] as int == sample_at(hs, p * b + j),
                decreases block_size - k,
            {
                if k < len - offset {
                    chunk.push(h[offset + k]);
                } else {
                    chunk.push(0);
                }
                k += 1;
            }
            parts.push(chunk);
            p += 1;
        }
        let ghost views = parts@.map_values(|v: Vec<i16>| v@);
        assert forall|q: int| 0 <= q < views.len() implies {
            &&& (#[trigger] views[q]).len() == b
            &&& forall|k: int| 0 <= k < b ==> views[q][k] as int == sample_at(hs, q * b + k)
        } by {
            assert(views[q] == parts@[q]@);
        }
        parts
    }

    fn mode_is_valid(mode: ConvolutionMode) -> (r: bool)
        ensures
            r == mode_valid(mode),
    {
        match mode {
            ConvolutionMode::TimeDomain => true,
            ConvolutionMode::FrequencyDomain { block_size } => block_size >= 1,
        }
    }
}

proof fn lemma_ints_fit(s: Seq<i16>)
    ensures
        fits_16(ints_of_i16(s)),
{
}

/// The exact product of two 16-bit samples.
fn product(a: i16, b: i16) -> (r: i64)
    ensures
        r == a as int * b as int,
{
    let (wa, wb) = (a as i64, b as i64);
    assert(-0x4000_0000 <= wa * wb <= 0x4000_0000) by (nonlinear_arith)
        requires
            -0x8000 <= wa < 0x8000,
            -0x8000 <= wb < 0x8000,
    ;
    wa * wb
}

/// A vector of `n` zeros.
fn zeros(n: usize) -> (r: Vec<i64>)
    ensures
        r@.len() == n,
        forall|i: int| 0 <= i < n ==> r@[i] == 0,
{
    let mut r: Vec<i64> = Vec::new();
    let mut i: usize = 0;
    while i < n
        invariant
            i <= n,
            r@.len() == i,
            forall|j: int| 0 <= j < i ==> r@[j] == 0,
        decreases n - i,
    {
        r.push(0);
        i += 1;
    }
    r
}

} // verus!
