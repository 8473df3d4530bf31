//! Real-time audio buffer processing over Q15 fixed-point samples.
//!
//! A sample is an `i32` holding a Q15 fixed-point value: the sample `s`
//! stands for the real amplitude `s / 32768`, so `32768` is full scale
//! (`1.0`), `-32768` is `-1.0`, and values outside that range are legal
//! everywhere except where an operation documents otherwise (clipping,
//! normalization). Gain factors and filter coefficients use the same Q15
//! convention: `32768` is unity gain.
//!
//! The crate is organized into three layers:
//! - `fixed`: scalar Q15 arithmetic and its specification,
//! - `unsafe_primitives`: buffer-level operations,
//! - processors (this module): gain stages ([`AudioProcessor`]), effect
//!   chains ([`StreamProcessor`]), and a capacity-only transport
//!   placeholder ([`RingBuffer`]).
//!
//! The `laws` module proves the algebraic properties that relate the
//! operations — round trips, peak normalization, RMS of a constant
//! signal — once for all inputs.

use vstd::prelude::*;

pub mod fixed;
pub mod laws;
pub mod unsafe_primitives;

use crate::fixed::{q15_mul, SCALE};
use crate::unsafe_primitives::{all_fit, fits_sample, gain_seq, sample_vals};

verus! {

/// A buffer after an effect chain: each gain applied in order.
pub open spec fn chain_seq(gains: Seq<int>, s: Seq<int>) -> Seq<int>
    decreases gains.len(),
{
    if gains.len() == 0 {
        s
    } else {
        chain_seq(gains.drop_first(), gain_seq(s, gains.first()))
    }
}

/// Whether every intermediate buffer of an effect chain fits the sample
/// type.
pub open spec fn chain_fits(gains: Seq<int>, s: Seq<int>) -> bool
    decreases gains.len(),
{
    gains.len() == 0 || (all_fit(gain_seq(s, gains.first())) && chain_fits(
        gains.drop_first(),
        gain_seq(s, gains.first()),
    ))
}

/// One chain stage unfolded: after `k` stages, stage `k` applies its gain
/// to the intermediate buffer, and the chain's fit condition covers it.
pub proof fn lemma_chain_step(gains: Seq<int>, s: Seq<int>, k: int)
    requires
        0 <= k < gains.len(),
        chain_fits(gains, s),
    ensures
        all_fit(gain_seq(chain_seq(gains.take(k), s), gains[k])),
        chain_seq(gains.take(k + 1), s) == gain_seq(chain_seq(gains.take(k), s), gains[k]),
    decreases k,
{
    let s1 = gain_seq(s, gains.first());
    if k == 0 {
        assert(gains.take(0) =~= Seq::<int>::empty());
        assert(chain_seq(gains.take(0), s) == s);
        assert(gains.take(1).first() == gains[0]);
        assert(gains.take(1).drop_first() =~= Seq::<int>::empty());
        assert(chain_seq(gains.take(1), s) == chain_seq(
            Seq::<int>::empty(),
            gain_seq(s, gains[0]),
        ));
    } else {
        lemma_chain_step(gains.drop_first(), s1, k - 1);
        assert(gains.drop_first().take(k - 1) =~= gains.take(k).drop_first());
        assert(gains.drop_first().take(k) =~= gains.take(k + 1).drop_first());
        assert(gains.take(k).first() == gains.first());
        assert(gains.take(k + 1).first() == gains.first());
        assert(gains.drop_first()[k - 1] == gains[k]);
        assert(chain_seq(gains.take(k), s) == chain_seq(gains.take(k).drop_first(), s1));
        assert(chain_seq(gains.take(k + 1), s) == chain_seq(gains.take(k + 1).drop_first(), s1));
    }
}

/// A single-stage gain processor.
///
/// Holds one Q15 gain factor (`32768` is unity, the default) and a
/// buffer-size hint (default `1024`). The hint is configuration only: it
/// is not enforced against the buffers handed to [`Self::process`]. A
/// hint of zero is a configuration error and is ruled out at
/// construction.
pub struct AudioProcessor {
    gain: i32,
    buffer_size: usize,
}

impl AudioProcessor {
    /// The processor's Q15 gain factor.
    pub closed spec fn gain_spec(&self) -> int {
        self.gain as int
    }

    /// The processor's buffer-size hint.
    pub closed spec fn buffer_size_spec(&self) -> int {
        self.buffer_size as int
    }

    /// A processor is well formed when its buffer-size hint is positive.
    pub open spec fn wf(&self) -> bool {
        self.buffer_size_spec() > 0
    }

    /// Create a processor with unity gain and the default buffer-size
    /// hint of `1024` samples.
    pub fn new() -> (r: AudioProcessor)
        ensures
            r.wf(),
            r.gain_spec() == SCALE as int,
            r.buffer_size_spec() == 1024,
    {
        AudioProcessor { gain: SCALE, buffer_size: 1024 }
    }

    /// Create a processor with unity gain and the given buffer-size hint.
    ///
    /// A hint of zero is a fatal configuration error with no sensible
    /// recovery; the precondition rules it out, so a verified caller can
    /// never construct such a processor.
    pub fn with_buffer_size(buffer_size: usize) -> (r: AudioProcessor)
        requires
            buffer_size > 0,
        ensures
            r.wf(),
            r.gain_spec() == SCALE as int,
            r.buffer_size_spec() == buffer_size as int,
    {
        AudioProcessor { gain: SCALE, buffer_size }
    }

    /// Overwrite the gain factor. No bounds are enforced: negative gain
    /// (phase inversion) is legal.
    pub fn set_gain(&mut self, gain: i32)
        ensures
            final(self).gain_spec() == gain as int,
            final(self).buffer_size_spec() == old(self).buffer_size_spec(),
    {
        self.gain = gain;
    }

    /// Scale samples from `input` into `output` by the processor's gain,
    /// over the overlapping region of the two buffers; excess samples of
    /// `output` are untouched.
    pub fn process(&mut self, input: &Vec<i32>, output: &mut Vec<i32>)
        requires
            forall|i: int|
                0 <= i < input@.len() && i < old(output)@.len() ==> fits_sample(
                    q15_mul(#[trigger] input@[i] as int, old(self).gain_spec()),
                ),
        ensures
            *final(self) == *old(self),
            final(output)@.len() == old(output)@.len(),
            forall|i: int|
                0 <= i < final(output)@.len() && i < input@.len() ==> final(output)@[i] as int
                    == q15_mul(input@[i] as int, old(self).gain_spec()),
            forall|i: int|
                input@.len() <= i < final(output)@.len() ==> final(output)@[i] == old(output)@[i],
    {
        let ghost orig: Seq<i32> = output@;
        let n = if input.len() < output.len() {
            input.len()
        } else {
            output.len()
        };
        let mut i: usize = 0;
        while i < n
            invariant
                n <= orig.len(),
                n <= input@.len(),
                n == orig.len() || n == input@.len(),
                output@.len() == orig.len(),
                i <= n,
                *self == *old(self),
                forall|j: int|
                    0 <= j < input@.len() && j < orig.len() ==> fits_sample(
                        q15_mul(#[trigger] input@[j] as int, self.gain_spec()),
                    ),
                forall|j: int| i <= j < orig.len() ==> output@[j] == orig[j],
                forall|j: int|
                    0 <= j < i ==> output@[j] as int == q15_mul(input@[j] as int, self.gain_spec()),
            decreases n - i,
        {
            let r = fixed::q15_mul_i32(input[i], self.gain);
            output[i] = r as i32;
            i += 1;
        }
    }

    /// Scale every sample of `buffer` by the processor's gain, in place.
    pub fn process_in_place(&mut self, buffer: &mut Vec<i32>)
        requires
            all_fit(gain_seq(sample_vals(old(buffer)@), old(self).gain_spec())),
        ensures
            *final(self) == *old(self),
            final(buffer)@.len() == old(buffer)@.len(),
            sample_vals(final(buffer)@) == gain_seq(
                sample_vals(old(buffer)@),
                old(self).gain_spec(),
            ),
    {
        crate::unsafe_primitives::apply_gain_unsafe(buffer, self.gain);
    }
}

impl Default for AudioProcessor {
    /// Same as [`AudioProcessor::new`].
    fn default() -> (r: Self)
        ensures
            r.wf(),
            r.gain_spec() == SCALE as int,
            r.buffer_size_spec() == 1024,
    {
        AudioProcessor::new()
    }
}

/// A capacity-bounded container intended for cross-thread sample
/// transfer. Only its shape is established — a zeroed store and two
/// position counters — and no read, write or synchronization logic
/// exists: it must not be relied on for concurrent use as shipped.
pub struct RingBuffer {
    buffer: Vec<i32>,
    write_pos: usize,
    read_pos: usize,
}

impl RingBuffer {
    /// The buffer's capacity in samples.
    pub closed spec fn capacity_spec(&self) -> int {
        self.buffer@.len() as int
    }

    /// The producer's position counter.
    pub closed spec fn write_pos_spec(&self) -> int {
        self.write_pos as int
    }

    /// The consumer's position counter.
    pub closed spec fn read_pos_spec(&self) -> int {
        self.read_pos as int
    }

    /// Create a ring buffer of the given capacity, zero-filled, with both
    /// position counters at zero.
    pub fn new(capacity: usize) -> (r: RingBuffer)
        ensures
            r.capacity_spec() == capacity as int,
            r.write_pos_spec() == 0,
            r.read_pos_spec() == 0,
    {
        RingBuffer { buffer: vec![0i32; capacity], write_pos: 0, read_pos: 0 }
    }

    /// The buffer's capacity.
    pub fn capacity(&self) -> (r: usize)
        ensures
            r as int == self.capacity_spec(),
    {
        self.buffer.len()
    }
}

/// An ordered effect chain: gain stages applied in insertion order.
///
/// Every stage is a pure gain, so the chain is mathematically a single
/// gain with the product of the stage gains — an identity that holds for
/// the current stages but that a future effect type must not assume.
pub struct StreamProcessor {
    processors: Vec<AudioProcessor>,
    buffer_size: usize,
}

impl StreamProcessor {
    /// The chain's gains, in processing order.
    pub closed spec fn gains(&self) -> Seq<int> {
        self.processors@.map_values(|p: AudioProcessor| p.gain as int)
    }

    /// The buffer-size hint handed to each stage as it is added.
    pub closed spec fn buffer_size_spec(&self) -> int {
        self.buffer_size as int
    }

    /// Create an empty chain with the given buffer-size hint.
    pub fn new(buffer_size: usize) -> (r: StreamProcessor)
        ensures
            r.gains() == Seq::<int>::empty(),
            r.buffer_size_spec() == buffer_size as int,
    {
        let r = StreamProcessor { processors: Vec::new(), buffer_size };
        proof {
            assert(r.gains() =~= Seq::<int>::empty());
        }
        r
    }

    /// Append a gain stage. The stage takes the chain's buffer-size hint
    /// at this moment; a later change of the hint does not reach it.
    ///
    /// A hint of zero would make the stage's construction a fatal
    /// configuration error, so it is ruled out here.
    pub fn add_gain(&mut self, gain: i32)
        requires
            old(self).buffer_size_spec() > 0,
        ensures
            final(self).gains() == old(self).gains().push(gain as int),
            final(self).buffer_size_spec() == old(self).buffer_size_spec(),
    {
        let mut processor = AudioProcessor::with_buffer_size(self.buffer_size);
        processor.set_gain(gain);
        self.processors.push(processor);
        proof {
            assert(self.gains() =~= old(self).gains().push(gain as int));
        }
    }

    /// Run the buffer through every stage, in insertion order, in place.
    ///
    /// No gain stage can fail, so the result is always `Ok`; the failure
    /// channel is kept for effect types that can fail.
    pub fn process(&mut self, buffer: &mut Vec<i32>) -> (result: Result<(), &'static str>)
        requires
            chain_fits(old(self).gains(), sample_vals(old(buffer)@)),
        ensures
            result is Ok,
            final(self).gains() == old(self).gains(),
            final(self).buffer_size_spec() == old(self).buffer_size_spec(),
            final(buffer)@.len() == old(buffer)@.len(),
            sample_vals(final(buffer)@) == chain_seq(
                old(self).gains(),
                sample_vals(old(buffer)@),
            ),
    {
        let ghost orig: Seq<int> = sample_vals(buffer@);
        let ghost gs: Seq<int> = self.gains();
        let n = self.processors.len();
        proof {
            assert(gs.take(0) =~= Seq::<int>::empty());
        }
        let mut k: usize = 0;
        while k < n
            invariant
                n == self.processors@.len(),
                k <= n,
                gs == self.gains(),
                self.buffer_size_spec() == old(self).buffer_size_spec(),
                chain_fits(gs, orig),
                buffer@.len() == orig.len(),
                sample_vals(buffer@) == chain_seq(gs.take(k as int), orig),
            decreases n - k,
        {
            let ghost pre: Seq<AudioProcessor> = self.processors@;
            proof {
                lemma_chain_step(gs, orig, k as int);
                assert(gs[k as int] == self.processors@[k as int].gain as int);
            }
            self.processors[k].process_in_place(buffer);
            proof {
                assert(self.processors@ =~= pre);
            }
            k += 1;
        }
        proof {
            assert(gs.take(n as int) =~= gs);
        }
        Ok(())
    }
}

} // verus!
