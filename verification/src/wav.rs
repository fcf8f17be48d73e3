//! Offline WAV rendering.
//!
//! Drives an [`Engine`] block-by-block as fast as possible and turns the interleaved output into
//! 16-bit PCM samples. This is the offline counterpart to real-time playback: the same engine and
//! the same `audio_output` sink, with the samples going to a file instead of a device.

use vstd::prelude::*;
use crate::blocks::block_frames;
use crate::engine::{Engine, GraphView, frames_of, fresh, lemma_first_block, lemma_stream_len, played, played_into, stream};
use crate::float::{FloatOp, ONE, ZERO, apply, apply32, eval, eval32, is_float_unit};
use crate::numbers::{Arithmetic, calculates64, computes, finite, finite64, is_int, is_trunc, law_constants_are_their_numbers, low16, near, size, stands_for, two_to, value, value64};
use crate::processing::Module;
use crate::registry::Factory;
use crate::text::joined;

verus! {

/// Why a rendering could not be written.
#[derive(Debug)]
pub struct WavError(pub String);

impl WavError {
    /// The error as shown to the user.
    pub fn message(&self) -> (text: String)
        ensures
            text@ == "wav render error: "@ + self.0@,
    {
        joined("wav render error: ", self.0.as_str())
    }
}

/// Frames per block.
pub const BLOCK: usize = 1024;

/// -1 in single precision.
pub const MINUS_ONE: u32 = 0xBF80_0000;

/// 32767 in single precision.
pub const FULL_SCALE: u32 = 0x46FF_FE00;

/// The length of a rendering: `round(max(seconds, 0) * sample_rate)`.
pub open spec fn length_of<F: Fn(FloatOp) -> u64>(fp: F, seconds: u64, sample_rate: u32) -> u64 {
    let time = eval(fp, FloatOp::MaxF64(seconds, 0));
    let exact = eval(fp, FloatOp::MulF64(time, eval(fp, FloatOp::F32ToF64(sample_rate))));
    eval(fp, FloatOp::F64ToU64(eval(fp, FloatOp::RoundF64(exact))))
}

/// The number of frames of `seconds` (the bit pattern of a double-precision number) of audio.
pub fn total_frames<F: Fn(FloatOp) -> u64>(fp: &F, seconds: u64, sample_rate: u32) -> (n: u64)
    requires
        is_float_unit(*fp),
    ensures
        n == length_of(*fp, seconds, sample_rate),
{
    let time: u64 = apply(fp, FloatOp::MaxF64(seconds, 0));
    let rate: u64 = apply(fp, FloatOp::F32ToF64(sample_rate));
    let exact: u64 = apply(fp, FloatOp::MulF64(time, rate));
    let whole: u64 = apply(fp, FloatOp::RoundF64(exact));
    apply(fp, FloatOp::F64ToU64(whole))
}

/// The integer whose low 16 bits are those of `bits`.
pub open spec fn signed16(bits: u64) -> i16 {
    let low = bits % 0x1_0000;
    if low < 0x8000 {
        low as i16
    } else {
        (low - 0x1_0000) as i16
    }
}

/// A sample in 16-bit PCM: clamped to `[-1, 1]`, scaled, and truncated.
pub open spec fn pcm<F: Fn(FloatOp) -> u64>(fp: F, sample: u32) -> i16 {
    let clamped = eval32(fp, FloatOp::Clamp(sample, MINUS_ONE, ONE));
    signed16(eval(fp, FloatOp::F32ToI16(eval32(fp, FloatOp::Mul(clamped, FULL_SCALE)))))
}

/// Turns a sample into 16-bit PCM.
pub fn pcm_sample<F: Fn(FloatOp) -> u64>(fp: &F, sample: u32) -> (r: i16)
    requires
        is_float_unit(*fp),
    ensures
        r == pcm(*fp, sample),
{
    let clamped: u32 = apply32(fp, FloatOp::Clamp(sample, MINUS_ONE, ONE));
    let scaled: u32 = apply32(fp, FloatOp::Mul(clamped, FULL_SCALE));
    let low: u64 = apply(fp, FloatOp::F32ToI16(scaled)) % 0x1_0000;
    if low < 0x8000 {
        low as i16
    } else {
        (low as i32 - 0x1_0000) as i16
    }
}

/// A rendering in progress.
pub struct Rendering {
    total: u64,
    written: u64,
    buf: Vec<u32>,
}

/// The contents of a [`Rendering`].
#[verifier::ext_equal]
pub struct RenderView {
    /// Frames in all.
    pub total: u64,
    /// Frames handed out so far.
    pub written: u64,
    /// The device buffer that blocks are rendered into.
    pub buf: Seq<u32>,
}

impl View for Rendering {
    type V = RenderView;

    closed spec fn view(&self) -> RenderView {
        RenderView { total: self.total, written: self.written, buf: self.buf@ }
    }
}

/// Number of frames of the next block: as many as are left, within [`BLOCK`] and what the engine
/// renders at once. An engine that renders nothing leaves the buffer silent, and is given blocks
/// of any length.
pub open spec fn next_len(capacity: usize, total: u64, written: u64) -> usize {
    let most = if 0 < capacity <= BLOCK {
        capacity
    } else {
        BLOCK
    };
    if total - written <= most {
        (total - written) as usize
    } else {
        most
    }
}

/// The lengths of the blocks that are still to come.
pub open spec fn block_lens(capacity: usize, total: u64, written: u64) -> Seq<usize>
    decreases total - written,
{
    if written >= total {
        Seq::empty()
    } else {
        let n = next_len(capacity, total, written);
        seq![n] + block_lens(capacity, total, (written + n) as u64)
    }
}

/// The blocks of a rendering add up to its length, and none is empty, longer than [`BLOCK`], or
/// longer than what the engine renders at once.
pub proof fn law_blocks_add_up(capacity: usize, total: u64, written: u64)
    requires
        written <= total,
    ensures
        ({
            let lens = block_lens(capacity, total, written);
            &&& frames_of(lens, lens.len() as int) == total - written
            &&& forall|i: int| 0 <= i < lens.len() ==> 0 < #[trigger] lens[i] <= BLOCK
            &&& forall|i: int|
                0 <= i < lens.len() ==> 0 < capacity ==> #[trigger] lens[i] <= capacity
        }),
    decreases total - written,
{
    if written < total {
        let n = next_len(capacity, total, written);
        let rest = block_lens(capacity, total, (written + n) as u64);
        law_blocks_add_up(capacity, total, (written + n) as u64);
        let all = block_lens(capacity, total, written);
        assert(all == seq![n] + rest);
        lemma_first_frames(n, rest, rest.len() as int);
        assert forall|i: int| 0 <= i < all.len() implies 0 < #[trigger] all[i] <= BLOCK && (0
            < capacity ==> all[i] <= capacity) by {
            if i > 0 {
                assert(all[i] == rest[i - 1]);
            }
        }
    }
}

proof fn lemma_first_frames(first: usize, rest: Seq<usize>, k: int)
    requires
        0 <= k <= rest.len(),
    ensures
        frames_of(seq![first] + rest, k + 1) == first + frames_of(rest, k),
    decreases k,
{
    let lens = seq![first] + rest;
    if k > 0 {
        lemma_first_frames(first, rest, k - 1);
        assert(lens[k] == rest[k - 1]);
    } else {
        reveal_with_fuel(frames_of, 2);
    }
}

/// Samples in 16-bit PCM.
pub open spec fn pcms<F: Fn(FloatOp) -> u64>(fp: F, samples: Seq<u32>) -> Seq<i16> {
    Seq::new(samples.len(), |p: int| pcm(fp, samples[p]))
}

/// A rendering once it has handed out a block.
pub open spec fn handed_out<M: Module, F: Fn(FloatOp) -> u64>(
    r: RenderView,
    v: GraphView<M, F>,
) -> RenderView {
    let n = next_len(v.capacity, r.total, r.written);
    RenderView {
        total: r.total,
        written: (r.written + n) as u64,
        buf: played_into(v, r.buf, n),
    }
}

/// The block that a rendering hands out next.
pub open spec fn next_pcms<M: Module, F: Fn(FloatOp) -> u64>(
    fp: F,
    r: RenderView,
    v: GraphView<M, F>,
) -> Seq<i16> {
    let n = next_len(v.capacity, r.total, r.written);
    pcms(fp, handed_out(r, v).buf.take(n * v.channels))
}

/// All that a rendering still hands out, block after block.
pub open spec fn outstanding<M: Module, F: Fn(FloatOp) -> u64>(
    fp: F,
    r: RenderView,
    v: GraphView<M, F>,
) -> Seq<i16>
    decreases r.total - r.written,
{
    if r.written >= r.total {
        Seq::empty()
    } else {
        let n = next_len(v.capacity, r.total, r.written);
        next_pcms(fp, r, v) + outstanding(fp, handed_out(r, v), played(v, n))
    }
}

/// A block within the capacity is what the engine adds to its stream.
proof fn lemma_next_is_fresh<M: Module, F: Fn(FloatOp) -> u64>(
    fp: F,
    r: RenderView,
    v: GraphView<M, F>,
)
    requires
        0 < v.capacity,
        r.written < r.total,
        r.buf.len() == BLOCK * v.channels,
        v.in_srcs[v.sink as int].len() == v.channels,
    ensures
        ({
            let n = next_len(v.capacity, r.total, r.written);
            &&& next_pcms(fp, r, v) == pcms(fp, fresh(v, n))
            &&& handed_out(r, v).buf.len() == r.buf.len()
        }),
{
    let n = next_len(v.capacity, r.total, r.written);
    assert(0 <= n * v.channels <= BLOCK * v.channels) by (nonlinear_arith)
        requires
            0 <= n <= BLOCK,
            0 <= v.channels,
    ;
    assert(handed_out(r, v).buf.take(n * v.channels) =~= fresh(v, n));
}

/// What a rendering hands out is the engine's stream over the frames that are left, in 16-bit PCM:
/// one sample per frame and channel, without gap or repetition at the borders of blocks.
pub proof fn law_rendering_is_the_stream<M: Module, F: Fn(FloatOp) -> u64>(
    fp: F,
    r: RenderView,
    v: GraphView<M, F>,
)
    requires
        0 < v.capacity,
        r.written <= r.total,
        r.buf.len() == BLOCK * v.channels,
        v.in_srcs[v.sink as int].len() == v.channels,
    ensures
        ({
            let lens = block_lens(v.capacity, r.total, r.written);
            &&& outstanding(fp, r, v) == pcms(fp, stream(v, lens, lens.len() as int))
            &&& outstanding(fp, r, v).len() == (r.total - r.written) * v.channels
        }),
    decreases r.total - r.written,
{
    let lens = block_lens(v.capacity, r.total, r.written);
    law_blocks_add_up(v.capacity, r.total, r.written);
    lemma_stream_len(v, lens, lens.len() as int);
    if r.written < r.total {
        let n = next_len(v.capacity, r.total, r.written);
        let rest = block_lens(v.capacity, r.total, (r.written + n) as u64);
        lemma_next_is_fresh(fp, r, v);
        law_rendering_is_the_stream(fp, handed_out(r, v), played(v, n));
        lemma_first_block(v, n, rest, rest.len() as int);
        assert(lens == seq![n] + rest);
        assert(outstanding(fp, r, v) =~= pcms(fp, stream(v, lens, lens.len() as int)));
    } else {
        assert(outstanding(fp, r, v) =~= pcms(fp, stream(v, lens, lens.len() as int)));
    }
}

impl Rendering {
    /// A rendering of `seconds` (the bit pattern of a double-precision number) of audio.
    pub fn new<K: Factory, F: Fn(FloatOp) -> u64>(engine: &Engine<K, F>, fp: &F, seconds: u64) -> (r:
        Rendering)
        requires
            is_float_unit(*fp),
            BLOCK * engine@.channels <= usize::MAX,
        ensures
            r@ == (RenderView {
                total: length_of(*fp, seconds, engine@.sample_rate),
                written: 0,
                buf: Seq::new((BLOCK * engine@.channels) as nat, |p: int| ZERO),
            }),
    {
        let total: u64 = total_frames(fp, seconds, engine.sample_rate());
        let buf: Vec<u32> = vec![ZERO;BLOCK * engine.channels()];
        assert(buf@ =~= Seq::new((BLOCK * engine@.channels) as nat, |p: int| ZERO));
        Rendering { total, written: 0, buf }
    }

    /// Renders the next block: its interleaved samples, or nothing once all frames have been
    /// handed out.
    pub fn next_block<K: Factory, F: Fn(FloatOp) -> u64>(
        &mut self,
        engine: &mut Engine<K, F>,
        fp: &F,
    ) -> (block: Option<Vec<i16>>)
        requires
            is_float_unit(*fp),
            old(engine).wf(),
            old(self)@.buf.len() == BLOCK * old(engine)@.channels,
            old(self)@.written <= old(self)@.total,
            old(engine)@.elapsed + (old(self)@.total - old(self)@.written) <= u64::MAX,
        ensures
            final(engine).wf(),
            block is None <==> old(self)@.written == old(self)@.total,
            match block {
                None => final(self)@ == old(self)@ && final(engine)@ == old(engine)@,
                Some(block) => {
                    let n = next_len(
                        old(engine)@.capacity,
                        old(self)@.total,
                        old(self)@.written,
                    );
                    &&& final(engine)@ == played(old(engine)@, n)
                    &&& final(self)@ == handed_out(old(self)@, old(engine)@)
                    &&& block@ == next_pcms(*fp, old(self)@, old(engine)@)
                    &&& old(engine)@.capacity > 0 ==> block@ == pcms(*fp, fresh(old(engine)@, n))
                },
            },
    {
        if self.written >= self.total {
            return None;
        }
        let left: u64 = self.total - self.written;
        let capacity: usize = engine.capacity();
        let most: usize = if 0 < capacity && capacity <= BLOCK {
            capacity
        } else {
            BLOCK
        };
        let frames: usize = if left <= most as u64 {
            left as usize
        } else {
            most
        };
        let ghost r = self@;
        let channels: usize = engine.channels();
        let ghost v = engine@;
        proof {
            let n = block_frames(frames, v.capacity);
            assert(n * channels <= BLOCK * channels && frames * channels <= BLOCK * channels)
                by (nonlinear_arith)
                requires
                    n <= BLOCK,
                    frames <= BLOCK,
                    0 <= channels,
            ;
        }
        proof {
            engine.lemma_wf();
            if capacity > 0 {
                lemma_next_is_fresh(*fp, r, v);
            }
        }
        engine.process_block(&mut self.buf, frames);
        assert(frames * channels <= self.buf.len());
        let count: usize = frames * channels;
        let mut block: Vec<i16> = Vec::new();
        let mut i: usize = 0;
        while i < count
            invariant
                i <= count <= self.buf.len(),
                is_float_unit(*fp),
                block@ =~= Seq::new(i as nat, |p: int| pcm(*fp, self.buf@[p])),
            decreases count - i,
        {
            block.push(pcm_sample(fp, self.buf[i]));
            i = i + 1;
        }
        self.written = self.written + frames as u64;
        assert(block@ =~= next_pcms(*fp, r, v));
        Some(block)
    }
}

/// A sample between -1 and 1 is scaled to 32767 and cut off at the whole number towards zero.
pub proof fn law_pcm_scales_the_sample<F: Fn(FloatOp) -> u64>(fp: F, m: Arithmetic, x: u32)
    requires
        computes(fp, m),
        finite(x),
        -(1 as real) <= value(x),
        value(x) <= 1 as real,
    ensures
        is_trunc(pcm(fp, x) as int, (m.round)(value(x) * (32767 as real))),
        near(
            pcm(fp, x) as int as real,
            value(x) * (32767 as real),
            (1 as real) + m.error * (32768 as real),
        ),
        value(x) >= 0 as real ==> 0 <= pcm(fp, x) <= 32767,
        value(x) <= 0 as real ==> -32767 <= pcm(fp, x) <= 0,
{
    law_constants_are_their_numbers();
    let c = eval32(fp, FloatOp::Clamp(x, MINUS_ONE, ONE));
    assert(value(c) == value(x) && finite(c));
    let v = value(x);
    let y = v * (32767 as real);
    let full = eval32(fp, FloatOp::Neg(FULL_SCALE));
    assert(value(full) == -(32767 as real) && finite(full));
    assert(-(32767 as real) <= y && y <= 32767 as real);
    assert(size(value(c) * value(FULL_SCALE)) <= m.top);
    let r = eval32(fp, FloatOp::Mul(c, FULL_SCALE));
    assert(stands_for(m, r, y));
    assert(value(full) <= value(r) && value(r) <= value(FULL_SCALE));
    assert(v >= 0 as real ==> value(ZERO) <= value(r));
    assert(v <= 0 as real ==> value(r) <= value(ZERO));
    let t = low16(eval(fp, FloatOp::F32ToI16(r)));
    assert(is_trunc(t, value(r)));
    assert(-32767 <= t <= 32767);
    assert(pcm(fp, x) == t);
    assert(near((m.round)(y), y, m.error * (1 as real + size(y))));
    assert(m.error * (1 as real + size(y)) <= m.error * (32768 as real)) by (nonlinear_arith)
        requires
            (0 as real) <= m.error,
            size(y) <= 32767 as real,
    ;
}

/// What is louder than full scale is cut off there.
pub proof fn law_pcm_is_clipped<F: Fn(FloatOp) -> u64>(fp: F, m: Arithmetic, x: u32)
    requires
        computes(fp, m),
        finite(x),
    ensures
        value(x) >= 1 as real ==> pcm(fp, x) == 32767,
        value(x) <= -(1 as real) ==> pcm(fp, x) == -32767,
{
    law_constants_are_their_numbers();
    let c = eval32(fp, FloatOp::Clamp(x, MINUS_ONE, ONE));
    assert(finite(c));
    let r = eval32(fp, FloatOp::Mul(c, FULL_SCALE));
    let neg = eval32(fp, FloatOp::Neg(FULL_SCALE));
    if value(x) >= 1 as real {
        assert(value(c) == 1 as real);
        assert(value(c) * value(FULL_SCALE) == 32767 as real);
        assert(stands_for(m, r, 32767 as real));
        assert(value(r) == value(FULL_SCALE));
    }
    if value(x) <= -(1 as real) {
        assert(value(c) == -(1 as real));
        assert(value(c) * value(FULL_SCALE) == -(32767 as real));
        assert(stands_for(m, r, -(32767 as real)));
        assert(value(neg) == -(32767 as real));
        assert(value(r) == value(neg));
    }
    let t = low16(eval(fp, FloatOp::F32ToI16(r)));
    if value(x) >= 1 as real || value(x) <= -(1 as real) {
        assert(is_trunc(t, value(r)));
        assert(pcm(fp, x) == t);
    }
}

/// PCM is odd: the opposite sample has the opposite value.
pub proof fn law_pcm_is_odd<F: Fn(FloatOp) -> u64>(fp: F, m: Arithmetic, x: u32, y: u32)
    requires
        computes(fp, m),
        finite(x),
        finite(y),
        value(y) == -value(x),
    ensures
        pcm(fp, y) == -pcm(fp, x),
{
    law_pcm_is_clipped(fp, m, x);
    law_pcm_is_clipped(fp, m, y);
    if -(1 as real) <= value(x) && value(x) <= 1 as real {
        law_pcm_scales_the_sample(fp, m, x);
        law_pcm_scales_the_sample(fp, m, y);
        let a = value(x) * (32767 as real);
        assert(value(y) * (32767 as real) == -a);
        assert((m.round)(-a) == -(m.round)(a));
    }
}

/// A higher sample has no lower PCM value.
pub proof fn law_pcm_keeps_order<F: Fn(FloatOp) -> u64>(fp: F, m: Arithmetic, x: u32, y: u32)
    requires
        computes(fp, m),
        finite(x),
        finite(y),
        value(x) <= value(y),
    ensures
        pcm(fp, x) <= pcm(fp, y),
{
    law_pcm_is_clipped(fp, m, x);
    law_pcm_is_clipped(fp, m, y);
    let low = -(1 as real);
    let high = 1 as real;
    if low <= value(x) && value(x) <= high {
        law_pcm_scales_the_sample(fp, m, x);
    }
    if low <= value(y) && value(y) <= high {
        law_pcm_scales_the_sample(fp, m, y);
    }
    if low <= value(x) && value(y) <= high {
        assert((m.round)(value(x) * (32767 as real)) <= (m.round)(value(y) * (32767 as real)));
    }
}

/// The length of a rendering is the number of frames of its time at the sample rate, to the
/// nearest whole frame; no time, or less, is no frame.
pub proof fn law_length_is_time_times_rate<F: Fn(FloatOp) -> u64>(
    fp: F,
    m: Arithmetic,
    seconds: u64,
    sample_rate: u32,
)
    requires
        calculates64(fp, m),
        finite64(seconds),
        finite(sample_rate),
        (0 as real) <= value(sample_rate),
        value64(seconds) * value(sample_rate) <= 1152921504606846976 as real,
    ensures
        ({
            let exact = if value64(seconds) < 0 as real {
                0 as real
            } else {
                value64(seconds) * value(sample_rate)
            };
            near(
                length_of(fp, seconds, sample_rate) as int as real,
                exact,
                (1 as real) / (2 as real) + m.error64 * (1 as real + exact),
            )
        }),
{
    let zero = value64(0);
    assert(zero == 0 as real) by {
        let t = two_to(-1074);
        assert((0 as real) * t == 0 as real) by (nonlinear_arith);
    }
    let time = eval(fp, FloatOp::MaxF64(seconds, 0));
    let rate = eval(fp, FloatOp::F32ToF64(sample_rate));
    let t = value64(time);
    let r = value64(rate);
    let x = t * r;
    assert((0 as real) <= x) by (nonlinear_arith)
        requires
            (0 as real) <= t,
            (0 as real) <= r,
            x == t * r,
    ;
    if value64(seconds) < 0 as real {
        assert(x == 0 as real) by (nonlinear_arith)
            requires
                t == 0 as real,
                x == t * r,
        ;
    }
    let product = eval(fp, FloatOp::MulF64(time, rate));
    let whole = eval(fp, FloatOp::RoundF64(product));
    let len = eval(fp, FloatOp::F64ToU64(whole));
    assert(finite64(product) && value64(product) == (m.round64)(x));
    assert(near((m.round64)(x), x, m.error64 * ((1 as real) + size(x))));
    lemma_error64(m.error64, x);
    assert(finite64(whole) && near(value64(whole), value64(product), (1 as real) / (2 as real)));
    assert(exists|n: int| #[trigger] is_int(value64(whole), n));
    let n = choose|n: int| #[trigger] is_int(value64(whole), n);
    assert(value64(whole) == n as real);
    assert(n >= 0);
    assert(is_trunc(len as int, value64(whole)));
    assert(len == n);
}

/// How far off a double-precision product is.
proof fn lemma_error64(e: real, x: real)
    requires
        (0 as real) <= e,
        e <= (1 as real) / (65536 as real),
        (0 as real) <= x,
        x <= 1152921504606846976 as real,
    ensures
        e * ((1 as real) + size(x)) <= ((1 as real) + x) / (65536 as real),
        e * ((1 as real) + size(x)) <= 1152921504606846976 as real,
        e * ((1 as real) + size(x)) <= x + (1 as real) / (65536 as real),
{
    assert(e * ((1 as real) + x) <= ((1 as real) + x) / (65536 as real)) by (nonlinear_arith)
        requires
            (0 as real) <= e,
            e <= (1 as real) / (65536 as real),
            (0 as real) <= x,
    ;
}

/// Every sample is converted on its own and in its place.
pub proof fn law_samples_are_converted_in_place<F: Fn(FloatOp) -> u64>(
    fp: F,
    samples: Seq<u32>,
    i: int,
)
    requires
        0 <= i < samples.len(),
    ensures
        pcms(fp, samples).len() == samples.len(),
        pcms(fp, samples)[i] == pcm(fp, samples[i]),
{
}

/// The next block of a rendering takes all that the engine renders at once and that a block has room
/// for, as long as so much is left.
pub proof fn law_next_block_is_as_long_as_can_be(capacity: usize, total: u64, written: u64)
    requires
        written <= total,
    ensures
        ({
            let n = next_len(capacity, total, written);
            &&& n <= total - written
            &&& n <= 1024
            &&& 0 < capacity ==> n <= capacity
            &&& n == total - written || n == 1024 || n == capacity
            &&& written < total ==> n > 0
        }),
{
}

} // verus!
