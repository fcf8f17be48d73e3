//! Blocks of audio: when they start, how long they are, and how channels are interleaved.

use vstd::prelude::*;
use crate::float::{FloatOp, ZERO, eval};
use crate::numbers::{Arithmetic, calculates64, finite, finite64, near, size, value, value64};

verus! {

/// A channel of silence.
pub open spec fn silence(frames: int) -> Seq<u32> {
    Seq::new(frames as nat, |i: int| ZERO)
}

/// The device buffer with `frames` frames of these channels written over it, interleaved.
pub open spec fn interleaved(device: Seq<u32>, channels: Seq<Seq<u32>>, frames: int) -> Seq<u32> {
    Seq::new(
        device.len(),
        |p: int|
            if p < frames * channels.len() {
                channels[p % channels.len() as int][p / channels.len() as int]
            } else {
                device[p]
            },
    )
}

/// The first `n` channels of the block have been written.
pub open spec fn written_to(
    before: Seq<u32>,
    after: Seq<u32>,
    channels: Seq<Seq<u32>>,
    frames: int,
    n: int,
) -> bool {
    forall|p: int|
        0 <= p < before.len() ==> #[trigger] after[p] == if p < frames * channels.len() && (p
            % channels.len() as int) < n {
            channels[p % channels.len() as int][p / channels.len() as int]
        } else {
            before[p]
        }
}

/// Writes one channel of an interleaved block.
pub(crate) fn put_channel(device: &mut Vec<u32>, samples: &Vec<u32>, channels: usize, c: usize)
    requires
        c < channels,
        samples@.len() * channels <= old(device)@.len(),
    ensures
        final(device)@.len() == old(device)@.len(),
        forall|p: int|
            0 <= p < old(device)@.len() ==> #[trigger] final(device)@[p] == if p < samples@.len()
                * channels && p % channels as int == c {
                samples@[p / channels as int]
            } else {
                old(device)@[p]
            },
{
    let ghost before = device@;
    let mut i: usize = 0;
    while i < samples.len()
        invariant
            i <= samples.len(),
            c < channels,
            samples@.len() * channels <= before.len(),
            device.len() == before.len(),
            forall|p: int|
                0 <= p < before.len() ==> #[trigger] device@[p] == if p < i * channels && p
                    % channels as int == c {
                    samples@[p / channels as int]
                } else {
                    before[p]
                },
        decreases samples.len() - i,
    {
        let ghost mid = device@;
        proof {
            assert(i * channels + channels <= samples@.len() * channels && i * channels + channels
                == (i + 1) * channels) by (nonlinear_arith)
                requires
                    0 <= i < samples@.len(),
                    0 <= channels,
            ;
        }
        let at: usize = i * channels + c;
        device.set(at, samples[i]);
        proof {
            let n = channels as int;
            vstd::arithmetic::div_mod::lemma_fundamental_div_mod_converse(
                at as int,
                n,
                i as int,
                c as int,
            );
            assert forall|p: int| 0 <= p < before.len() implies #[trigger] device@[p] == if p < (i
                + 1) * n && p % n == c {
                samples@[p / n]
            } else {
                before[p]
            } by {
                assert(mid[p] == if p < i * n && p % n == c {
                    samples@[p / n]
                } else {
                    before[p]
                });
                if i * n <= p < (i + 1) * n {
                    vstd::arithmetic::div_mod::lemma_fundamental_div_mod_converse(
                        p,
                        n,
                        i as int,
                        p - i * n,
                    );
                }
            }
        }
        i = i + 1;
    }
}

/// At first no channel has been written.
pub proof fn lemma_none_written(before: Seq<u32>, channels: Seq<Seq<u32>>, frames: int)
    ensures
        written_to(before, before, channels, frames, 0),
{
    let n = channels.len() as int;
    if n == 0 {
        assert(frames * n == 0) by (nonlinear_arith)
            requires
                n == 0,
        ;
    }
}

/// One more channel has been written.
pub proof fn lemma_written_to(
    before: Seq<u32>,
    mid: Seq<u32>,
    after: Seq<u32>,
    channels: Seq<Seq<u32>>,
    frames: int,
    c: int,
)
    requires
        0 <= c < channels.len(),
        mid.len() == before.len(),
        after.len() == before.len(),
        written_to(before, mid, channels, frames, c),
        forall|p: int|
            0 <= p < mid.len() ==> #[trigger] after[p] == if p < frames * channels.len() && p
                % channels.len() as int == c {
                channels[c][p / channels.len() as int]
            } else {
                mid[p]
            },
    ensures
        written_to(before, after, channels, frames, c + 1),
{
    let n = channels.len() as int;
    assert forall|p: int| 0 <= p < before.len() implies #[trigger] after[p] == if p < frames * n
        && p % n < c + 1 {
        channels[p % n][p / n]
    } else {
        before[p]
    } by {
        assert(mid[p] == if p < frames * n && p % n < c {
            channels[p % n][p / n]
        } else {
            before[p]
        });
    }
}

/// Once every channel has been written, the block is interleaved.
pub proof fn lemma_interleaved(
    before: Seq<u32>,
    after: Seq<u32>,
    channels: Seq<Seq<u32>>,
    frames: int,
)
    requires
        0 <= frames,
        after.len() == before.len(),
        written_to(before, after, channels, frames, channels.len() as int),
    ensures
        after == interleaved(before, channels, frames),
{
    let n = channels.len() as int;
    assert forall|p: int| 0 <= p < after.len() implies after[p] == interleaved(
        before,
        channels,
        frames,
    )[p] by {
        assert(n > 0 ==> 0 <= p % n < n);
        assert(after[p] == if p < frames * n && p % n < n {
            channels[p % n][p / n]
        } else {
            before[p]
        });
    }
    assert(after =~= interleaved(before, channels, frames));
}

/// Number of frames that a block renders.
pub open spec fn block_frames(frames: usize, capacity: usize) -> usize {
    if frames <= capacity {
        frames
    } else {
        capacity
    }
}

/// The time at which a block starts, in seconds.
pub open spec fn start_time<F: Fn(FloatOp) -> u64>(fp: F, elapsed: u64, sample_rate: u32) -> u64 {
    eval(
        fp,
        FloatOp::DivF64(
            eval(fp, FloatOp::U64ToF64(elapsed)),
            eval(fp, FloatOp::F32ToF64(sample_rate)),
        ),
    )
}

/// Frames lie one after another in the device buffer, the samples of a frame in channel order;
/// what is behind the block is left alone.
pub proof fn law_frames_are_interleaved(
    device: Seq<u32>,
    channels: Seq<Seq<u32>>,
    frames: int,
    c: int,
    i: int,
)
    requires
        0 <= c < channels.len(),
        0 <= i < frames,
        frames * channels.len() <= device.len(),
    ensures
        i * channels.len() + c < device.len(),
        interleaved(device, channels, frames)[i * channels.len() + c] == channels[c][i],
        interleaved(device, channels, frames).len() == device.len(),
        forall|p: int|
            frames * channels.len() <= p < device.len() ==> #[trigger] interleaved(
                device,
                channels,
                frames,
            )[p] == device[p],
{
    let n = channels.len() as int;
    assert(i * n + n <= frames * n) by (nonlinear_arith)
        requires
            i < frames,
            0 <= n,
    ;
    vstd::arithmetic::div_mod::lemma_fundamental_div_mod_converse(i * n + c, n, i, c);
}

/// A block is as long as it was asked for, but no longer than the capacity.
pub proof fn law_blocks_fit_the_capacity(frames: usize, capacity: usize)
    ensures
        block_frames(frames, capacity) <= frames,
        block_frames(frames, capacity) <= capacity,
        block_frames(frames, capacity) == frames || block_frames(frames, capacity) == capacity,
{
}

/// On a float unit that computes, a block starts at the number of frames before it over the sample
/// rate, in seconds, but for rounding.
pub proof fn law_time_is_frames_over_rate<F: Fn(FloatOp) -> u64>(
    fp: F,
    m: Arithmetic,
    elapsed: u64,
    sample_rate: u32,
)
    requires
        calculates64(fp, m),
        finite(sample_rate),
        value(sample_rate) >= 1 as real,
        elapsed <= 0x0400_0000_0000_0000,
    ensures
        finite64(start_time(fp, elapsed, sample_rate)),
        near(
            value64(start_time(fp, elapsed, sample_rate)),
            (elapsed as int as real) / value(sample_rate),
            m.error64 * ((4 as real) + (4 as real) * (elapsed as int as real)),
        ),
{
    let n = elapsed as int as real;
    let r = value(sample_rate);
    let x = value64(eval(fp, FloatOp::U64ToF64(elapsed)));
    let y = x / r;
    assert(x == (m.round64)(n));
    assert(value64(eval(fp, FloatOp::F32ToF64(sample_rate))) == r);
    lemma_quotient_is_near(m.error64, n, x, r);
    assert(near((m.round64)(y), y, m.error64 * ((1 as real) + size(y))));
    let e = m.error64;
    assert(e * ((1 as real) + size(y)) <= e * ((3 as real) + (2 as real) * n)) by (nonlinear_arith)
        requires
            (0 as real) <= e,
            size(y) <= (2 as real) + (2 as real) * n,
    ;
    assert(e * ((3 as real) + (2 as real) * n) + e * ((1 as real) + n) <= e * ((4 as real) + (
    4 as real) * n)) by (nonlinear_arith)
        requires
            (0 as real) <= e,
            (0 as real) <= n,
    ;
}

proof fn lemma_quotient_is_near(e: real, n: real, x: real, r: real)
    requires
        (0 as real) <= e,
        e <= (1 as real) / (65536 as real),
        (0 as real) <= n,
        r >= 1 as real,
        near(x, n, e * ((1 as real) + n)),
    ensures
        near(x / r, n / r, e * ((1 as real) + n)),
        size(x / r) <= (2 as real) + (2 as real) * n,
{
    let b = e * ((1 as real) + n);
    let c = x - n;
    assert(x / r - n / r == c / r && -b <= c / r && c / r <= b && (0 as real) <= n / r && n / r <= n)
        by (nonlinear_arith)
        requires
            c == x - n,
            -b <= c,
            c <= b,
            (0 as real) <= b,
            r >= 1 as real,
            (0 as real) <= n,
    ;
    assert(b <= (1 as real) + n) by (nonlinear_arith)
        requires
            b == e * ((1 as real) + n),
            e <= 1 as real,
            (0 as real) <= n,
    ;
}

} // verus!
