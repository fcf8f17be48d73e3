//! Where things stand in a plan buffer.
//!
//! A record is a header of seven words, the module's state, one word per input port, and one
//! buffer per output port, each part aligned. Records follow one another without gaps up to a
//! terminator word, and the read-only parameter blocks come after it.

use vstd::prelude::*;
use crate::bytes::{word_at, words};

verus! {

pub const STATE_ALIGN: usize = 16;

pub const BUF_ALIGN: usize = 64;

pub const RECORD_ALIGN: usize = 64;

/// The word that ends the schedule.
pub const TERMINATOR: u32 = 0xFFFF_FFFF;

/// skip, fn_index, state_size, num_inputs, num_outputs, params, params_size
pub const HEADER_WORDS: usize = 7;

/// Bytes of one sample.
pub const SAMPLE: usize = 4;

/// The smallest multiple of `a` that is not below `n`.
pub open spec fn up(n: int, a: int) -> int {
    (n + a - 1) / a * a
}

/// Rounds `n` up to a multiple of `a`.
pub fn align_up(n: usize, a: usize) -> (r: usize)
    requires
        0 < a,
        up(n as int, a as int) <= usize::MAX,
    ensures
        r == up(n as int, a as int),
{
    let rest: usize = n % a;
    proof {
        let q = n as int / a as int;
        vstd::arithmetic::div_mod::lemma_fundamental_div_mod(n as int, a as int);
        vstd::arithmetic::mul::lemma_mul_is_commutative(q, a as int);
        if rest == 0 {
            vstd::arithmetic::div_mod::lemma_fundamental_div_mod_converse(
                n + a - 1,
                a as int,
                q,
                a - 1,
            );
        } else {
            vstd::arithmetic::mul::lemma_mul_is_distributive_add_other_way(a as int, q, 1);
            vstd::arithmetic::div_mod::lemma_fundamental_div_mod_converse(
                n + a - 1,
                a as int,
                q + 1,
                rest - 1,
            );
        }
    }
    if rest == 0 {
        n
    } else {
        n + (a - rest)
    }
}

/// Offset of the state of the record at `off`.
pub open spec fn state_at(off: int) -> int {
    up(off + 28, 16)
}

/// Offset of the input words of the record at `off`.
pub open spec fn inputs_at(off: int, state_len: int) -> int {
    up(state_at(off) + state_len, 4)
}

/// Offset of the first output buffer of the record at `off`.
pub open spec fn outputs_at(off: int, state_len: int, num_inputs: int) -> int {
    up(inputs_at(off, state_len) + 4 * num_inputs, 64)
}

/// Bytes of the output buffers of `n` ports.
pub open spec fn bufs_len(n: int, block_size: int) -> int {
    4 * (n * block_size)
}

/// Offset just behind the record at `off`.
pub open spec fn end_at(
    off: int,
    state_len: int,
    num_inputs: int,
    num_outputs: int,
    block_size: int,
) -> int {
    up(outputs_at(off, state_len, num_inputs) + bufs_len(num_outputs, block_size), 64)
}

/// A record as the walk sees it: its place, its sizes, and the offsets that its inputs read.
pub struct Rec {
    pub off: int,
    pub fn_index: u32,
    pub state_len: int,
    pub params_off: int,
    pub params_len: int,
    pub inputs: Seq<u32>,
    pub num_outputs: int,
}

impl Rec {
    pub open spec fn state_off(self) -> int {
        state_at(self.off)
    }

    pub open spec fn inputs_off(self) -> int {
        inputs_at(self.off, self.state_len)
    }

    pub open spec fn outputs_off(self) -> int {
        outputs_at(self.off, self.state_len, self.inputs.len() as int)
    }

    /// Offset of the buffer of output port `port`.
    pub open spec fn output_off(self, port: int, block_size: int) -> int {
        self.outputs_off() + bufs_len(port, block_size)
    }

    pub open spec fn end(self, block_size: int) -> int {
        end_at(
            self.off,
            self.state_len,
            self.inputs.len() as int,
            self.num_outputs,
            block_size,
        )
    }

    /// The record's state bytes.
    pub open spec fn state(self, b: Seq<u8>) -> Seq<u8> {
        b.subrange(self.state_off(), self.state_off() + self.state_len)
    }

    /// The record's parameter block.
    pub open spec fn params(self, b: Seq<u8>) -> Seq<u8> {
        b.subrange(self.params_off, self.params_off + self.params_len)
    }

    /// The first `frames` samples of output port `port`.
    pub open spec fn output(self, b: Seq<u8>, port: int, block_size: int, frames: int) -> Seq<u32> {
        words(b, self.output_off(port, block_size), frames)
    }

    /// The first `frames` samples that input port `port` reads.
    pub open spec fn input(self, b: Seq<u8>, port: int, frames: int) -> Seq<u32> {
        words(b, self.inputs[port] as int, frames)
    }

    /// The walk runs the record: its skip word is zero.
    pub open spec fn active(self, b: Seq<u8>) -> bool {
        word_at(b, self.off) == 0
    }

    /// The sizes are sizes, and the record lies in a buffer that `u32` offsets can address.
    pub open spec fn fits(self, block_size: int, len: int) -> bool {
        &&& 0 <= block_size
        &&& 0 <= self.off
        &&& self.off % 64 == 0
        &&& 0 <= self.state_len
        &&& 0 <= self.num_outputs <= u32::MAX
        &&& 0 <= self.params_len
        &&& self.end(block_size) <= len <= u32::MAX
    }

    /// The buffer holds the record's header and its input words.
    pub open spec fn stored(self, b: Seq<u8>, block_size: int) -> bool {
        &&& word_at(b, self.off) == 0 || word_at(b, self.off) == self.end(block_size)
        &&& word_at(b, self.off + 4) == self.fn_index
        &&& word_at(b, self.off + 8) == self.state_len
        &&& word_at(b, self.off + 12) == self.inputs.len()
        &&& word_at(b, self.off + 16) == self.num_outputs
        &&& word_at(b, self.off + 20) == self.params_off
        &&& word_at(b, self.off + 24) == self.params_len
        &&& words(b, self.inputs_off(), self.inputs.len() as int) == self.inputs
    }
}

/// The buffers of fewer ports are no longer.
pub proof fn lemma_bufs_len(m: int, n: int, block_size: int)
    requires
        0 <= m <= n,
        0 <= block_size,
    ensures
        0 <= bufs_len(m, block_size) <= bufs_len(n, block_size),
        bufs_len(m + 1, block_size) == bufs_len(m, block_size) + 4 * block_size,
{
    assert(0 <= m * block_size <= n * block_size) by (nonlinear_arith)
        requires
            0 <= m <= n,
            0 <= block_size,
    ;
    assert((m + 1) * block_size == m * block_size + block_size) by (nonlinear_arith);
}

/// The parts of a record follow one another.
pub proof fn lemma_parts(r: Rec, block_size: int)
    requires
        0 <= r.off,
        r.off % 64 == 0,
        0 <= r.state_len,
        0 <= r.num_outputs,
        0 <= block_size,
    ensures
        r.state_off() == r.off + 32,
        r.state_off() + r.state_len <= r.inputs_off(),
        r.inputs_off() + 4 * r.inputs.len() <= r.outputs_off(),
        r.outputs_off() <= r.outputs_off() + bufs_len(r.num_outputs, block_size) <= r.end(block_size),
        r.outputs_off() % 64 == 0,
        r.end(block_size) % 64 == 0,
        r.off + 64 <= r.end(block_size),
{
    lemma_bufs_len(0, r.num_outputs, block_size);
}

/// Rounds `n` up to a multiple of `a`, with room to spare.
pub(crate) fn wide_up(n: u128, a: u128) -> (r: u128)
    requires
        0 < a <= 64,
        n <= 0x1_0000_0000_0000_0000_0000,
    ensures
        r == up(n as int, a as int),
{
    let q: u128 = (n + (a - 1)) / a;
    proof {
        vstd::arithmetic::div_mod::lemma_fundamental_div_mod((n + a - 1) as int, a as int);
        vstd::arithmetic::mul::lemma_mul_is_commutative(q as int, a as int);
        assert(q * a <= n + a - 1);
    }
    q * a
}

/// The end of a record of the given sizes at `off`, if `u32` offsets reach it.
pub(crate) fn record_end(
    off: u32,
    state_len: usize,
    num_inputs: usize,
    num_outputs: usize,
    block_size: usize,
) -> (end: Option<u32>)
    requires
        off % 64 == 0,
    ensures
        match end {
            Some(e) => e == end_at(
                off as int,
                state_len as int,
                num_inputs as int,
                num_outputs as int,
                block_size as int,
            ),
            None => end_at(
                off as int,
                state_len as int,
                num_inputs as int,
                num_outputs as int,
                block_size as int,
            ) > u32::MAX,
        },
{
    let ghost r = Rec {
        off: off as int,
        fn_index: 0,
        state_len: state_len as int,
        params_off: 0,
        params_len: 0,
        inputs: Seq::new(num_inputs as nat, |k: int| 0u32),
        num_outputs: num_outputs as int,
    };
    let ghost bs = block_size as int;
    proof {
        lemma_parts(r, bs);
        lemma_bufs_len(0, r.num_outputs, bs);
        assert(num_outputs * block_size <= u64::MAX * u64::MAX) by (nonlinear_arith)
            requires
                0 <= num_outputs <= u64::MAX,
                0 <= block_size <= u64::MAX,
        ;
    }
    let state_off: u128 = wide_up(off as u128 + HEADER_WORDS as u128 * 4, STATE_ALIGN as u128);
    let inputs_off: u128 = wide_up(state_off + state_len as u128, 4);
    let outputs_off: u128 = wide_up(inputs_off + num_inputs as u128 * 4, BUF_ALIGN as u128);
    let samples: u128 = num_outputs as u128 * block_size as u128;
    if outputs_off > 0xFFFF_FFFF || samples > 0xFFFF_FFFF {
        return None;
    }
    let end: u128 = wide_up(outputs_off + samples * 4, RECORD_ALIGN as u128);
    if end > 0xFFFF_FFFF {
        None
    } else {
        Some(end as u32)
    }
}

/// The end of a block of `len` bytes at `off`, aligned to `align`, if `u32` offsets reach it.
pub(crate) fn block_end(off: u32, len: usize, align: usize) -> (end: Option<u32>)
    requires
        0 < align <= 64,
    ensures
        match end {
            Some(e) => e == up(off + len, align as int),
            None => up(off + len, align as int) > u32::MAX,
        },
{
    let end: u128 = wide_up(off as u128 + len as u128, align as u128);
    if end > 0xFFFF_FFFF {
        None
    } else {
        Some(end as u32)
    }
}

} // verus!
