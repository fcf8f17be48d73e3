//! The single-buffer processing plan.
//!
//! One contiguous byte buffer holds every module's state and output buffers plus the schedule,
//! in topological order. The audio callback just walks it; all layout happens beforehand.
//! References inside the buffer are `u32` byte offsets (relocatable); dispatch is a `u32` index
//! into a function table.

use vstd::prelude::*;
use crate::bytes::{agree, lemma_put_words, lemma_word_agree, packed, read_u32, read_words, store_u32, word_at, word_bytes, words, write_bytes, write_words};
use crate::layout::{BUF_ALIGN, HEADER_WORDS, RECORD_ALIGN, Rec, SAMPLE, STATE_ALIGN, TERMINATOR, align_up, block_end, bufs_len, end_at, lemma_bufs_len, lemma_parts, outputs_at, record_end, up};
use crate::processing::callable;
use crate::walk::{after_walk, holds, lemma_header_agree, lemma_in_order, lemma_turn_holds, linked, place, reads_back, schedule, take_turn};

pub use crate::processing::{ProcessFn, TickCtx};
pub use crate::voice_layout::{VoiceRecordSpec, VoiceSource};
pub use crate::voiced_plan::VoicedPlan;
pub use crate::walk::{Record, input, output};

verus! {

/// Where an input port reads from, while building (resolved to an offset).
#[derive(Debug, Clone, Copy, PartialEq, Eq, Structural)]
pub enum Source {
    /// `(record index, output port)` of a producer earlier in the plan.
    Port(usize, usize),
    /// Unconnected: reads the shared zero buffer.
    Zero,
}

/// One record to lay out, in topological order.
pub struct RecordSpec {
    pub fn_index: u32,
    /// Initial state bytes (its length is the state size).
    pub state: Vec<u8>,
    /// Read-only parameter block.
    pub params: Vec<u8>,
    /// One source per input port, in port order.
    pub inputs: Vec<Source>,
    pub num_outputs: usize,
}

/// Offset of the zero buffer that unconnected inputs read.
pub open spec fn zero_off() -> int {
    64
}

/// Offset of the first record of a plan without voices.
pub open spec fn mono_start(block_size: int) -> int {
    up(zero_off() + 4 * block_size, 64)
}

/// Offset just behind record `spec` placed at `off`.
#[verifier::opaque]
pub open spec fn spec_end(off: int, spec: RecordSpec, block_size: int) -> int {
    end_at(
        off,
        spec.state@.len() as int,
        spec.inputs@.len() as int,
        spec.num_outputs as int,
        block_size,
    )
}

/// Offset of record `i` of a row of records that starts at `start`.
pub open spec fn rec_off(start: int, block_size: int, specs: Seq<RecordSpec>, i: int) -> int
    decreases i,
{
    if i <= 0 {
        start
    } else {
        spec_end(rec_off(start, block_size, specs, i - 1), specs[i - 1], block_size)
    }
}

/// Offset of output port `port` of record `i`.
pub open spec fn port_off(
    start: int,
    block_size: int,
    specs: Seq<RecordSpec>,
    i: int,
    port: int,
) -> int {
    outputs_at(
        rec_off(start, block_size, specs, i),
        specs[i].state@.len() as int,
        specs[i].inputs@.len() as int,
    ) + bufs_len(port, block_size)
}

/// Offset of the buffer that an input port with source `src` reads.
pub open spec fn source_off(
    start: int,
    block_size: int,
    specs: Seq<RecordSpec>,
    src: Source,
) -> int {
    match src {
        Source::Port(rec, port) => port_off(start, block_size, specs, rec as int, port as int),
        Source::Zero => zero_off(),
    }
}

/// Record `i` of a row of records that starts at `start`, with its parameters at `params_off`.
pub open spec fn rec_of(
    start: int,
    block_size: int,
    specs: Seq<RecordSpec>,
    i: int,
    params_off: int,
) -> Rec {
    Rec {
        off: rec_off(start, block_size, specs, i),
        fn_index: specs[i].fn_index,
        state_len: specs[i].state@.len() as int,
        params_off,
        params_len: specs[i].params@.len() as int,
        inputs: Seq::new(
            specs[i].inputs@.len(),
            |k: int| source_off(start, block_size, specs, specs[i].inputs@[k]) as u32,
        ),
        num_outputs: specs[i].num_outputs as int,
    }
}

/// Offset of the `i`-th of a row of parameter blocks of the given lengths.
pub open spec fn params_at(base: int, lens: Seq<int>, i: int) -> int
    decreases i,
{
    if i <= 0 {
        base
    } else {
        up(params_at(base, lens, i - 1) + lens[i - 1], 16)
    }
}

/// Lengths of the records' parameter blocks.
pub open spec fn param_lens(specs: Seq<RecordSpec>) -> Seq<int> {
    Seq::new(specs.len(), |i: int| specs[i].params@.len() as int)
}

/// Every input reads an output port of an earlier record, or nothing.
pub open spec fn topological(specs: Seq<RecordSpec>) -> bool {
    forall|i: int, k: int|
        #![trigger specs[i].inputs@[k]]
        0 <= i < specs.len() && 0 <= k < specs[i].inputs@.len() ==> match specs[i].inputs@[k] {
            Source::Port(rec, port) => rec < i && port < specs[rec as int].num_outputs,
            Source::Zero => true,
        }
}

/// The records have no more ports than a header word can count.
pub open spec fn countable(specs: Seq<RecordSpec>) -> bool {
    forall|i: int| 0 <= i < specs.len() ==> (#[trigger] specs[i]).num_outputs <= u32::MAX
}

/// Offset of the terminator of a plan without voices.
pub open spec fn mono_term(block_size: int, specs: Seq<RecordSpec>) -> int {
    rec_off(mono_start(block_size), block_size, specs, specs.len() as int)
}

/// Offset of the parameter section behind a terminator.
pub open spec fn params_start(term: int) -> int {
    up(term + 4, 64)
}

/// Length of the buffer of a plan without voices.
pub open spec fn mono_len(block_size: int, specs: Seq<RecordSpec>) -> int {
    params_at(
        params_start(mono_term(block_size, specs)),
        param_lens(specs),
        specs.len() as int,
    )
}

/// The records of a plan without voices, in the order of the walk.
pub open spec fn mono_recs(block_size: int, specs: Seq<RecordSpec>) -> Seq<Rec> {
    Seq::new(
        specs.len(),
        |i: int|
            rec_of(
                mono_start(block_size),
                block_size,
                specs,
                i,
                params_at(
                    params_start(mono_term(block_size, specs)),
                    param_lens(specs),
                    i,
                ),
            ),
    )
}

/// The records can be laid out: producers come first, and `u32` offsets reach everything.
pub open spec fn plannable(block_size: int, specs: Seq<RecordSpec>) -> bool {
    &&& topological(specs)
    &&& countable(specs)
    &&& mono_len(block_size, specs) <= u32::MAX
}

/// The bytes between `lo` and `hi` are zero.
pub open spec fn zeroed(b: Seq<u8>, lo: int, hi: int) -> bool {
    forall|i: int| lo <= i < hi ==> #[trigger] b[i] == 0
}

/// Zero bytes are zero words.
pub proof fn lemma_zero_words(b: Seq<u8>, lo: int, hi: int, off: int, n: int)
    requires
        zeroed(b, lo, hi),
        lo <= off,
        0 <= n,
        off + 4 * n <= hi,
    ensures
        words(b, off, n) == Seq::new(n as nat, |i: int| 0u32),
{
    assert forall|i: int| 0 <= i < n implies words(b, off, n)[i] == 0u32 by {
        assert(b[off + 4 * i] == 0 && b[off + 4 * i + 1] == 0 && b[off + 4 * i + 2] == 0 && b[off + 4
            * i + 3] == 0);
    }
    assert(words(b, off, n) =~= Seq::new(n as nat, |i: int| 0u32));
}

/// A record is at least as long as its alignment.
pub proof fn lemma_spec_end(off: int, spec: RecordSpec, block_size: int)
    requires
        0 <= off,
        off % 64 == 0,
        0 <= block_size,
    ensures
        off + 64 <= spec_end(off, spec, block_size),
        spec_end(off, spec, block_size) % 64 == 0,
{
    reveal(spec_end);
    let r = Rec {
        off,
        fn_index: 0,
        state_len: spec.state@.len() as int,
        params_off: 0,
        params_len: 0,
        inputs: Seq::new(spec.inputs@.len(), |k: int| 0u32),
        num_outputs: spec.num_outputs as int,
    };
    lemma_parts(r, block_size);
}

/// Records further on lie further back, on record boundaries.
pub proof fn lemma_rec_off(start: int, block_size: int, specs: Seq<RecordSpec>, i: int, j: int)
    requires
        0 <= i <= j <= specs.len(),
        0 <= start,
        start % 64 == 0,
        0 <= block_size,
    ensures
        start <= rec_off(start, block_size, specs, i) <= rec_off(start, block_size, specs, j),
        rec_off(start, block_size, specs, i) % 64 == 0,
        i < j ==> spec_end(rec_off(start, block_size, specs, i), specs[i], block_size) <= rec_off(
            start,
            block_size,
            specs,
            j,
        ),
    decreases j,
{
    if j > 0 {
        if i < j {
            lemma_rec_off(start, block_size, specs, i, j - 1);
        }
        lemma_rec_off(start, block_size, specs, j - 1, j - 1);
        lemma_spec_end(rec_off(start, block_size, specs, j - 1), specs[j - 1], block_size);
    }
}

/// Parameter blocks further on lie further back.
pub proof fn lemma_params_at(base: int, lens: Seq<int>, i: int, j: int)
    requires
        0 <= i <= j <= lens.len(),
        forall|k: int| 0 <= k < lens.len() ==> 0 <= #[trigger] lens[k],
    ensures
        base <= params_at(base, lens, i) <= params_at(base, lens, j),
        i < j ==> params_at(base, lens, i) + lens[i] <= params_at(base, lens, j),
    decreases j,
{
    if j > 0 {
        if i < j {
            lemma_params_at(base, lens, i, j - 1);
        } else {
            lemma_params_at(base, lens, j - 1, j - 1);
        }
    }
}

/// The buffers that a record of a row reads lie before it.
pub proof fn lemma_reads_back(start: int, block_size: int, specs: Seq<RecordSpec>, i: int, params_off: int)
    requires
        0 <= i < specs.len(),
        zero_off() + 4 * block_size <= start,
        start % 64 == 0,
        0 <= block_size,
        topological(specs),
        rec_off(start, block_size, specs, specs.len() as int) <= u32::MAX,
    ensures
        reads_back(rec_of(start, block_size, specs, i, params_off), block_size),
        forall|k: int|
            0 <= k < specs[i].inputs@.len() ==> #[trigger] rec_of(
                start,
                block_size,
                specs,
                i,
                params_off,
            ).inputs[k] == source_off(start, block_size, specs, specs[i].inputs@[k]),
{
    let r = rec_of(start, block_size, specs, i, params_off);
    lemma_rec_off(start, block_size, specs, i, specs.len() as int);
    assert forall|k: int| 0 <= k < r.inputs.len() implies #[trigger] r.inputs[k] == source_off(
        start,
        block_size,
        specs,
        specs[i].inputs@[k],
    ) && 64 <= r.inputs[k] && r.inputs[k] + 4 * block_size <= r.off by {
        match specs[i].inputs@[k] {
            Source::Port(rec, port) => {
                let p = rec_of(start, block_size, specs, rec as int, 0);
                lemma_rec_off(start, block_size, specs, rec as int, i);
                lemma_parts(p, block_size);
                reveal(spec_end);
                lemma_bufs_len(port as int, p.num_outputs, block_size);
                lemma_bufs_len(port + 1, p.num_outputs, block_size);
            },
            Source::Zero => {},
        }
    }
}

/// The records of a plannable row are a schedule.
pub proof fn lemma_mono_schedule(block_size: int, specs: Seq<RecordSpec>)
    requires
        0 <= block_size,
        plannable(block_size, specs),
    ensures
        schedule(
            mono_recs(block_size, specs),
            block_size,
            mono_start(block_size),
            mono_term(block_size, specs),
            mono_len(block_size, specs),
        ),
{
    reveal(spec_end);
    let start = mono_start(block_size);
    let term = mono_term(block_size, specs);
    let recs = mono_recs(block_size, specs);
    let base = params_start(term);
    let lens = param_lens(specs);
    let n = specs.len() as int;
    lemma_rec_off(start, block_size, specs, 0, n);
    lemma_params_at(base, lens, 0, n);
    assert forall|i: int| 0 <= i < recs.len() implies (#[trigger] recs[i]).fits(block_size, term)
        && reads_back(recs[i], block_size) && term + 4 <= recs[i].params_off && recs[i].params_off
        + recs[i].params_len <= mono_len(block_size, specs) by {
        lemma_rec_off(start, block_size, specs, i, n);
        lemma_reads_back(start, block_size, specs, i, params_at(base, lens, i));
        lemma_params_at(base, lens, 0, i);
        lemma_params_at(base, lens, i, n);
        assert(recs[i].end(block_size) == spec_end(recs[i].off, specs[i], block_size));
    }
    assert forall|i: int| 0 <= i < recs.len() implies #[trigger] linked(
        recs,
        block_size,
        term,
        i,
    ) by {
        assert(recs[i].end(block_size) == rec_off(start, block_size, specs, i + 1));
    }
}

/// The seven header words of a record that runs.
pub open spec fn headed(
    b: Seq<u8>,
    off: int,
    fn_index: u32,
    state_len: int,
    num_inputs: int,
    num_outputs: int,
    params_off: int,
    params_len: int,
) -> bool {
    &&& word_at(b, off) == 0
    &&& word_at(b, off + 4) == fn_index
    &&& word_at(b, off + 8) == state_len
    &&& word_at(b, off + 12) == num_inputs
    &&& word_at(b, off + 16) == num_outputs
    &&& word_at(b, off + 20) == params_off
    &&& word_at(b, off + 24) == params_len
}

/// Writes the header words of a record that runs.
fn write_header(
    buf: &mut Vec<u8>,
    off: usize,
    fn_index: u32,
    state_len: u32,
    num_inputs: u32,
    num_outputs: u32,
    params_off: u32,
    params_len: u32,
)
    requires
        off + 28 <= old(buf).len(),
    ensures
        final(buf).len() == old(buf).len(),
        agree(old(buf)@, final(buf)@, 0, off as int),
        agree(old(buf)@, final(buf)@, off + 28, old(buf).len() as int),
        headed(
            final(buf)@,
            off as int,
            fn_index,
            state_len as int,
            num_inputs as int,
            num_outputs as int,
            params_off as int,
            params_len as int,
        ),
{
    let ghost o = off as int;
    store_u32(buf, off, 0);
    let ghost b0 = buf@;
    store_u32(buf, off + 4, fn_index);
    let ghost b1 = buf@;
    proof {
        lemma_word_agree(b0, b1, 0, o + 4, o);
    }
    store_u32(buf, off + 8, state_len);
    let ghost b2 = buf@;
    proof {
        lemma_word_agree(b1, b2, 0, o + 8, o);
        lemma_word_agree(b1, b2, 0, o + 8, o + 4);
    }
    store_u32(buf, off + 12, num_inputs);
    let ghost b3 = buf@;
    proof {
        lemma_word_agree(b2, b3, 0, o + 12, o);
        lemma_word_agree(b2, b3, 0, o + 12, o + 4);
        lemma_word_agree(b2, b3, 0, o + 12, o + 8);
    }
    store_u32(buf, off + 16, num_outputs);
    let ghost b4 = buf@;
    proof {
        lemma_word_agree(b3, b4, 0, o + 16, o);
        lemma_word_agree(b3, b4, 0, o + 16, o + 4);
        lemma_word_agree(b3, b4, 0, o + 16, o + 8);
        lemma_word_agree(b3, b4, 0, o + 16, o + 12);
    }
    store_u32(buf, off + 20, params_off);
    let ghost b5 = buf@;
    proof {
        lemma_word_agree(b4, b5, 0, o + 20, o);
        lemma_word_agree(b4, b5, 0, o + 20, o + 4);
        lemma_word_agree(b4, b5, 0, o + 20, o + 8);
        lemma_word_agree(b4, b5, 0, o + 20, o + 12);
        lemma_word_agree(b4, b5, 0, o + 20, o + 16);
    }
    store_u32(buf, off + 24, params_len);
    let ghost b6 = buf@;
    proof {
        lemma_word_agree(b5, b6, 0, o + 24, o);
        lemma_word_agree(b5, b6, 0, o + 24, o + 4);
        lemma_word_agree(b5, b6, 0, o + 24, o + 8);
        lemma_word_agree(b5, b6, 0, o + 24, o + 12);
        lemma_word_agree(b5, b6, 0, o + 24, o + 16);
        lemma_word_agree(b5, b6, 0, o + 24, o + 20);
        let b = old(buf)@;
        assert forall|i: int| 0 <= i < o implies #[trigger] b[i] == b6[i] by {
            assert(b[i] == b0[i] && b0[i] == b1[i] && b1[i] == b2[i] && b2[i] == b3[i] && b3[i]
                == b4[i] && b4[i] == b5[i]);
        }
        assert forall|i: int| o + 28 <= i < b.len() implies #[trigger] b[i] == b6[i] by {
            assert(b[i] == b0[i] && b0[i] == b1[i] && b1[i] == b2[i] && b2[i] == b3[i] && b3[i]
                == b4[i] && b4[i] == b5[i]);
        }
    }
}

/// Writes the header, the state and the input words of record `r`.
pub(crate) fn write_record(
    buf: &mut Vec<u8>,
    off: usize,
    fn_index: u32,
    state: &Vec<u8>,
    inputs: &Vec<u32>,
    num_outputs: usize,
    params_off: usize,
    params_len: usize,
    block_size: usize,
    Ghost(r): Ghost<Rec>,
)
    requires
        r == (Rec {
            off: off as int,
            fn_index,
            state_len: state@.len() as int,
            params_off: params_off as int,
            params_len: params_len as int,
            inputs: inputs@,
            num_outputs: num_outputs as int,
        }),
        r.fits(block_size as int, old(buf).len() as int),
        params_off + params_len <= u32::MAX,
    ensures
        final(buf).len() == old(buf).len(),
        agree(old(buf)@, final(buf)@, 0, r.off),
        agree(old(buf)@, final(buf)@, r.outputs_off(), old(buf).len() as int),
        r.stored(final(buf)@, block_size as int),
        r.active(final(buf)@),
        r.state(final(buf)@) == state@,
{
    proof {
        lemma_parts(r, block_size as int);
    }
    let state_off: usize = align_up(off + HEADER_WORDS * 4, STATE_ALIGN);
    let inputs_off: usize = align_up(state_off + state.len(), 4);
    write_header(
        buf,
        off,
        fn_index,
        state.len() as u32,
        inputs.len() as u32,
        num_outputs as u32,
        params_off as u32,
        params_len as u32,
    );
    let ghost b6 = buf@;
    write_bytes(buf, state_off, state, state.len());
    let ghost b7 = buf@;
    write_words(buf, inputs_off, inputs, inputs.len());
    proof {
        let b = old(buf)@;
        let c = buf@;
        let o = off as int;
        assert(state@.take(state.len() as int) =~= state@);
        assert(inputs@.take(inputs.len() as int) =~= inputs@);
        lemma_put_words(b7, inputs_off as int, inputs@);
        assert(agree(b6, c, o, o + 28));
        lemma_word_agree(b6, c, o, o + 28, o);
        lemma_word_agree(b6, c, o, o + 28, o + 4);
        lemma_word_agree(b6, c, o, o + 28, o + 8);
        lemma_word_agree(b6, c, o, o + 28, o + 12);
        lemma_word_agree(b6, c, o, o + 28, o + 16);
        lemma_word_agree(b6, c, o, o + 28, o + 20);
        lemma_word_agree(b6, c, o, o + 28, o + 24);
        assert(r.state(c) =~= state@);
        assert forall|i: int| 0 <= i < r.off implies #[trigger] b[i] == c[i] by {
            assert(b[i] == b6[i]);
        }
        assert forall|i: int| r.outputs_off() <= i < b.len() implies #[trigger] b[i] == c[i] by {
            assert(b[i] == b6[i]);
        }
    }
}

/// Record `r` has just been laid out from `state`: it runs, and its output buffers are silent.
pub open spec fn written(b: Seq<u8>, r: Rec, state: Seq<u8>, block_size: int) -> bool {
    &&& r.stored(b, block_size)
    &&& r.active(b)
    &&& r.state(b) == state
    &&& zeroed(b, r.outputs_off(), r.end(block_size))
}

/// A record that is left alone stays laid out.
pub proof fn lemma_written_agree(
    b: Seq<u8>,
    c: Seq<u8>,
    r: Rec,
    state: Seq<u8>,
    block_size: int,
    lo: int,
    hi: int,
)
    requires
        written(b, r, state, block_size),
        r.fits(block_size, b.len() as int),
        b.len() == c.len(),
        agree(b, c, lo, hi),
        lo <= r.off,
        r.end(block_size) <= hi,
    ensures
        written(c, r, state, block_size),
{
    lemma_parts(r, block_size);
    lemma_header_agree(b, c, r, block_size, lo, hi);
    assert(r.state(c) =~= r.state(b));
    assert forall|i: int| r.outputs_off() <= i < r.end(block_size) implies #[trigger] c[i] == 0 by {
        assert(b[i] == 0 && b[i] == c[i]);
    }
}

/// Computes where the records of a row and their output buffers go.
pub(crate) fn place_records(start: usize, block_size: usize, records: &[RecordSpec]) -> (res: (
    Vec<usize>,
    Vec<u32>,
    usize,
))
    requires
        start % 64 == 0,
        rec_off(start as int, block_size as int, records@, records@.len() as int) <= u32::MAX,
    ensures
        res.0.len() == records.len(),
        res.1.len() == records.len(),
        forall|i: int|
            0 <= i < records.len() ==> #[trigger] res.0@[i] == rec_off(
                start as int,
                block_size as int,
                records@,
                i,
            ),
        forall|i: int|
            0 <= i < records.len() ==> #[trigger] res.1@[i] == port_off(
                start as int,
                block_size as int,
                records@,
                i,
                0,
            ),
        res.2 == rec_off(start as int, block_size as int, records@, records@.len() as int),
{
    let mut size: usize = start;
    let mut offs: Vec<usize> = Vec::new();
    let mut outs: Vec<u32> = Vec::new();
    let mut i: usize = 0;
    while i < records.len()
        invariant
            i <= records.len(),
            start % 64 == 0,
            rec_off(start as int, block_size as int, records@, records@.len() as int) <= u32::MAX,
            size == rec_off(start as int, block_size as int, records@, i as int),
            offs.len() == i,
            outs.len() == i,
            forall|k: int|
                0 <= k < i ==> #[trigger] offs@[k] == rec_off(
                    start as int,
                    block_size as int,
                    records@,
                    k,
                ),
            forall|k: int|
                0 <= k < i ==> #[trigger] outs@[k] == port_off(
                    start as int,
                    block_size as int,
                    records@,
                    k,
                    0,
                ),
        decreases records.len() - i,
    {
        let r = &records[i];
        let ghost q = rec_of(start as int, block_size as int, records@, i as int, 0);
        proof {
            reveal(spec_end);
            lemma_rec_off(start as int, block_size as int, records@, i + 1, records@.len() as int);
            lemma_rec_off(start as int, block_size as int, records@, i as int, i + 1);
            lemma_parts(q, block_size as int);
            lemma_bufs_len(0, q.num_outputs, block_size as int);
            assert(q.end(block_size as int) == rec_off(
                start as int,
                block_size as int,
                records@,
                i + 1,
            ));
        }
        offs.push(size);
        let state_off: usize = align_up(size + HEADER_WORDS * 4, STATE_ALIGN);
        let inputs_off: usize = align_up(state_off + r.state.len(), 4);
        let outputs_off: usize = align_up(inputs_off + r.inputs.len() * 4, BUF_ALIGN);
        outs.push(outputs_off as u32);
        size = align_up(outputs_off + r.num_outputs * block_size * SAMPLE, RECORD_ALIGN);
        i = i + 1;
    }
    (offs, outs, size)
}

/// The parameter blocks of the records, in order.
pub(crate) fn param_blocks<'a>(records: &'a [RecordSpec]) -> (blocks: Vec<&'a Vec<u8>>)
    ensures
        measured(blocks@, param_lens(records@)),
        forall|i: int| 0 <= i < records.len() ==> *(#[trigger] blocks@[i]) == records@[i].params,
{
    let mut blocks: Vec<&'a Vec<u8>> = Vec::new();
    let mut i: usize = 0;
    while i < records.len()
        invariant
            i <= records.len(),
            blocks.len() == i,
            forall|k: int| 0 <= k < i ==> *(#[trigger] blocks@[k]) == records@[k].params,
        decreases records.len() - i,
    {
        blocks.push(&records[i].params);
        i = i + 1;
    }
    blocks
}

/// The blocks have the given lengths.
pub open spec fn measured(blocks: Seq<&Vec<u8>>, lens: Seq<int>) -> bool {
    &&& blocks.len() == lens.len()
    &&& forall|i: int| 0 <= i < blocks.len() ==> (#[trigger] blocks[i])@.len() == lens[i]
}

/// Computes where parameter blocks of the given lengths go, from `base` on.
pub(crate) fn place_params(base: usize, blocks: &Vec<&Vec<u8>>, Ghost(lens): Ghost<Seq<int>>) -> (res:
    (Vec<usize>, usize))
    requires
        measured(blocks@, lens),
        params_at(base as int, lens, lens.len() as int) <= u32::MAX,
    ensures
        res.0.len() == lens.len(),
        forall|i: int|
            0 <= i < lens.len() ==> #[trigger] res.0@[i] == params_at(base as int, lens, i),
        res.1 == params_at(base as int, lens, lens.len() as int),
{
    let mut size: usize = base;
    let mut offs: Vec<usize> = Vec::new();
    let mut i: usize = 0;
    proof {
        lemma_measured(blocks@, lens);
    }
    while i < blocks.len()
        invariant
            i <= blocks.len(),
            measured(blocks@, lens),
            forall|k: int| 0 <= k < lens.len() ==> 0 <= #[trigger] lens[k],
            params_at(base as int, lens, lens.len() as int) <= u32::MAX,
            size == params_at(base as int, lens, i as int),
            offs.len() == i,
            forall|k: int| 0 <= k < i ==> #[trigger] offs@[k] == params_at(base as int, lens, k),
        decreases blocks.len() - i,
    {
        proof {
            lemma_params_at(base as int, lens, i + 1, lens.len() as int);
            lemma_params_at(base as int, lens, i as int, i + 1);
            assert(blocks@[i as int]@.len() == lens[i as int]);
            assert(params_at(base as int, lens, i + 1) == up(size + lens[i as int], 16));
        }
        offs.push(size);
        size = align_up(size + blocks[i].len(), STATE_ALIGN);
        i = i + 1;
    }
    (offs, size)
}

/// Lengths are not negative.
pub proof fn lemma_measured(blocks: Seq<&Vec<u8>>, lens: Seq<int>)
    requires
        measured(blocks, lens),
    ensures
        forall|k: int| 0 <= k < lens.len() ==> 0 <= #[trigger] lens[k],
{
    assert forall|k: int| 0 <= k < lens.len() implies 0 <= #[trigger] lens[k] by {
        assert(blocks[k]@.len() == lens[k]);
    }
}

/// Resolves the sources of record `i` to offsets.
fn resolve_sources(
    records: &[RecordSpec],
    i: usize,
    outs: &Vec<u32>,
    start: usize,
    block_size: usize,
    Ghost(params_off): Ghost<int>,
) -> (offs: Vec<u32>)
    requires
        i < records.len(),
        zero_off() + 4 * block_size <= start,
        start % 64 == 0,
        topological(records@),
        rec_off(start as int, block_size as int, records@, records@.len() as int) <= u32::MAX,
        outs.len() == records.len(),
        forall|k: int|
            0 <= k < records.len() ==> #[trigger] outs@[k] == port_off(
                start as int,
                block_size as int,
                records@,
                k,
                0,
            ),
    ensures
        offs@ == rec_of(start as int, block_size as int, records@, i as int, params_off).inputs,
{
    let ghost r = rec_of(start as int, block_size as int, records@, i as int, params_off);
    let inputs = &records[i].inputs;
    let mut offs: Vec<u32> = Vec::new();
    let mut k: usize = 0;
    proof {
        lemma_reads_back(start as int, block_size as int, records@, i as int, params_off);
        lemma_rec_off(start as int, block_size as int, records@, i as int, records@.len() as int);
    }
    while k < inputs.len()
        invariant
            k <= inputs.len(),
            i < records.len(),
            *inputs == records@[i as int].inputs,
            topological(records@),
            outs.len() == records.len(),
            forall|k: int|
                0 <= k < records.len() ==> #[trigger] outs@[k] == port_off(
                    start as int,
                    block_size as int,
                    records@,
                    k,
                    0,
                ),
            r.inputs.len() == inputs.len(),
            r.off <= u32::MAX,
            reads_back(r, block_size as int),
            forall|k: int|
                0 <= k < inputs.len() ==> #[trigger] r.inputs[k] == source_off(
                    start as int,
                    block_size as int,
                    records@,
                    inputs@[k],
                ),
            offs@ =~= r.inputs.take(k as int),
        decreases inputs.len() - k,
    {
        let src = inputs[k];
        assert(r.inputs[k as int] + 4 * block_size <= r.off);
        let off: u32 = match src {
            Source::Port(rec, port) => {
                assert(records@[i as int].inputs@[k as int] == src);
                proof {
                    lemma_bufs_len(0, port as int, block_size as int);
                    assert(outs@[rec as int] == port_off(
                        start as int,
                        block_size as int,
                        records@,
                        rec as int,
                        0,
                    ));
                }
                outs[rec] + (port * block_size * SAMPLE) as u32
            },
            Source::Zero => 64,
        };
        offs.push(off);
        k = k + 1;
    }
    assert(r.inputs.take(k as int) =~= r.inputs);
    offs
}

/// Writes the records of a row into a buffer that is still zero there.
pub(crate) fn write_records(
    buf: &mut Vec<u8>,
    start: usize,
    block_size: usize,
    records: &[RecordSpec],
    offs: &Vec<usize>,
    outs: &Vec<u32>,
    params_offs: &Vec<usize>,
)
    requires
        zero_off() + 4 * block_size <= start,
        start % 64 == 0,
        topological(records@),
        countable(records@),
        rec_off(start as int, block_size as int, records@, records@.len() as int) <= old(buf).len()
            <= u32::MAX,
        zeroed(
            old(buf)@,
            start as int,
            rec_off(start as int, block_size as int, records@, records@.len() as int),
        ),
        offs.len() == records.len(),
        forall|k: int|
            0 <= k < records.len() ==> #[trigger] offs@[k] == rec_off(
                start as int,
                block_size as int,
                records@,
                k,
            ),
        outs.len() == records.len(),
        forall|k: int|
            0 <= k < records.len() ==> #[trigger] outs@[k] == port_off(
                start as int,
                block_size as int,
                records@,
                k,
                0,
            ),
        params_offs.len() >= records.len(),
        forall|k: int|
            0 <= k < records.len() ==> #[trigger] params_offs@[k] + records@[k].params@.len()
                <= u32::MAX,
    ensures
        final(buf).len() == old(buf).len(),
        agree(old(buf)@, final(buf)@, 0, start as int),
        agree(
            old(buf)@,
            final(buf)@,
            rec_off(start as int, block_size as int, records@, records@.len() as int),
            old(buf).len() as int,
        ),
        forall|i: int|
            0 <= i < records.len() ==> written(
                final(buf)@,
                rec_of(
                    start as int,
                    block_size as int,
                    records@,
                    i,
                    #[trigger] params_offs@[i] as int,
                ),
                records@[i].state@,
                block_size as int,
            ),
{
    let ghost b = buf@;
    let ghost n = records@.len() as int;
    let ghost bs = block_size as int;
    let ghost st = start as int;
    let ghost end = rec_off(st, bs, records@, n);
    let mut i: usize = 0;
    proof {
        lemma_rec_off(st, bs, records@, 0, n);
    }
    while i < records.len()
        invariant
            i <= records.len(),
            n == records@.len(),
            bs == block_size,
            st == start,
            end == rec_off(st, bs, records@, n),
            b == old(buf)@,
            zero_off() + 4 * block_size <= start,
            start % 64 == 0,
            topological(records@),
            countable(records@),
            end <= b.len() <= u32::MAX,
            offs.len() == records.len(),
            forall|k: int|
                0 <= k < records.len() ==> #[trigger] offs@[k] == rec_off(st, bs, records@, k),
            outs.len() == records.len(),
            forall|k: int|
                0 <= k < records.len() ==> #[trigger] outs@[k] == port_off(st, bs, records@, k, 0),
            params_offs.len() >= records.len(),
            forall|k: int|
                0 <= k < records.len() ==> #[trigger] params_offs@[k] + records@[k].params@.len()
                    <= u32::MAX,
            buf.len() == b.len(),
            agree(b, buf@, 0, st),
            agree(b, buf@, end, b.len() as int),
            zeroed(buf@, rec_off(st, bs, records@, i as int), end),
            forall|k: int|
                0 <= k < i ==> written(
                    buf@,
                    rec_of(st, bs, records@, k, #[trigger] params_offs@[k] as int),
                    records@[k].state@,
                    bs,
                ),
        decreases records.len() - i,
    {
        let ghost before = buf@;
        let ghost r = rec_of(st, bs, records@, i as int, params_offs@[i as int] as int);
        proof {
            reveal(spec_end);
            lemma_rec_off(st, bs, records@, i as int, n);
            lemma_rec_off(st, bs, records@, i + 1, n);
            assert(r.end(bs) == rec_off(st, bs, records@, i + 1));
            assert(records@[i as int].num_outputs <= u32::MAX);
            lemma_parts(r, bs);
            assert(params_offs@[i as int] + records@[i as int].params@.len() <= u32::MAX);
        }
        let inputs = resolve_sources(records, i, outs, start, block_size, Ghost(r.params_off));
        write_record(
            buf,
            offs[i],
            records[i].fn_index,
            &records[i].state,
            &inputs,
            records[i].num_outputs,
            params_offs[i],
            records[i].params.len(),
            block_size,
            Ghost(r),
        );
        proof {
            assert forall|p: int| r.outputs_off() <= p < end implies #[trigger] buf@[p] == 0 by {
                assert(before[p] == 0 && before[p] == buf@[p]);
            }
            assert forall|k: int| 0 <= k < i + 1 implies written(
                buf@,
                rec_of(st, bs, records@, k, #[trigger] params_offs@[k] as int),
                records@[k].state@,
                bs,
            ) by {
                if k < i {
                    let q = rec_of(st, bs, records@, k, params_offs@[k] as int);
                    lemma_rec_off(st, bs, records@, k, i as int);
                    lemma_rec_off(st, bs, records@, k, n);
                    assert(records@[k].num_outputs <= u32::MAX);
                    lemma_written_agree(before, buf@, q, records@[k].state@, bs, 0, r.off);
                }
            }
            assert forall|p: int| 0 <= p < st implies #[trigger] b[p] == buf@[p] by {
                assert(b[p] == before[p] && before[p] == buf@[p]);
            }
            assert forall|p: int| end <= p < b.len() implies #[trigger] b[p] == buf@[p] by {
                assert(b[p] == before[p] && before[p] == buf@[p]);
            }
        }
        i = i + 1;
    }
}

/// Writes the parameter blocks to their places.
pub(crate) fn write_params(
    buf: &mut Vec<u8>,
    base: usize,
    blocks: &Vec<&Vec<u8>>,
    offs: &Vec<usize>,
    Ghost(lens): Ghost<Seq<int>>,
)
    requires
        measured(blocks@, lens),
        params_at(base as int, lens, lens.len() as int) <= old(buf).len() <= u32::MAX,
        offs.len() == lens.len(),
        forall|i: int|
            0 <= i < lens.len() ==> #[trigger] offs@[i] == params_at(base as int, lens, i),
    ensures
        final(buf).len() == old(buf).len(),
        agree(old(buf)@, final(buf)@, 0, base as int),
        forall|i: int|
            0 <= i < lens.len() ==> final(buf)@.subrange(
                #[trigger] offs@[i] as int,
                offs@[i] + lens[i],
            ) == blocks@[i]@,
{
    let ghost b = buf@;
    let ghost n = lens.len() as int;
    let mut i: usize = 0;
    proof {
        lemma_measured(blocks@, lens);
        lemma_params_at(base as int, lens, 0, n);
    }
    while i < blocks.len()
        invariant
            i <= blocks.len(),
            measured(blocks@, lens),
            forall|k: int| 0 <= k < lens.len() ==> 0 <= #[trigger] lens[k],
            n == lens.len(),
            b == old(buf)@,
            params_at(base as int, lens, n) <= b.len() <= u32::MAX,
            offs.len() == lens.len(),
            forall|i: int|
                0 <= i < lens.len() ==> #[trigger] offs@[i] == params_at(base as int, lens, i),
            buf.len() == b.len(),
            agree(b, buf@, 0, base as int),
            forall|k: int|
                0 <= k < i ==> buf@.subrange(#[trigger] offs@[k] as int, offs@[k] + lens[k])
                    == blocks@[k]@,
        decreases blocks.len() - i,
    {
        let ghost before = buf@;
        proof {
            assert(offs@[i as int] == params_at(base as int, lens, i as int));
            lemma_params_at(base as int, lens, 0, i as int);
            lemma_params_at(base as int, lens, i as int, n);
            assert(blocks@[i as int]@.len() == lens[i as int]);
        }
        write_bytes(buf, offs[i], blocks[i], blocks[i].len());
        proof {
            let data = blocks@[i as int]@;
            assert(data.take(data.len() as int) =~= data);
            assert forall|k: int| 0 <= k < i + 1 implies buf@.subrange(
                #[trigger] offs@[k] as int,
                offs@[k] + lens[k],
            ) == blocks@[k]@ by {
                let at = offs@[k] as int;
                let len = lens[k];
                lemma_params_at(base as int, lens, k, n);
                assert(blocks@[k]@.len() == len);
                if k < i {
                    lemma_params_at(base as int, lens, k, i as int);
                    assert(buf@.subrange(at, at + len) =~= before.subrange(at, at + len));
                } else {
                    assert(buf@.subrange(at, at + len) =~= data);
                }
            }
        }
        i = i + 1;
    }
}

/// The end of a row of records that starts at `start`, if `u32` offsets reach it.
pub(crate) fn row_end(start: u32, block_size: usize, records: &[RecordSpec]) -> (end: Option<u32>)
    requires
        start % 64 == 0,
    ensures
        match end {
            Some(e) => e == rec_off(
                start as int,
                block_size as int,
                records@,
                records@.len() as int,
            ),
            None => rec_off(start as int, block_size as int, records@, records@.len() as int)
                > u32::MAX,
        },
{
    let ghost bs = block_size as int;
    let ghost n = records@.len() as int;
    let mut size: u32 = start;
    let mut i: usize = 0;
    while i < records.len()
        invariant
            i <= records.len(),
            n == records@.len(),
            bs == block_size,
            start % 64 == 0,
            size == rec_off(start as int, bs, records@, i as int),
        decreases records.len() - i,
    {
        let r = &records[i];
        proof {
            reveal(spec_end);
            lemma_rec_off(start as int, bs, records@, i as int, n);
            lemma_rec_off(start as int, bs, records@, i + 1, n);
        }
        match record_end(size, r.state.len(), r.inputs.len(), r.num_outputs, block_size) {
            Some(end) => {
                size = end;
            },
            None => {
                return None;
            },
        }
        i = i + 1;
    }
    Some(size)
}

/// The end of a row of parameter blocks that starts at `base`, if `u32` offsets reach it.
pub(crate) fn params_end(base: u32, blocks: &Vec<&Vec<u8>>, Ghost(lens): Ghost<Seq<int>>) -> (end:
    Option<u32>)
    requires
        measured(blocks@, lens),
    ensures
        match end {
            Some(e) => e == params_at(base as int, lens, lens.len() as int),
            None => params_at(base as int, lens, lens.len() as int) > u32::MAX,
        },
{
    let mut size: u32 = base;
    let mut i: usize = 0;
    proof {
        lemma_measured(blocks@, lens);
    }
    while i < blocks.len()
        invariant
            i <= blocks.len(),
            measured(blocks@, lens),
            forall|k: int| 0 <= k < lens.len() ==> 0 <= #[trigger] lens[k],
            size == params_at(base as int, lens, i as int),
        decreases blocks.len() - i,
    {
        proof {
            lemma_params_at(base as int, lens, i + 1, lens.len() as int);
            assert(blocks@[i as int]@.len() == lens[i as int]);
            assert(params_at(base as int, lens, i + 1) == up(size + lens[i as int], 16));
        }
        match block_end(size, blocks[i].len(), STATE_ALIGN) {
            Some(end) => {
                size = end;
            },
            None => {
                return None;
            },
        }
        i = i + 1;
    }
    Some(size)
}

/// Whether no record has more ports than a header word can count.
pub(crate) fn ports_countable(records: &[RecordSpec]) -> (r: bool)
    ensures
        r == countable(records@),
{
    let mut i: usize = 0;
    while i < records.len()
        invariant
            i <= records.len(),
            forall|k: int| 0 <= k < i ==> (#[trigger] records@[k]).num_outputs <= u32::MAX,
        decreases records.len() - i,
    {
        if records[i].num_outputs > 0xFFFF_FFFF {
            assert(records@[i as int].num_outputs > u32::MAX);
            return false;
        }
        i = i + 1;
    }
    true
}

/// Whether `u32` offsets reach everything in a plan of these records.
pub fn plan_fits(block_size: usize, records: &[RecordSpec]) -> (r: bool)
    ensures
        r == (countable(records@) && mono_len(block_size as int, records@) <= u32::MAX),
{
    let ghost bs = block_size as int;
    let ghost n = records@.len() as int;
    let ghost lens = param_lens(records@);
    let ghost term = mono_term(bs, records@);
    proof {
        lemma_rec_off(mono_start(bs), bs, records@, 0, n);
        lemma_params_at(params_start(term), lens, 0, n);
    }
    if !ports_countable(records) {
        return false;
    }
    if block_size > 0x3FFF_FFFF {
        return false;
    }
    let start: u32 = match block_end(64, block_size * SAMPLE, BUF_ALIGN) {
        Some(start) => start,
        None => {
            return false;
        },
    };
    let term: u32 = match row_end(start, block_size, records) {
        Some(term) => term,
        None => {
            return false;
        },
    };
    let base: u32 = match block_end(term, 4, RECORD_ALIGN) {
        Some(base) => base,
        None => {
            return false;
        },
    };
    let blocks = param_blocks(records);
    match params_end(base, &blocks, Ghost(lens)) {
        Some(_) => true,
        None => false,
    }
}

/// The compiled plan buffer.
pub struct Plan {
    buf: Vec<u8>,
    block_size: usize,
    records_start: usize,
    /// Output-region offset of each record's port 0 (port k is `+ k * block_size * 4`).
    out_offsets: Vec<u32>,
    specs: Ghost<Seq<RecordSpec>>,
}

/// The buffer of a plan whose records have just been laid out.
pub open spec fn laid_out(b: Seq<u8>, block_size: int, specs: Seq<RecordSpec>) -> bool {
    let recs = mono_recs(block_size, specs);
    &&& b.len() == mono_len(block_size, specs)
    &&& word_at(b, 0) == block_size
    &&& zeroed(b, zero_off(), mono_start(block_size))
    &&& holds(b, recs, block_size, mono_term(block_size, specs))
    &&& forall|i: int|
        0 <= i < specs.len() ==> written(b, #[trigger] recs[i], specs[i].state@, block_size)
            && recs[i].params(b) == specs[i].params@
}

impl Plan {
    /// The plan buffer.
    pub closed spec fn bytes(&self) -> Seq<u8> {
        self.buf@
    }

    /// The records that the plan was built from.
    pub closed spec fn specs(&self) -> Seq<RecordSpec> {
        self.specs@
    }

    /// The largest number of frames of a tick.
    pub closed spec fn capacity(&self) -> usize {
        self.block_size
    }

    /// The records of the walk, in order.
    pub open spec fn recs(&self) -> Seq<Rec> {
        mono_recs(self.capacity() as int, self.specs())
    }

    /// The buffer holds the schedule of its records, and the zero buffer is zero.
    pub closed spec fn wf(&self) -> bool {
        let bs = self.block_size as int;
        &&& plannable(bs, self.specs@)
        &&& self.buf@.len() == mono_len(bs, self.specs@)
        &&& holds(self.buf@, self.recs(), bs, mono_term(bs, self.specs@))
        &&& zeroed(self.buf@, zero_off(), mono_start(bs))
        &&& self.records_start == mono_start(bs)
        &&& self.out_offsets@.len() == self.specs@.len()
        &&& forall|i: int|
            0 <= i < self.specs@.len() ==> #[trigger] self.out_offsets@[i] == port_off(
                mono_start(bs),
                bs,
                self.specs@,
                i,
                0,
            )
    }

    /// What a well-formed plan holds, however often it has been walked: the schedule of its records,
    /// in a buffer of the right length, and a zero buffer that is zero.
    pub proof fn lemma_wf(&self)
        requires
            self.wf(),
        ensures
            plannable(self.capacity() as int, self.specs()),
            self.bytes().len() == mono_len(self.capacity() as int, self.specs()),
            holds(
                self.bytes(),
                self.recs(),
                self.capacity() as int,
                mono_term(self.capacity() as int, self.specs()),
            ),
            zeroed(self.bytes(), zero_off(), mono_start(self.capacity() as int)),
    {
    }

    /// Lay out `records` (topological order) into one buffer.
    pub fn build(block_size: usize, records: &[RecordSpec]) -> (plan: Plan)
        requires
            plannable(block_size as int, records@),
        ensures
            plan.wf(),
            plan.capacity() == block_size,
            plan.specs() == records@,
            laid_out(plan.bytes(), block_size as int, records@),
    {
        let ghost bs = block_size as int;
        let ghost rs = records@;
        let ghost n = rs.len() as int;
        let ghost lens = param_lens(rs);
        let ghost term = mono_term(bs, rs);
        proof {
            lemma_rec_off(mono_start(bs), bs, rs, 0, n);
            lemma_params_at(params_start(term), lens, 0, n);
            lemma_mono_schedule(bs, rs);
        }
        // Header: one word (block_size), then a shared zero buffer for unconnected inputs.
        let zero: usize = align_up(4, BUF_ALIGN);
        let records_start: usize = align_up(zero + block_size * SAMPLE, RECORD_ALIGN);
        let (offs, out_offsets, terminator_off) = place_records(records_start, block_size, records);
        let params_base: usize = align_up(terminator_off + 4, RECORD_ALIGN);
        let blocks = param_blocks(records);
        let (params_offs, size) = place_params(params_base, &blocks, Ghost(lens));

        let mut buf: Vec<u8> = vec![0u8;size];
        let ghost blank = buf@;
        store_u32(&mut buf, 0, block_size as u32);
        let ghost b0 = buf@;
        assert forall|p: int| 4 <= p < size implies #[trigger] b0[p] == 0 by {
            assert(blank[p] == 0 && blank[p] == b0[p]);
        }
        assert forall|k: int| 0 <= k < records.len() implies #[trigger] params_offs@[k]
            + records@[k].params@.len() <= u32::MAX by {
            lemma_params_at(params_start(term), lens, k, n);
            assert(lens[k] == rs[k].params@.len());
        }
        write_records(
            &mut buf,
            records_start,
            block_size,
            records,
            &offs,
            &out_offsets,
            &params_offs,
        );
        let ghost b1 = buf@;
        store_u32(&mut buf, terminator_off, TERMINATOR);
        let ghost b2 = buf@;
        write_params(&mut buf, params_base, &blocks, &params_offs, Ghost(lens));
        proof {
            let b = buf@;
            let recs = mono_recs(bs, rs);
            lemma_word_agree(b2, b, 0, params_base as int, term);
            assert forall|p: int| zero_off() <= p < mono_start(bs) implies #[trigger] b[p] == 0 by {
                assert(b0[p] == b1[p] && b1[p] == b2[p] && b2[p] == b[p]);
            }
            assert forall|i: int| 0 <= i < rs.len() implies written(
                b,
                #[trigger] recs[i],
                rs[i].state@,
                bs,
            ) && recs[i].params(b) == rs[i].params@ by {
                assert(recs[i] == rec_of(mono_start(bs), bs, rs, i, params_offs@[i] as int));
                assert(recs[i].fits(bs, term));
                assert(*blocks@[i] == rs[i].params);
                lemma_written_agree(b1, b2, recs[i], rs[i].state@, bs, 0, term);
                lemma_written_agree(b2, b, recs[i], rs[i].state@, bs, 0, params_base as int);
            }
            lemma_word_agree(b0, b1, 0, mono_start(bs), 0);
            lemma_word_agree(b1, b2, 0, term, 0);
            lemma_word_agree(b2, b, 0, params_base as int, 0);
            assert(holds(b, recs, bs, term));
        }
        Plan { buf, block_size, records_start, out_offsets, specs: Ghost(rs) }
    }

    /// The block size that the plan was built for.
    pub fn block_size(&self) -> (n: usize)
        ensures
            n == self.capacity(),
    {
        self.block_size
    }

    /// Byte offset of `record`'s output port `port`.
    pub fn output_offset(&self, record: usize, port: usize) -> (off: u32)
        requires
            self.wf(),
            record < self.specs().len(),
            port < self.specs()[record as int].num_outputs,
        ensures
            off == self.recs()[record as int].output_off(port as int, self.capacity() as int),
            off + 4 * self.capacity() <= self.bytes().len(),
    {
        let ghost bs = self.block_size as int;
        proof {
            let r = self.recs()[record as int];
            lemma_mono_schedule(bs, self.specs@);
            assert(r.fits(bs, mono_term(bs, self.specs@)));
            lemma_parts(r, bs);
            lemma_bufs_len(0, port as int, bs);
            lemma_bufs_len(port as int, r.num_outputs, bs);
            lemma_bufs_len(port + 1, r.num_outputs, bs);
            assert(self.out_offsets@[record as int] == port_off(
                mono_start(bs),
                bs,
                self.specs@,
                record as int,
                0,
            ));
        }
        self.out_offsets[record] + (port * self.block_size * SAMPLE) as u32
    }

    /// Read an output buffer by absolute byte offset.
    pub fn buffer_at(&self, offset: u32, frames: usize) -> (buf: Vec<u32>)
        requires
            offset + 4 * frames <= self.bytes().len(),
        ensures
            buf@ == words(self.bytes(), offset as int, frames as int),
    {
        read_words(&self.buf, offset as usize, frames)
    }

    /// Walk the plan once, dispatching each record through `fns`.
    pub fn run<P: ProcessFn>(&mut self, fns: &[P], sample_rate: u32, time: u64, frames: usize)
        requires
            old(self).wf(),
            forall|i: int|
                0 <= i < old(self).specs().len() ==> runnable(
                    fns@,
                    #[trigger] old(self).specs()[i],
                ),
        ensures
            final(self).wf(),
            final(self).capacity() == old(self).capacity(),
            final(self).specs() == old(self).specs(),
            final(self).bytes() == after_walk(
                old(self).bytes(),
                old(self).recs(),
                fns@,
                tick_of(old(self).capacity(), frames, sample_rate, time),
                old(self).specs().len() as int,
            ),
    {
        let tick = TickCtx {
            frames: if frames <= self.block_size {
                frames
            } else {
                self.block_size
            },
            block_size: self.block_size,
            sample_rate,
            time,
        };
        let ghost bs = self.block_size as int;
        let ghost rs = self.specs@;
        let ghost recs = self.recs();
        let ghost start = mono_start(bs);
        let ghost term = mono_term(bs, rs);
        let ghost b = self.buf@;
        let ghost mut k: int = 0;
        let mut off: usize = self.records_start;
        proof {
            lemma_mono_schedule(bs, rs);
            if recs.len() > 0 {
                assert(recs[0].fits(bs, term));
            }
        }
        loop
            invariant
                bs == self.block_size,
                rs == self.specs@,
                recs == mono_recs(bs, rs),
                recs.len() == rs.len(),
                start == mono_start(bs),
                term == mono_term(bs, rs),
                b.len() == mono_len(bs, rs),
                tick == tick_of(self.block_size, frames, sample_rate, time),
                schedule(recs, bs, start, term, b.len() as int),
                forall|i: int| 0 <= i < rs.len() ==> runnable(fns@, #[trigger] rs[i]),
                self.wf(),
                0 <= k <= recs.len(),
                off == place(recs, term, k),
                self.buf@ == after_walk(b, recs, fns@, tick, k),
            ensures
                bs == self.block_size,
                rs == self.specs@,
                k == recs.len(),
                self.wf(),
                self.buf@ == after_walk(b, recs, fns@, tick, k),
            decreases recs.len() - k,
        {
            proof {
                if k < recs.len() {
                    assert(recs[k].fits(bs, term));
                    assert(recs[k].stored(self.buf@, bs));
                    lemma_parts(recs[k], bs);
                }
            }
            let skip: u32 = read_u32(&self.buf, off);
            if skip == TERMINATOR {
                proof {
                    if k < recs.len() {
                        assert(false);
                    }
                }
                break;
            }
            assert(k < recs.len());
            let ghost before = self.buf@;
            proof {
                lemma_turn_holds(before, recs, bs, start, term, k, fns@, tick);
                assert(linked(recs, bs, term, k));
                assert(runnable(fns@, rs[k]));
                lemma_in_order(recs, bs, start, term, b.len() as int, k, recs.len() as int);
            }
            if skip != 0 {
                off = skip as usize;
            } else {
                let (_, next) = take_turn(&mut self.buf, off, fns, &tick, Ghost(recs[k]));
                off = next;
            }
            proof {
                assert forall|p: int| zero_off() <= p < start implies #[trigger] self.buf@[p]
                    == 0 by {
                    lemma_in_order(recs, bs, start, term, b.len() as int, k, recs.len() as int);
                    assert(before[p] == self.buf@[p]);
                }
                k = k + 1;
            }
        }
    }
}

/// The function table has an entry for the record.
pub open spec fn runnable<P: ProcessFn>(fns: Seq<P>, spec: RecordSpec) -> bool {
    callable(
        fns,
        spec.fn_index,
        spec.state@.len(),
        spec.params@.len(),
        spec.inputs@.len(),
        spec.num_outputs as nat,
    )
}

/// The context of a tick of `frames` frames, cut down to the block size.
pub open spec fn tick_of(block_size: usize, frames: usize, sample_rate: u32, time: u64) -> TickCtx {
    TickCtx {
        frames: if frames <= block_size {
            frames
        } else {
            block_size
        },
        block_size,
        sample_rate,
        time,
    }
}

/// Pack words into state bytes for a [`RecordSpec`].
pub fn state_bytes(value: &[u32]) -> (bytes: Vec<u8>)
    requires
        4 * value.len() <= usize::MAX,
    ensures
        bytes@ == packed(value@),
{
    let mut bytes: Vec<u8> = Vec::new();
    let mut i: usize = 0;
    while i < value.len()
        invariant
            i <= value.len(),
            4 * value.len() <= usize::MAX,
            bytes@ =~= packed(value@.take(i as int)),
        decreases value.len() - i,
    {
        let ghost before = bytes@;
        let v: u32 = value[i];
        bytes.push((v % 0x100) as u8);
        bytes.push((v / 0x100 % 0x100) as u8);
        bytes.push((v / 0x1_0000 % 0x100) as u8);
        bytes.push((v / 0x100_0000) as u8);
        proof {
            let ws = value@.take(i + 1);
            assert(bytes@ =~= before + word_bytes(v));
            assert forall|p: int| 0 <= p < bytes@.len() implies bytes@[p] == packed(ws)[p] by {
                if p < 4 * i {
                    assert(before[p] == packed(value@.take(i as int))[p]);
                    assert(p / 4 < i);
                } else {
                    assert(p / 4 == i && p % 4 == p - 4 * i);
                }
            }
        }
        i = i + 1;
    }
    assert(value@.take(i as int) =~= value@);
    bytes
}

} // verus!
