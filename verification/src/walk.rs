//! Walking a plan buffer: what one record's turn does to it, and what a whole walk does.

use vstd::prelude::*;
use crate::bytes::{agree, lemma_put_words, lemma_word_agree, lemma_words_agree, put_bytes, put_words, read_bytes, read_u32, read_words, word_at, words, write_bytes, write_words};
use crate::layout::{BUF_ALIGN, HEADER_WORDS, RECORD_ALIGN, Rec, SAMPLE, STATE_ALIGN, TERMINATOR, align_up, bufs_len, lemma_bufs_len, lemma_parts};
use crate::processing::{CtxView, ModuleCtx, Outcome, ProcessFn, Tail, TickCtx, callable, samples};

verus! {

/// Resolved offsets of one record's regions.
pub struct Record {
    pub state: u32,
    pub params: u32,
    pub inputs: u32,
    pub num_inputs: u32,
    pub outputs: u32,
    pub num_outputs: u32,
}

/// The part of a returned state that there is room for.
pub open spec fn kept_state(r: Rec, out: Outcome) -> Seq<u8> {
    if out.state.len() <= r.state_len {
        out.state
    } else {
        out.state.take(r.state_len)
    }
}

/// The part of a returned output buffer that the tick asked for.
pub open spec fn kept_output(out: Outcome, port: int, frames: int) -> Seq<u32> {
    if port < out.outputs.len() {
        if out.outputs[port].len() <= frames {
            out.outputs[port]
        } else {
            out.outputs[port].take(frames)
        }
    } else {
        Seq::empty()
    }
}

/// The buffer with the first `n` output buffers of the record overwritten.
pub open spec fn put_outputs(
    b: Seq<u8>,
    r: Rec,
    block_size: int,
    frames: int,
    out: Outcome,
    n: int,
) -> Seq<u8>
    decreases n,
{
    if n <= 0 {
        b
    } else {
        put_words(
            put_outputs(b, r, block_size, frames, out, n - 1),
            r.output_off(n - 1, block_size),
            kept_output(out, n - 1, frames),
        )
    }
}

/// The buffer after the record's process function has left `out`.
pub open spec fn applied(b: Seq<u8>, r: Rec, block_size: int, frames: int, out: Outcome) -> Seq<u8> {
    put_outputs(
        put_bytes(b, r.state_off(), kept_state(r, out)),
        r,
        block_size,
        frames,
        out,
        r.num_outputs,
    )
}

/// What the record's process function is handed.
pub open spec fn ctx_of(b: Seq<u8>, r: Rec, tick: TickCtx) -> CtxView {
    CtxView {
        frames: tick.frames,
        sample_rate: tick.sample_rate,
        time: tick.time,
        inputs: Seq::new(r.inputs.len(), |k: int| r.input(b, k, tick.frames as int)),
        outputs: Seq::new(
            r.num_outputs as nat,
            |k: int| r.output(b, k, tick.block_size as int, tick.frames as int),
        ),
    }
}

/// What the record's process function leaves behind.
pub open spec fn outcome_of<P: ProcessFn>(
    b: Seq<u8>,
    r: Rec,
    fns: Seq<P>,
    tick: TickCtx,
) -> Outcome {
    fns[r.fn_index as int].outcome(r.state(b), r.params(b), ctx_of(b, r, tick))
}

/// The buffer after the record's turn.
pub open spec fn after_turn<P: ProcessFn>(
    b: Seq<u8>,
    r: Rec,
    fns: Seq<P>,
    tick: TickCtx,
) -> Seq<u8> {
    if r.active(b) {
        applied(
            b,
            r,
            tick.block_size as int,
            tick.frames as int,
            outcome_of(b, r, fns, tick),
        )
    } else {
        b
    }
}

/// The buffer after the first `n` records have had their turn, in order.
pub open spec fn after_walk<P: ProcessFn>(
    b: Seq<u8>,
    recs: Seq<Rec>,
    fns: Seq<P>,
    tick: TickCtx,
    n: int,
) -> Seq<u8>
    decreases n,
{
    if n <= 0 {
        b
    } else {
        after_turn(after_walk(b, recs, fns, tick, n - 1), recs[n - 1], fns, tick)
    }
}

/// Offset of the `i`-th record, or of the terminator behind the last one.
pub open spec fn place(recs: Seq<Rec>, term: int, i: int) -> int {
    if i < recs.len() {
        recs[i].off
    } else {
        term
    }
}

/// The record behind the `i`-th one starts where that ends.
pub open spec fn linked(recs: Seq<Rec>, block_size: int, term: int, i: int) -> bool {
    recs[i].end(block_size) == place(recs, term, i + 1)
}

/// The record reads only buffers that lie before it.
pub open spec fn reads_back(r: Rec, block_size: int) -> bool {
    forall|k: int|
        0 <= k < r.inputs.len() ==> 64 <= #[trigger] r.inputs[k] && r.inputs[k] + 4 * block_size
            <= r.off
}

/// A schedule: records in a row up to the terminator, parameter blocks behind it.
pub open spec fn schedule(recs: Seq<Rec>, block_size: int, start: int, term: int, len: int) -> bool {
    &&& place(recs, term, 0) == start
    &&& 64 <= start <= term
    &&& term + 4 <= len <= u32::MAX
    &&& 64 + 4 * block_size <= start
    &&& forall|i: int| 0 <= i < recs.len() ==> (#[trigger] recs[i]).fits(block_size, term)
    &&& forall|i: int| 0 <= i < recs.len() ==> #[trigger] linked(recs, block_size, term, i)
    &&& forall|i: int| 0 <= i < recs.len() ==> reads_back(#[trigger] recs[i], block_size)
    &&& forall|i: int|
        0 <= i < recs.len() ==> term + 4 <= (#[trigger] recs[i]).params_off && recs[i].params_off
            + recs[i].params_len <= len
}

/// The buffer holds the schedule.
pub open spec fn holds(b: Seq<u8>, recs: Seq<Rec>, block_size: int, term: int) -> bool {
    &&& word_at(b, term) == TERMINATOR
    &&& forall|i: int| 0 <= i < recs.len() ==> (#[trigger] recs[i]).stored(b, block_size)
}

/// Records further back lie further back.
pub proof fn lemma_in_order(recs: Seq<Rec>, block_size: int, start: int, term: int, len: int, i: int, j: int)
    requires
        schedule(recs, block_size, start, term, len),
        0 <= i < j <= recs.len(),
    ensures
        start <= recs[i].off,
        recs[i].end(block_size) <= place(recs, term, j),
    decreases j,
{
    assert(linked(recs, block_size, term, i));
    lemma_parts(recs[i], block_size);
    if i > 0 {
        lemma_in_order(recs, block_size, start, term, len, i - 1, i);
        lemma_parts(recs[i - 1], block_size);
    }
    if j > i + 1 {
        lemma_in_order(recs, block_size, start, term, len, i, j - 1);
        assert(linked(recs, block_size, term, j - 1));
        lemma_parts(recs[j - 1], block_size);
    }
}

/// Writing outputs touches only the record's output buffers.
pub proof fn lemma_put_outputs(b: Seq<u8>, r: Rec, block_size: int, frames: int, out: Outcome, n: int)
    requires
        r.fits(block_size, b.len() as int),
        0 <= frames <= block_size,
        0 <= n <= r.num_outputs,
    ensures
        put_outputs(b, r, block_size, frames, out, n).len() == b.len(),
        agree(b, put_outputs(b, r, block_size, frames, out, n), 0, r.outputs_off()),
        agree(
            b,
            put_outputs(b, r, block_size, frames, out, n),
            r.output_off(n, block_size),
            b.len() as int,
        ),
    decreases n,
{
    lemma_parts(r, block_size);
    if n > 0 {
        lemma_put_outputs(b, r, block_size, frames, out, n - 1);
        lemma_bufs_len(n - 1, r.num_outputs, block_size);
        lemma_bufs_len(n, r.num_outputs, block_size);
        let p = put_outputs(b, r, block_size, frames, out, n - 1);
        let q = put_outputs(b, r, block_size, frames, out, n);
        let ws = kept_output(out, n - 1, frames);
        assert(q == put_words(p, r.output_off(n - 1, block_size), ws));
        assert(ws.len() <= frames);
    }
}

/// Once written, an output buffer reads back.
pub proof fn lemma_put_outputs_read(
    b: Seq<u8>,
    r: Rec,
    block_size: int,
    frames: int,
    out: Outcome,
    n: int,
    port: int,
)
    requires
        r.fits(block_size, b.len() as int),
        0 <= frames <= block_size,
        0 <= port < n <= r.num_outputs,
    ensures
        ({
            let ws = kept_output(out, port, frames);
            words(
                put_outputs(b, r, block_size, frames, out, n),
                r.output_off(port, block_size),
                ws.len() as int,
            ) == ws
        }),
    decreases n,
{
    lemma_parts(r, block_size);
    let ws = kept_output(out, port, frames);
    let p = put_outputs(b, r, block_size, frames, out, n - 1);
    let q = put_outputs(b, r, block_size, frames, out, n);
    lemma_put_outputs(b, r, block_size, frames, out, n - 1);
    lemma_bufs_len(n - 1, r.num_outputs, block_size);
    lemma_bufs_len(n, r.num_outputs, block_size);
    if port == n - 1 {
        lemma_put_words(p, r.output_off(port, block_size), ws);
    } else {
        lemma_put_outputs_read(b, r, block_size, frames, out, n - 1, port);
        lemma_bufs_len(port, n - 1, block_size);
        lemma_bufs_len(port + 1, n - 1, block_size);
        let at = r.output_off(port, block_size);
        assert(agree(p, q, at, at + 4 * ws.len()));
        lemma_words_agree(p, q, at, at + 4 * ws.len(), at, ws.len() as int);
    }
}

/// A turn touches only the record's state and its output buffers.
pub proof fn lemma_applied(b: Seq<u8>, r: Rec, block_size: int, frames: int, out: Outcome)
    requires
        r.fits(block_size, b.len() as int),
        0 <= frames <= block_size,
    ensures
        applied(b, r, block_size, frames, out).len() == b.len(),
        agree(b, applied(b, r, block_size, frames, out), 0, r.state_off()),
        agree(
            b,
            applied(b, r, block_size, frames, out),
            r.state_off() + r.state_len,
            r.outputs_off(),
        ),
        agree(
            b,
            applied(b, r, block_size, frames, out),
            r.output_off(r.num_outputs, block_size),
            b.len() as int,
        ),
{
    lemma_parts(r, block_size);
    let c = put_bytes(b, r.state_off(), kept_state(r, out));
    lemma_put_outputs(c, r, block_size, frames, out, r.num_outputs);
    let d = applied(b, r, block_size, frames, out);
    assert forall|i: int| 0 <= i < r.state_off() implies #[trigger] b[i] == d[i] by {
        assert(c[i] == d[i]);
    }
    assert forall|i: int| r.state_off() + r.state_len <= i < r.outputs_off() implies #[trigger] b[i]
        == d[i] by {
        assert(c[i] == d[i]);
    }
    assert forall|i: int|
        r.output_off(r.num_outputs, block_size) <= i < b.len() implies #[trigger] b[i] == d[i] by {
        assert(c[i] == d[i]);
    }
}

/// A turn leaves the schedule as it is.
pub proof fn lemma_turn_holds<P: ProcessFn>(
    b: Seq<u8>,
    recs: Seq<Rec>,
    block_size: int,
    start: int,
    term: int,
    k: int,
    fns: Seq<P>,
    tick: TickCtx,
)
    requires
        schedule(recs, block_size, start, term, b.len() as int),
        holds(b, recs, block_size, term),
        0 <= k < recs.len(),
        tick.frames <= tick.block_size == block_size,
    ensures
        after_turn(b, recs[k], fns, tick).len() == b.len(),
        holds(after_turn(b, recs[k], fns, tick), recs, block_size, term),
        agree(b, after_turn(b, recs[k], fns, tick), 0, recs[k].off + 32),
        agree(b, after_turn(b, recs[k], fns, tick), recs[k].end(block_size), b.len() as int),
        forall|i: int|
            0 <= i < recs.len() ==> word_at(after_turn(b, recs[k], fns, tick), #[trigger] recs[i].off)
                == word_at(b, recs[i].off),
{
    let r = recs[k];
    let c = after_turn(b, r, fns, tick);
    lemma_parts(r, block_size);
    if r.active(b) {
        lemma_applied(b, r, block_size, tick.frames as int, outcome_of(b, r, fns, tick));
    }
    assert(r.end(block_size) <= term) by {
        lemma_in_order(recs, block_size, start, term, b.len() as int, k, recs.len() as int);
    }
    lemma_word_agree(b, c, r.end(block_size), b.len() as int, term);
    assert forall|i: int| 0 <= i < recs.len() implies (#[trigger] recs[i]).stored(c, block_size)
        && word_at(c, recs[i].off) == word_at(b, recs[i].off) by {
        let q = recs[i];
        lemma_parts(q, block_size);
        let n = q.inputs.len() as int;
        if i < k {
            lemma_in_order(recs, block_size, start, term, b.len() as int, i, k);
            lemma_header_agree(b, c, q, block_size, 0, r.off + 32);
        } else if k < i {
            lemma_in_order(recs, block_size, start, term, b.len() as int, k, i);
            lemma_header_agree(b, c, q, block_size, r.end(block_size), b.len() as int);
        } else {
            lemma_word_agree(b, c, 0, r.off + 32, r.off);
            lemma_word_agree(b, c, 0, r.off + 32, r.off + 4);
            lemma_word_agree(b, c, 0, r.off + 32, r.off + 8);
            lemma_word_agree(b, c, 0, r.off + 32, r.off + 12);
            lemma_word_agree(b, c, 0, r.off + 32, r.off + 16);
            lemma_word_agree(b, c, 0, r.off + 32, r.off + 20);
            lemma_word_agree(b, c, 0, r.off + 32, r.off + 24);
            lemma_words_agree(
                b,
                c,
                r.state_off() + r.state_len,
                r.outputs_off(),
                r.inputs_off(),
                n,
            );
        }
    }
}

/// A record whose bytes are left alone stays stored.
pub proof fn lemma_header_agree(b: Seq<u8>, c: Seq<u8>, r: Rec, block_size: int, lo: int, hi: int)
    requires
        r.stored(b, block_size),
        r.fits(block_size, b.len() as int),
        agree(b, c, lo, hi),
        lo <= r.off,
        r.outputs_off() <= hi,
    ensures
        r.stored(c, block_size),
        word_at(c, r.off) == word_at(b, r.off),
{
    lemma_parts(r, block_size);
    lemma_word_agree(b, c, lo, hi, r.off);
    lemma_word_agree(b, c, lo, hi, r.off + 4);
    lemma_word_agree(b, c, lo, hi, r.off + 8);
    lemma_word_agree(b, c, lo, hi, r.off + 12);
    lemma_word_agree(b, c, lo, hi, r.off + 16);
    lemma_word_agree(b, c, lo, hi, r.off + 20);
    lemma_word_agree(b, c, lo, hi, r.off + 24);
    lemma_words_agree(b, c, lo, hi, r.inputs_off(), r.inputs.len() as int);
}

/// The resolved offsets of the record that `r` describes.
pub open spec fn resolved(rec: Record, r: Rec) -> bool {
    &&& rec.state == r.state_off()
    &&& rec.params == r.params_off
    &&& rec.inputs == r.inputs_off()
    &&& rec.num_inputs == r.inputs.len()
    &&& rec.outputs == r.outputs_off()
    &&& rec.num_outputs == r.num_outputs
}

/// Reads the record header at `off`.
pub(crate) fn read_record(buf: &Vec<u8>, off: usize, block_size: usize, Ghost(r): Ghost<Rec>) -> (rec:
    Record)
    requires
        r.stored(buf@, block_size as int),
        r.fits(block_size as int, buf.len() as int),
        r.off == off,
    ensures
        resolved(rec, r),
{
    proof {
        lemma_parts(r, block_size as int);
    }
    let state_size: usize = read_u32(buf, off + 8) as usize;
    let num_inputs: u32 = read_u32(buf, off + 12);
    let num_outputs: u32 = read_u32(buf, off + 16);
    let params: u32 = read_u32(buf, off + 20);
    let state: usize = align_up(off + HEADER_WORDS * 4, STATE_ALIGN);
    let inputs: usize = align_up(state + state_size, 4);
    let outputs: usize = align_up(inputs + num_inputs as usize * 4, BUF_ALIGN);
    Record {
        state: state as u32,
        params,
        inputs: inputs as u32,
        num_inputs,
        outputs: outputs as u32,
        num_outputs,
    }
}

/// Input port `port` as `frames` samples (resolved through its stored offset).
pub fn input(buf: &Vec<u8>, rec: &Record, port: usize, frames: usize) -> (samples: Vec<u32>)
    requires
        rec.inputs + 4 * port + 4 <= buf.len(),
        word_at(buf@, rec.inputs + 4 * port) + 4 * frames <= buf.len(),
    ensures
        samples@ == words(buf@, word_at(buf@, rec.inputs + 4 * port) as int, frames as int),
{
    let at: usize = read_u32(buf, rec.inputs as usize + 4 * port) as usize;
    read_words(buf, at, frames)
}

/// Output port `port` as `frames` samples.
pub fn output(buf: &Vec<u8>, rec: &Record, port: usize, block_size: usize, frames: usize) -> (samples:
    Vec<u32>)
    requires
        rec.outputs + bufs_len(port as int, block_size as int) + 4 * frames <= buf.len(),
    ensures
        samples@ == words(
            buf@,
            rec.outputs + bufs_len(port as int, block_size as int),
            frames as int,
        ),
{
    proof {
        lemma_bufs_len(0, port as int, block_size as int);
    }
    read_words(buf, rec.outputs as usize + port * block_size * SAMPLE, frames)
}

/// Collects the samples that the record's inputs read.
fn gather_inputs(
    buf: &Vec<u8>,
    rec: &Record,
    block_size: usize,
    frames: usize,
    Ghost(r): Ghost<Rec>,
) -> (inputs: Vec<Vec<u32>>)
    requires
        r.stored(buf@, block_size as int),
        r.fits(block_size as int, buf.len() as int),
        reads_back(r, block_size as int),
        resolved(*rec, r),
        frames <= block_size,
    ensures
        samples(inputs@) == Seq::new(r.inputs.len(), |k: int| r.input(buf@, k, frames as int)),
{
    let mut inputs: Vec<Vec<u32>> = Vec::new();
    let n: usize = rec.num_inputs as usize;
    let mut k: usize = 0;
    proof {
        lemma_parts(r, block_size as int);
    }
    while k < n
        invariant
            k <= n == r.inputs.len(),
            r.stored(buf@, block_size as int),
            r.fits(block_size as int, buf.len() as int),
            r.inputs_off() + 4 * n <= r.end(block_size as int),
            r.off <= r.end(block_size as int),
            reads_back(r, block_size as int),
            resolved(*rec, r),
            frames <= block_size,
            inputs.len() == k,
            forall|j: int|
                0 <= j < k ==> (#[trigger] inputs@[j])@ == r.input(buf@, j, frames as int),
        decreases n - k,
    {
        assert(word_at(buf@, r.inputs_off() + 4 * k) == r.inputs[k as int]) by {
            assert(words(buf@, r.inputs_off(), n as int)[k as int] == r.inputs[k as int]);
        }
        inputs.push(input(buf, rec, k, frames));
        k = k + 1;
    }
    assert(samples(inputs@) =~= Seq::new(
        r.inputs.len(),
        |k: int| r.input(buf@, k, frames as int),
    ));
    inputs
}

/// Collects the samples that the record's output buffers hold.
fn gather_outputs(
    buf: &Vec<u8>,
    rec: &Record,
    block_size: usize,
    frames: usize,
    Ghost(r): Ghost<Rec>,
) -> (outputs: Vec<Vec<u32>>)
    requires
        r.fits(block_size as int, buf.len() as int),
        resolved(*rec, r),
        frames <= block_size,
    ensures
        samples(outputs@) == Seq::new(
            r.num_outputs as nat,
            |k: int| r.output(buf@, k, block_size as int, frames as int),
        ),
{
    let mut outputs: Vec<Vec<u32>> = Vec::new();
    let n: usize = rec.num_outputs as usize;
    let mut k: usize = 0;
    proof {
        lemma_parts(r, block_size as int);
        lemma_bufs_len(0, r.num_outputs, block_size as int);
    }
    while k < n
        invariant
            k <= n == r.num_outputs,
            resolved(*rec, r),
            r.fits(block_size as int, buf.len() as int),
            r.output_off(n as int, block_size as int) <= r.end(block_size as int),
            frames <= block_size,
            outputs.len() == k,
            forall|j: int|
                0 <= j < k ==> (#[trigger] outputs@[j])@ == r.output(
                    buf@,
                    j,
                    block_size as int,
                    frames as int,
                ),
        decreases n - k,
    {
        proof {
            lemma_bufs_len(k as int, n as int, block_size as int);
            lemma_bufs_len(k + 1, n as int, block_size as int);
        }
        outputs.push(output(buf, rec, k, block_size, frames));
        k = k + 1;
    }
    assert(samples(outputs@) =~= Seq::new(
        r.num_outputs as nat,
        |k: int| r.output(buf@, k, block_size as int, frames as int),
    ));
    outputs
}

/// Stores the record's output buffers.
fn scatter_outputs(
    buf: &mut Vec<u8>,
    rec: &Record,
    block_size: usize,
    frames: usize,
    outputs: &Vec<Vec<u32>>,
    Ghost(r): Ghost<Rec>,
    Ghost(out): Ghost<Outcome>,
)
    requires
        r.fits(block_size as int, old(buf).len() as int),
        resolved(*rec, r),
        frames <= block_size,
        samples(outputs@) == out.outputs,
    ensures
        final(buf)@ == put_outputs(
            old(buf)@,
            r,
            block_size as int,
            frames as int,
            out,
            r.num_outputs,
        ),
{
    let n: usize = rec.num_outputs as usize;
    let mut k: usize = 0;
    let mut at: usize = rec.outputs as usize;
    proof {
        lemma_parts(r, block_size as int);
        lemma_bufs_len(0, r.num_outputs, block_size as int);
    }
    while k < n
        invariant
            k <= n == r.num_outputs,
            r.fits(block_size as int, old(buf).len() as int),
            r.output_off(n as int, block_size as int) <= r.end(block_size as int),
            at == r.output_off(k as int, block_size as int),
            frames <= block_size,
            samples(outputs@) == out.outputs,
            buf@ == put_outputs(
                old(buf)@,
                r,
                block_size as int,
                frames as int,
                out,
                k as int,
            ),
        decreases n - k,
    {
        proof {
            lemma_bufs_len(k as int, n as int, block_size as int);
            lemma_bufs_len(k + 1, n as int, block_size as int);
            lemma_put_outputs(old(buf)@, r, block_size as int, frames as int, out, k as int);
        }
        let ghost before = buf@;
        if k < outputs.len() {
            let len: usize = if outputs[k].len() <= frames {
                outputs[k].len()
            } else {
                frames
            };
            write_words(buf, at, &outputs[k], len);
            assert(outputs@[k as int]@ == out.outputs[k as int]);
            assert(outputs@[k as int]@.take(len as int) =~= kept_output(
                out,
                k as int,
                frames as int,
            ));
        } else {
            assert(put_words(before, at as int, kept_output(out, k as int, frames as int))
                =~= before);
        }
        at = at + block_size * SAMPLE;
        k = k + 1;
    }
}

/// Gives the record at `off` its turn: collects what its process function reads, calls it, and
/// stores what it left.
pub(crate) fn take_turn<P: ProcessFn>(
    buf: &mut Vec<u8>,
    off: usize,
    fns: &[P],
    tick: &TickCtx,
    Ghost(r): Ghost<Rec>,
) -> (res: (Tail, usize))
    requires
        r.stored(old(buf)@, tick.block_size as int),
        r.fits(tick.block_size as int, old(buf).len() as int),
        reads_back(r, tick.block_size as int),
        r.end(tick.block_size as int) <= r.params_off,
        r.params_off + r.params_len <= old(buf).len(),
        r.off == off,
        tick.frames <= tick.block_size,
        callable(
            fns@,
            r.fn_index,
            r.state_len as nat,
            r.params_len as nat,
            r.inputs.len(),
            r.num_outputs as nat,
        ),
    ensures
        final(buf)@ == applied(
            old(buf)@,
            r,
            tick.block_size as int,
            tick.frames as int,
            outcome_of(old(buf)@, r, fns@, *tick),
        ),
        res.0 == outcome_of(old(buf)@, r, fns@, *tick).tail,
        res.1 == r.end(tick.block_size as int),
{
    let ghost b = buf@;
    let ghost out = outcome_of(b, r, fns@, *tick);
    proof {
        lemma_parts(r, tick.block_size as int);
    }
    let rec = read_record(buf, off, tick.block_size, Ghost(r));
    let fn_index: usize = read_u32(buf, off + 4) as usize;
    let state_size: usize = read_u32(buf, off + 8) as usize;
    let params_size: usize = read_u32(buf, off + 24) as usize;
    let mut state = read_bytes(buf, rec.state as usize, state_size);
    let params = read_bytes(buf, rec.params as usize, params_size);
    let inputs = gather_inputs(buf, &rec, tick.block_size, tick.frames, Ghost(r));
    let outputs = gather_outputs(buf, &rec, tick.block_size, tick.frames, Ghost(r));
    let mut ctx = ModuleCtx {
        frames: tick.frames,
        sample_rate: tick.sample_rate,
        time: tick.time,
        inputs,
        outputs,
    };
    assert(ctx@ == ctx_of(b, r, *tick));
    assert(state@.len() == r.state_len && params@.len() == r.params_len);
    let tail = fns[fn_index].process(&mut state, &params, &mut ctx);
    let kept: usize = if state.len() <= state_size {
        state.len()
    } else {
        state_size
    };
    write_bytes(buf, rec.state as usize, &state, kept);
    assert(state@.take(kept as int) =~= kept_state(r, out));
    scatter_outputs(buf, &rec, tick.block_size, tick.frames, &ctx.outputs, Ghost(r), Ghost(out));
    proof {
        lemma_bufs_len(0, r.num_outputs, tick.block_size as int);
    }
    let rec_end: usize = rec.outputs as usize + rec.num_outputs as usize * tick.block_size * SAMPLE;
    (tail, align_up(rec_end, RECORD_ALIGN))
}

} // verus!
