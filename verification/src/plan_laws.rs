//! What holds of every plan and of every walk over one.

use vstd::prelude::*;
use crate::bytes::{agree, lemma_words_agree, put_bytes, words};
use crate::layout::{BUF_ALIGN, RECORD_ALIGN, Rec, STATE_ALIGN, lemma_bufs_len, lemma_parts};
use crate::plan::{RecordSpec, Source, lemma_mono_schedule, lemma_params_at, lemma_reads_back, lemma_rec_off, lemma_zero_words, mono_len, mono_recs, mono_start, mono_term, param_lens, params_at, params_start, plannable, zero_off, zeroed};
use crate::processing::{CtxView, Outcome, ProcessFn, TickCtx};
use crate::walk::{after_turn, after_walk, applied, ctx_of, holds, kept_state, lemma_applied, lemma_in_order, lemma_put_outputs, lemma_put_outputs_read, lemma_turn_holds, outcome_of, reads_back, schedule};

verus! {

/// The regions of a record are aligned, and lie in the record.
pub proof fn law_regions_are_aligned(
    recs: Seq<Rec>,
    block_size: int,
    start: int,
    term: int,
    len: int,
    i: int,
)
    requires
        schedule(recs, block_size, start, term, len),
        0 <= i < recs.len(),
    ensures
        recs[i].off % RECORD_ALIGN as int == 0,
        recs[i].state_off() % STATE_ALIGN as int == 0,
        recs[i].outputs_off() % BUF_ALIGN as int == 0,
        recs[i].off < recs[i].state_off(),
        recs[i].state_off() + recs[i].state_len <= recs[i].inputs_off(),
        recs[i].inputs_off() + 4 * recs[i].inputs.len() <= recs[i].outputs_off(),
        recs[i].output_off(recs[i].num_outputs, block_size) <= recs[i].end(block_size),
{
    assert(recs[i].fits(block_size, term));
    lemma_parts(recs[i], block_size);
}

/// Output regions never overlap inputs: whatever a record reads lies before the record, and so
/// before every buffer that it writes.
pub proof fn law_outputs_never_overlap_inputs(
    recs: Seq<Rec>,
    block_size: int,
    start: int,
    term: int,
    len: int,
    i: int,
    input: int,
    output: int,
)
    requires
        schedule(recs, block_size, start, term, len),
        0 <= i < recs.len(),
        0 <= input < recs[i].inputs.len(),
        0 <= output < recs[i].num_outputs,
    ensures
        recs[i].inputs[input] + 4 * block_size <= recs[i].off < recs[i].output_off(
            output,
            block_size,
        ),
{
    assert(reads_back(recs[i], block_size));
    assert(recs[i].fits(block_size, term));
    lemma_parts(recs[i], block_size);
    lemma_bufs_len(0, output, block_size);
}

/// No two output buffers of a plan overlap.
pub proof fn law_outputs_are_apart(
    recs: Seq<Rec>,
    block_size: int,
    start: int,
    term: int,
    len: int,
    i: int,
    p: int,
    j: int,
    q: int,
)
    requires
        schedule(recs, block_size, start, term, len),
        0 <= i <= j < recs.len(),
        0 <= p < recs[i].num_outputs,
        0 <= q < recs[j].num_outputs,
        i < j || p < q,
    ensures
        recs[i].output_off(p, block_size) + 4 * block_size <= recs[j].output_off(q, block_size),
{
    assert(recs[i].fits(block_size, term) && recs[j].fits(block_size, term));
    lemma_parts(recs[i], block_size);
    lemma_parts(recs[j], block_size);
    lemma_bufs_len(p, recs[i].num_outputs, block_size);
    lemma_bufs_len(p + 1, recs[i].num_outputs, block_size);
    lemma_bufs_len(0, q, block_size);
    if i < j {
        lemma_in_order(recs, block_size, start, term, len, i, j);
    } else {
        lemma_bufs_len(p + 1, q, block_size);
    }
}

/// A walk leaves the schedule as it is: headers and input words stay, the terminator stays, and
/// the records that run are the ones that ran before.
pub proof fn law_walk_keeps_the_schedule<P: ProcessFn>(
    b: Seq<u8>,
    recs: Seq<Rec>,
    block_size: int,
    start: int,
    term: int,
    fns: Seq<P>,
    tick: TickCtx,
    n: int,
)
    requires
        schedule(recs, block_size, start, term, b.len() as int),
        holds(b, recs, block_size, term),
        tick.frames <= tick.block_size == block_size,
        0 <= n <= recs.len(),
    ensures
        after_walk(b, recs, fns, tick, n).len() == b.len(),
        holds(after_walk(b, recs, fns, tick, n), recs, block_size, term),
        agree(b, after_walk(b, recs, fns, tick, n), 0, start),
        forall|i: int|
            0 <= i < recs.len() ==> (#[trigger] recs[i]).active(after_walk(b, recs, fns, tick, n))
                == recs[i].active(b),
    decreases n,
{
    if n > 0 {
        law_walk_keeps_the_schedule(b, recs, block_size, start, term, fns, tick, n - 1);
        let a = after_walk(b, recs, fns, tick, n - 1);
        let c = after_walk(b, recs, fns, tick, n);
        lemma_turn_holds(a, recs, block_size, start, term, n - 1, fns, tick);
        lemma_in_order(recs, block_size, start, term, b.len() as int, n - 1, recs.len() as int);
        assert forall|p: int| 0 <= p < start implies #[trigger] b[p] == c[p] by {
            assert(b[p] == a[p] && a[p] == c[p]);
        }
        assert forall|i: int| 0 <= i < recs.len() implies (#[trigger] recs[i]).active(c)
            == recs[i].active(b) by {
            assert(recs[i].active(a) == recs[i].active(b));
        }
    }
}

/// A record's bytes stay as its own turn left them: nothing that comes later in the walk touches
/// them.
#[verifier::spinoff_prover]
pub proof fn law_later_turns_leave_a_record_alone<P: ProcessFn>(
    b: Seq<u8>,
    recs: Seq<Rec>,
    block_size: int,
    start: int,
    term: int,
    fns: Seq<P>,
    tick: TickCtx,
    i: int,
    n: int,
)
    requires
        schedule(recs, block_size, start, term, b.len() as int),
        holds(b, recs, block_size, term),
        tick.frames <= tick.block_size == block_size,
        0 <= i < n <= recs.len(),
    ensures
        agree(
            after_walk(b, recs, fns, tick, i + 1),
            after_walk(b, recs, fns, tick, n),
            0,
            recs[i].end(block_size),
        ),
    decreases n,
{
    let first = after_walk(b, recs, fns, tick, i + 1);
    let c = after_walk(b, recs, fns, tick, n);
    if n > i + 1 {
        let a = after_walk(b, recs, fns, tick, n - 1);
        law_later_turns_leave_a_record_alone(b, recs, block_size, start, term, fns, tick, i, n - 1);
        law_walk_keeps_the_schedule(b, recs, block_size, start, term, fns, tick, n - 1);
        lemma_turn_holds(a, recs, block_size, start, term, n - 1, fns, tick);
        lemma_in_order(recs, block_size, start, term, b.len() as int, i, n - 1);
        assert forall|p: int| 0 <= p < recs[i].end(block_size) implies #[trigger] first[p]
            == c[p] by {
            assert(first[p] == a[p] && a[p] == c[p]);
        }
    }
}

/// An input resolves to its producer's output: in every buffer it reads exactly that output.
pub proof fn law_input_resolves_to_producer_output(
    block_size: int,
    specs: Seq<RecordSpec>,
    i: int,
    k: int,
    b: Seq<u8>,
    frames: int,
)
    requires
        0 <= block_size,
        plannable(block_size, specs),
        0 <= i < specs.len(),
        0 <= k < specs[i].inputs@.len(),
    ensures
        specs[i].inputs@[k] matches Source::Port(p, port) ==> mono_recs(block_size, specs)[i].input(
            b,
            k,
            frames,
        ) == mono_recs(block_size, specs)[p as int].output(b, port as int, block_size, frames),
{
    let start = mono_start(block_size);
    let base = params_start(mono_term(block_size, specs));
    lemma_rec_off(start, block_size, specs, 0, specs.len() as int);
    lemma_params_at(base, param_lens(specs), 0, specs.len() as int);
    lemma_reads_back(start, block_size, specs, i, params_at(base, param_lens(specs), i));
}

/// What a record reads in a walk is what its producer wrote in the same walk, and what stands in
/// the producer's output once the walk is over.
pub proof fn law_input_reads_this_ticks_output<P: ProcessFn>(
    b: Seq<u8>,
    block_size: int,
    specs: Seq<RecordSpec>,
    fns: Seq<P>,
    tick: TickCtx,
    i: int,
    k: int,
    frames: int,
)
    requires
        plannable(block_size, specs),
        b.len() == mono_len(block_size, specs),
        holds(b, mono_recs(block_size, specs), block_size, mono_term(block_size, specs)),
        tick.frames <= tick.block_size == block_size,
        0 <= i < specs.len(),
        0 <= k < specs[i].inputs@.len(),
        0 <= frames <= block_size,
    ensures
        specs[i].inputs@[k] matches Source::Port(p, port) ==> {
            let recs = mono_recs(block_size, specs);
            let read = recs[i].input(after_walk(b, recs, fns, tick, i), k, frames);
            &&& read == recs[p as int].output(
                after_walk(b, recs, fns, tick, p + 1),
                port as int,
                block_size,
                frames,
            )
            &&& read == recs[p as int].output(
                after_walk(b, recs, fns, tick, specs.len() as int),
                port as int,
                block_size,
                frames,
            )
        },
{
    let recs = mono_recs(block_size, specs);
    let start = mono_start(block_size);
    let term = mono_term(block_size, specs);
    let n = specs.len() as int;
    lemma_mono_schedule(block_size, specs);
    if let Source::Port(p, port) = specs[i].inputs@[k] {
        let then = after_walk(b, recs, fns, tick, p + 1);
        let now = after_walk(b, recs, fns, tick, i);
        let end = after_walk(b, recs, fns, tick, n);
        law_input_resolves_to_producer_output(block_size, specs, i, k, now, frames);
        law_later_turns_leave_a_record_alone(b, recs, block_size, start, term, fns, tick, p as int, n);
        law_later_turns_leave_a_record_alone(b, recs, block_size, start, term, fns, tick, p as int, i);
        let r = recs[p as int];
        assert(r.fits(block_size, term));
        lemma_parts(r, block_size);
        lemma_bufs_len(0, port as int, block_size);
        lemma_bufs_len(port as int, r.num_outputs, block_size);
        lemma_bufs_len(port + 1, r.num_outputs, block_size);
        let at = r.output_off(port as int, block_size);
        lemma_words_agree(then, now, 0, r.end(block_size), at, frames);
        lemma_words_agree(then, end, 0, r.end(block_size), at, frames);
    }
}

/// An unconnected input reads zero, at every point of every walk.
pub proof fn law_unconnected_input_reads_zero<P: ProcessFn>(
    b: Seq<u8>,
    block_size: int,
    specs: Seq<RecordSpec>,
    fns: Seq<P>,
    tick: TickCtx,
    i: int,
    k: int,
    frames: int,
    n: int,
)
    requires
        plannable(block_size, specs),
        b.len() == mono_len(block_size, specs),
        holds(b, mono_recs(block_size, specs), block_size, mono_term(block_size, specs)),
        zeroed(b, zero_off(), mono_start(block_size)),
        tick.frames <= tick.block_size == block_size,
        0 <= i < specs.len(),
        0 <= k < specs[i].inputs@.len(),
        specs[i].inputs@[k] == Source::Zero,
        0 <= frames <= block_size,
        0 <= n <= specs.len(),
    ensures
        ({
            let recs = mono_recs(block_size, specs);
            recs[i].input(after_walk(b, recs, fns, tick, n), k, frames) == Seq::new(
                frames as nat,
                |i: int| 0u32,
            )
        }),
{
    let recs = mono_recs(block_size, specs);
    let start = mono_start(block_size);
    let term = mono_term(block_size, specs);
    let base = params_start(term);
    let c = after_walk(b, recs, fns, tick, n);
    lemma_mono_schedule(block_size, specs);
    lemma_rec_off(start, block_size, specs, 0, specs.len() as int);
    lemma_params_at(base, param_lens(specs), 0, specs.len() as int);
    lemma_reads_back(start, block_size, specs, i, params_at(base, param_lens(specs), i));
    law_walk_keeps_the_schedule(b, recs, block_size, start, term, fns, tick, n);
    assert forall|p: int| zero_off() <= p < start implies #[trigger] c[p] == 0 by {
        assert(b[p] == 0 && b[p] == c[p]);
    }
    lemma_zero_words(c, zero_off(), start, zero_off(), frames);
}

/// Earlier turns of a walk leave a record alone, and all that lies behind it.
proof fn lemma_earlier_turns<P: ProcessFn>(
    b: Seq<u8>,
    recs: Seq<Rec>,
    block_size: int,
    start: int,
    term: int,
    fns: Seq<P>,
    tick: TickCtx,
    i: int,
    n: int,
)
    requires
        schedule(recs, block_size, start, term, b.len() as int),
        holds(b, recs, block_size, term),
        tick.frames <= tick.block_size == block_size,
        0 <= n <= i < recs.len(),
    ensures
        agree(b, after_walk(b, recs, fns, tick, n), recs[i].off, b.len() as int),
    decreases n,
{
    if n > 0 {
        let a = after_walk(b, recs, fns, tick, n - 1);
        let c = after_walk(b, recs, fns, tick, n);
        lemma_earlier_turns(b, recs, block_size, start, term, fns, tick, i, n - 1);
        law_walk_keeps_the_schedule(b, recs, block_size, start, term, fns, tick, n - 1);
        lemma_turn_holds(a, recs, block_size, start, term, n - 1, fns, tick);
        lemma_in_order(recs, block_size, start, term, b.len() as int, n - 1, i);
        assert forall|p: int| recs[i].off <= p < b.len() implies #[trigger] b[p] == c[p] by {
            assert(b[p] == a[p] && a[p] == c[p]);
        }
    }
}

/// What a record's module makes of a tick: of the state and the parameters that stood in the buffer
/// before the walk, and of the inputs as they stand when its turn comes.
pub open spec fn made_of<P: ProcessFn>(
    b: Seq<u8>,
    recs: Seq<Rec>,
    fns: Seq<P>,
    tick: TickCtx,
    i: int,
) -> Outcome {
    let r = recs[i];
    let now = after_walk(b, recs, fns, tick, i);
    fns[r.fn_index as int].outcome(
        b.subrange(r.state_off(), r.state_off() + r.state_len),
        b.subrange(r.params_off, r.params_off + r.params_len),
        CtxView {
            frames: tick.frames,
            sample_rate: tick.sample_rate,
            time: tick.time,
            inputs: Seq::new(
                r.inputs.len(),
                |k: int| words(now, r.inputs[k] as int, tick.frames as int),
            ),
            outputs: Seq::new(
                r.num_outputs as nat,
                |k: int|
                    words(b, r.output_off(k, tick.block_size as int), tick.frames as int),
            ),
        },
    )
}

/// Every record that runs in a walk does what its module does: once the walk is over its state is the
/// one that the module left, so that the next block goes on from there, and its output buffers hold
/// what the module put out. A record that does not run stays as it was.
#[verifier::spinoff_prover]
pub proof fn law_records_run_their_modules<P: ProcessFn>(
    b: Seq<u8>,
    recs: Seq<Rec>,
    block_size: int,
    start: int,
    term: int,
    fns: Seq<P>,
    tick: TickCtx,
    i: int,
    port: int,
)
    requires
        schedule(recs, block_size, start, term, b.len() as int),
        holds(b, recs, block_size, term),
        tick.frames <= tick.block_size == block_size,
        0 <= i < recs.len(),
        0 <= port < recs[i].num_outputs,
    ensures
        ({
            let r = recs[i];
            let out = made_of(b, recs, fns, tick, i);
            let end = after_walk(b, recs, fns, tick, recs.len() as int);
            let frames = tick.frames as int;
            &&& end.len() == b.len()
            &&& r.active(b) && out.state.len() == r.state_len ==> end.subrange(
                r.state_off(),
                r.state_off() + r.state_len,
            ) == out.state
            &&& r.active(b) && port < out.outputs.len() && out.outputs[port].len() == frames
                ==> words(end, r.output_off(port, block_size), frames) == out.outputs[port]
            &&& !r.active(b) ==> agree(b, end, r.off, r.end(block_size))
            &&& agree(b, end, r.params_off, r.params_off + r.params_len)
        }),
{
    let r = recs[i];
    let n = recs.len() as int;
    let a = after_walk(b, recs, fns, tick, i);
    let end = after_walk(b, recs, fns, tick, n);
    assert(r.fits(block_size, term));
    lemma_earlier_turns(b, recs, block_size, start, term, fns, tick, i, i);
    law_walk_keeps_the_schedule(b, recs, block_size, start, term, fns, tick, i);
    law_walk_keeps_the_schedule(b, recs, block_size, start, term, fns, tick, n);
    law_later_turns_leave_a_record_alone(b, recs, block_size, start, term, fns, tick, i, n);
    lemma_params_stay(b, recs, block_size, start, term, fns, tick, i, n);
    lemma_turn_makes(b, recs, block_size, start, term, fns, tick, i);
    assert(r.active(a) == r.active(b));
    lemma_turn_stays(b, a, after_walk(b, recs, fns, tick, i + 1), end, r, fns, tick, port);
}

/// What a record's turn has left is there in the end, where nothing touches the record before or
/// after.
proof fn lemma_turn_stays<P: ProcessFn>(
    b: Seq<u8>,
    a: Seq<u8>,
    c: Seq<u8>,
    end: Seq<u8>,
    r: Rec,
    fns: Seq<P>,
    tick: TickCtx,
    port: int,
)
    requires
        r.fits(tick.block_size as int, b.len() as int),
        a.len() == b.len(),
        end.len() == b.len(),
        c == after_turn(a, r, fns, tick),
        agree(b, a, r.off, b.len() as int),
        agree(c, end, 0, r.end(tick.block_size as int)),
        r.active(a) == r.active(b),
        tick.frames <= tick.block_size,
        0 <= port < r.num_outputs,
    ensures
        ({
            let out = outcome_of(a, r, fns, tick);
            let frames = tick.frames as int;
            let block_size = tick.block_size as int;
            &&& r.active(b) && out.state.len() == r.state_len ==> end.subrange(
                r.state_off(),
                r.state_off() + r.state_len,
            ) == out.state
            &&& r.active(b) && port < out.outputs.len() && out.outputs[port].len() == frames
                ==> words(end, r.output_off(port, block_size), frames) == out.outputs[port]
            &&& !r.active(b) ==> agree(b, end, r.off, r.end(block_size))
        }),
{
    let block_size = tick.block_size as int;
    let frames = tick.frames as int;
    let out = outcome_of(a, r, fns, tick);
    lemma_parts(r, block_size);
    lemma_bufs_len(0, port, block_size);
    lemma_bufs_len(port, r.num_outputs, block_size);
    lemma_bufs_len(port + 1, r.num_outputs, block_size);
    let at = r.output_off(port, block_size);
    if r.active(b) {
        assert(c == applied(a, r, block_size, frames, out));
        lemma_turn_writes(a, r, block_size, frames, out, port);
        lemma_applied(a, r, block_size, frames, out);
        if out.state.len() == r.state_len {
            let state = end.subrange(r.state_off(), r.state_off() + r.state_len);
            assert forall|p: int| 0 <= p < r.state_len implies state[p] == out.state[p] by {
                let q = r.state_off() + p;
                assert(c[q] == end[q]);
                assert(c.subrange(r.state_off(), r.state_off() + r.state_len)[p] == out.state[p]);
            }
            assert(state =~= out.state);
        }
        lemma_words_agree(c, end, 0, r.end(block_size), at, frames);
    } else {
        assert forall|p: int| r.off <= p < r.end(block_size) implies #[trigger] b[p] == end[p] by {
            assert(b[p] == a[p] && c[p] == end[p]);
        }
    }
}

/// A turn writes the state and the outputs that it was left.
proof fn lemma_turn_writes(
    a: Seq<u8>,
    r: Rec,
    block_size: int,
    frames: int,
    out: Outcome,
    port: int,
)
    requires
        r.fits(block_size, a.len() as int),
        0 <= frames <= block_size,
        0 <= port < r.num_outputs,
    ensures
        ({
            let c = applied(a, r, block_size, frames, out);
            &&& out.state.len() == r.state_len ==> c.subrange(
                r.state_off(),
                r.state_off() + r.state_len,
            ) == out.state
            &&& port < out.outputs.len() && out.outputs[port].len() == frames ==> words(
                c,
                r.output_off(port, block_size),
                frames,
            ) == out.outputs[port]
        }),
{
    let c = applied(a, r, block_size, frames, out);
    lemma_parts(r, block_size);
    let with_state = put_bytes(a, r.state_off(), kept_state(r, out));
    lemma_put_outputs(with_state, r, block_size, frames, out, r.num_outputs);
    lemma_put_outputs_read(with_state, r, block_size, frames, out, r.num_outputs, port);
    if out.state.len() == r.state_len {
        let state = c.subrange(r.state_off(), r.state_off() + r.state_len);
        assert forall|p: int| 0 <= p < r.state_len implies state[p] == out.state[p] by {
            let q = r.state_off() + p;
            assert(with_state[q] == c[q]);
        }
        assert(state =~= out.state);
    }
}

/// What a record's turn leaves is what its module makes of the tick.
pub proof fn lemma_turn_makes<P: ProcessFn>(
    b: Seq<u8>,
    recs: Seq<Rec>,
    block_size: int,
    start: int,
    term: int,
    fns: Seq<P>,
    tick: TickCtx,
    i: int,
)
    requires
        schedule(recs, block_size, start, term, b.len() as int),
        holds(b, recs, block_size, term),
        tick.frames <= tick.block_size == block_size,
        0 <= i < recs.len(),
    ensures
        outcome_of(after_walk(b, recs, fns, tick, i), recs[i], fns, tick) == made_of(
            b,
            recs,
            fns,
            tick,
            i,
        ),
{
    let r = recs[i];
    let frames = tick.frames as int;
    let a = after_walk(b, recs, fns, tick, i);
    assert(r.fits(block_size, term));
    lemma_parts(r, block_size);
    lemma_earlier_turns(b, recs, block_size, start, term, fns, tick, i, i);
    law_walk_keeps_the_schedule(b, recs, block_size, start, term, fns, tick, i);
    lemma_in_order(recs, block_size, start, term, b.len() as int, i, recs.len() as int);
    lemma_params_stay(b, recs, block_size, start, term, fns, tick, i, i);
    assert(r.state(a) =~= b.subrange(r.state_off(), r.state_off() + r.state_len));
    assert(r.params(a) =~= b.subrange(r.params_off, r.params_off + r.params_len));
    let ctx = ctx_of(a, r, tick);
    assert forall|k: int| 0 <= k < r.num_outputs implies r.output(a, k, block_size, frames) == words(
        b,
        r.output_off(k, block_size),
        frames,
    ) by {
        lemma_bufs_len(0, k, block_size);
        lemma_bufs_len(k, r.num_outputs, block_size);
        lemma_bufs_len(k + 1, r.num_outputs, block_size);
        lemma_words_agree(b, a, r.off, b.len() as int, r.output_off(k, block_size), frames);
    }
    assert(ctx.outputs =~= Seq::new(
        r.num_outputs as nat,
        |k: int| words(b, r.output_off(k, block_size), frames),
    ));
    assert(ctx.inputs =~= Seq::new(
        r.inputs.len(),
        |k: int| words(a, r.inputs[k] as int, frames),
    ));
}

/// A walk leaves the parameters alone.
proof fn lemma_params_stay<P: ProcessFn>(
    b: Seq<u8>,
    recs: Seq<Rec>,
    block_size: int,
    start: int,
    term: int,
    fns: Seq<P>,
    tick: TickCtx,
    i: int,
    n: int,
)
    requires
        schedule(recs, block_size, start, term, b.len() as int),
        holds(b, recs, block_size, term),
        tick.frames <= tick.block_size == block_size,
        0 <= i < recs.len(),
        0 <= n <= recs.len(),
    ensures
        agree(
            b,
            after_walk(b, recs, fns, tick, n),
            recs[i].params_off,
            recs[i].params_off + recs[i].params_len,
        ),
    decreases n,
{
    if n > 0 {
        let a = after_walk(b, recs, fns, tick, n - 1);
        let c = after_walk(b, recs, fns, tick, n);
        lemma_params_stay(b, recs, block_size, start, term, fns, tick, i, n - 1);
        law_walk_keeps_the_schedule(b, recs, block_size, start, term, fns, tick, n - 1);
        lemma_turn_holds(a, recs, block_size, start, term, n - 1, fns, tick);
        lemma_in_order(recs, block_size, start, term, b.len() as int, n - 1, recs.len() as int);
        let r = recs[i];
        assert(term + 4 <= r.params_off && r.params_off + r.params_len <= b.len());
        assert forall|p: int| r.params_off <= p < r.params_off + r.params_len implies #[trigger] b[p]
            == c[p] by {
            assert(b[p] == a[p] && a[p] == c[p]);
        }
    }
}

} // verus!
