//! What holds of the voices of every plan.

use vstd::prelude::*;
use crate::blocks::silence;
use crate::bytes::{agree, lemma_bytes_of_word, lemma_put_word, lemma_put_words, lemma_word_agree, lemma_words_agree, put_bytes, put_words, word_at, word_bytes, words};
use crate::layout::{Rec, lemma_bufs_len, lemma_parts};
use crate::plan::{Source, lemma_reads_back, lemma_rec_off, port_off, rec_of, spec_end, tick_of, zero_off};
use crate::plan_laws::{law_records_run_their_modules, law_walk_keeps_the_schedule, lemma_turn_makes, made_of};
use crate::processing::{Outcome, ProcessFn, Tail, TickCtx};
use crate::slots::{SlotState, law_reap_frees_finished_voices, reapable};
use crate::voice_layout::{VoiceSource, VoicedShape, lemma_same_but_skips, lemma_skips, lemma_slots, lemma_voice_apart, runs, same_body, same_but_skips, silenced, skip_word, skips_set};
use crate::voice_source::{SourceView, alive_slots, claimed, consistent, respawned, same_setting, stopped, walked};
use crate::voiced_plan::{kept_alive, sounds};
use crate::walk::{after_walk, ctx_of, holds, kept_state, lemma_in_order, lemma_turn_holds, outcome_of, put_outputs, reads_back};

verus! {

/// A voice reads its own slot: the same slot's record of the upstream module, the same slot's
/// source output, or what all voices share; and nothing of any other slot.
pub proof fn law_voice_reads_its_own_slot(
    shape: VoicedShape,
    m: int,
    slot: int,
    k: int,
    b: Seq<u8>,
    frames: int,
)
    requires
        shape.plannable(),
        0 <= m < shape.voice.len(),
        0 <= slot < shape.max_voices,
        0 <= k < shape.voice[m].inputs@.len(),
    ensures
        shape.voice_rec(m, slot).input(b, k, frames) == match shape.voice[m].inputs@[k] {
            VoiceSource::Voice(up, port) => shape.voice_rec(up as int, slot).output(
                b,
                port as int,
                shape.block_size,
                frames,
            ),
            VoiceSource::Shared(up, port) => shape.shared_rec(up as int).output(
                b,
                port as int,
                shape.block_size,
                frames,
            ),
            VoiceSource::SourceOut(port) => words(b, shape.source_off(slot, port as int), frames),
            VoiceSource::Zero => words(b, zero_off(), frames),
        },
{
    shape.lemma_voice_reads_back(m, slot);
    if let VoiceSource::Voice(up, port) = shape.voice[m].inputs@[k] {
        shape.lemma_voice_off(up as int, slot);
        assert(shape.voice_rec(up as int, slot).output_off(port as int, shape.block_size)
            == shape.voice_port_off(up as int, slot, port as int));
    }
}

/// Byte `p` is part of the skip word of module `m` in slot `slot`.
pub open spec fn in_skip(shape: VoicedShape, m: int, slot: int, p: int) -> bool {
    shape.voice_off(m, slot) <= p < shape.voice_off(m, slot) + 4
}

/// Byte `p` is part of a skip word of slot `slot`, among the first `n` modules.
pub open spec fn skip_byte(shape: VoicedShape, slot: int, n: int, p: int) -> bool {
    exists|m: int| 0 <= m < n && #[trigger] in_skip(shape, m, slot, p)
}

/// Enabling or disabling a voice writes one skip word per module, and nothing else.
pub proof fn law_toggle_writes_one_skip_per_module(
    b: Seq<u8>,
    shape: VoicedShape,
    slot: int,
    active: bool,
    n: int,
)
    requires
        shape.plannable(),
        b.len() == shape.len(),
        0 <= slot < shape.max_voices,
        0 <= n <= shape.voice.len(),
    ensures
        ({
            let c = skips_set(b, shape, slot, active, n);
            &&& c.len() == b.len()
            &&& forall|m: int|
                0 <= m < n ==> #[trigger] runs(c, shape, m, slot) == active && word_at(
                    c,
                    shape.voice_off(m, slot),
                ) == skip_word(shape, m, slot, active)
            &&& forall|p: int|
                0 <= p < b.len() && !skip_byte(shape, slot, n, p) ==> #[trigger] c[p] == b[p]
        }),
    decreases n,
{
    if n > 0 {
        law_toggle_writes_one_skip_per_module(b, shape, slot, active, n - 1);
        let a = skips_set(b, shape, slot, active, n - 1);
        let c = skips_set(b, shape, slot, active, n);
        let off = shape.voice_off(n - 1, slot);
        let v = skip_word(shape, n - 1, slot, active);
        shape.lemma_front();
        shape.lemma_term();
        shape.lemma_voice_off(n - 1, slot);
        lemma_put_word(a, off, v);
        assert forall|m: int| 0 <= m < n implies #[trigger] runs(c, shape, m, slot) == active
            && word_at(c, shape.voice_off(m, slot)) == skip_word(shape, m, slot, active) by {
            shape.lemma_voice_off(m, slot);
            if m < n - 1 {
                assert(runs(a, shape, m, slot) == active);
                lemma_voice_apart(shape, m, slot, n - 1, slot);
                lemma_word_agree(a, c, 0, off, shape.voice_off(m, slot));
            }
        }
        assert forall|p: int| 0 <= p < b.len() && !skip_byte(shape, slot, n, p) implies #[trigger] c[p]
            == b[p] by {
            assert(!in_skip(shape, n - 1, slot, p));
            assert(!skip_byte(shape, slot, n - 1, p));
            assert(a[p] == b[p]);
        }
    }
}

/// The skip words of a slot are what was last written to them.
proof fn lemma_skip_bytes(
    b: Seq<u8>,
    shape: VoicedShape,
    slot: int,
    active: bool,
    n: int,
    m: int,
    p: int,
)
    requires
        shape.plannable(),
        b.len() == shape.len(),
        0 <= slot < shape.max_voices,
        0 <= m < n <= shape.voice.len(),
        in_skip(shape, m, slot, p),
    ensures
        0 <= p < b.len(),
        skips_set(b, shape, slot, active, n)[p] == word_bytes(
            skip_word(shape, m, slot, active),
        )[p - shape.voice_off(m, slot)],
    decreases n,
{
    shape.lemma_front();
    shape.lemma_term();
    shape.lemma_voice_off(m, slot);
    shape.lemma_voice_off(n - 1, slot);
    law_toggle_writes_one_skip_per_module(b, shape, slot, active, n - 1);
    if m < n - 1 {
        lemma_skip_bytes(b, shape, slot, active, n - 1, m, p);
        lemma_voice_apart(shape, m, slot, n - 1, slot);
    }
}

/// The last toggle of a voice counts: whatever its skip words were before, they are overwritten.
/// So doing the same twice is the same as doing it once.
pub proof fn law_last_toggle_counts(
    b: Seq<u8>,
    shape: VoicedShape,
    slot: int,
    first: bool,
    second: bool,
)
    requires
        shape.plannable(),
        b.len() == shape.len(),
        0 <= slot < shape.max_voices,
    ensures
        ({
            let n = shape.voice.len() as int;
            skips_set(skips_set(b, shape, slot, first, n), shape, slot, second, n) == skips_set(
                b,
                shape,
                slot,
                second,
                n,
            )
        }),
{
    let n = shape.voice.len() as int;
    let mid = skips_set(b, shape, slot, first, n);
    let twice = skips_set(mid, shape, slot, second, n);
    let once = skips_set(b, shape, slot, second, n);
    law_toggle_writes_one_skip_per_module(b, shape, slot, first, n);
    law_toggle_writes_one_skip_per_module(b, shape, slot, second, n);
    law_toggle_writes_one_skip_per_module(mid, shape, slot, second, n);
    assert forall|p: int| 0 <= p < b.len() implies twice[p] == once[p] by {
        if skip_byte(shape, slot, n, p) {
            let m = choose|m: int| 0 <= m < n && #[trigger] in_skip(shape, m, slot, p);
            lemma_skip_bytes(b, shape, slot, second, n, m, p);
            lemma_skip_bytes(mid, shape, slot, second, n, m, p);
        } else {
            assert(mid[p] == b[p]);
        }
    }
    assert(twice =~= once);
}

/// Disabling a voice that runs and enabling it again restores the whole buffer.
pub proof fn law_off_and_on_restores(b: Seq<u8>, shape: VoicedShape, slot: int)
    requires
        shape.plannable(),
        b.len() == shape.len(),
        0 <= slot < shape.max_voices,
        forall|m: int| 0 <= m < shape.voice.len() ==> #[trigger] runs(b, shape, m, slot),
    ensures
        ({
            let n = shape.voice.len() as int;
            skips_set(skips_set(b, shape, slot, false, n), shape, slot, true, n) == b
        }),
{
    let n = shape.voice.len() as int;
    let on = skips_set(b, shape, slot, true, n);
    law_last_toggle_counts(b, shape, slot, false, true);
    law_toggle_writes_one_skip_per_module(b, shape, slot, true, n);
    assert forall|p: int| 0 <= p < b.len() implies on[p] == b[p] by {
        if skip_byte(shape, slot, n, p) {
            let m = choose|m: int| 0 <= m < n && #[trigger] in_skip(shape, m, slot, p);
            let off = shape.voice_off(m, slot);
            lemma_skip_bytes(b, shape, slot, true, n, m, p);
            assert(runs(b, shape, m, slot));
            lemma_bytes_of_word(b, off, p - off);
        }
    }
    assert(on =~= b);
}

/// A disabled slot is never reported alive: none of its records runs.
pub proof fn law_disabled_slot_is_not_alive<P: ProcessFn>(
    b: Seq<u8>,
    shape: VoicedShape,
    fns: Seq<P>,
    tick: TickCtx,
    slot: int,
)
    requires
        shape.plannable(),
        b.len() == shape.len(),
        holds(b, shape.recs(), shape.block_size, shape.term()),
        tick.frames <= tick.block_size == shape.block_size,
        0 <= slot < shape.max_voices,
        forall|m: int| 0 <= m < shape.voice.len() ==> !#[trigger] runs(b, shape, m, slot),
    ensures
        !kept_alive(b, shape, fns, tick, slot, shape.num_recs()),
{
    let recs = shape.recs();
    shape.lemma_schedule();
    assert forall|m: int|
        0 <= m < shape.voice.len() && #[trigger] shape.index(m, slot)
            < shape.num_recs() implies !sounds(b, recs, fns, tick, shape.index(m, slot)) by {
        let j = shape.index(m, slot);
        shape.lemma_index(m, slot);
        law_walk_keeps_the_schedule(
            b,
            recs,
            shape.block_size,
            shape.records_start(),
            shape.term(),
            fns,
            tick,
            j,
        );
        assert(!runs(b, shape, m, slot));
        assert(recs[j] == shape.voice_rec(m, slot));
    }
}

/// Byte `p` lies in the record of module `m` in slot `slot`.
pub open spec fn in_record(shape: VoicedShape, m: int, slot: int, p: int) -> bool {
    shape.voice_off(m, slot) <= p < shape.voice_off(m, slot) + shape.stride(m)
}

/// Byte `p` belongs to voice `slot`: it lies in one of its records or in its source outputs.
pub open spec fn of_voice(shape: VoicedShape, slot: int, p: int) -> bool {
    ||| exists|m: int| 0 <= m < shape.voice.len() && #[trigger] in_record(shape, m, slot, p)
    ||| shape.source_base() + slot * shape.source_stride() <= p < shape.source_base() + (slot + 1)
        * shape.source_stride()
}

/// Two buffers differ in what belongs to voice `slot` only.
pub open spec fn same_but_voice(b: Seq<u8>, c: Seq<u8>, shape: VoicedShape, slot: int) -> bool {
    &&& b.len() == c.len()
    &&& forall|p: int| 0 <= p < b.len() && !of_voice(shape, slot, p) ==> #[trigger] b[p] == c[p]
}

/// What lies before the source outputs, among the shared records, or behind the terminator
/// belongs to no voice.
proof fn lemma_of_no_voice(shape: VoicedShape, slot: int, p: int)
    requires
        shape.plannable(),
        0 <= slot < shape.max_voices,
        p < shape.source_base() || shape.records_start() <= p < shape.first_voice() || shape.term()
            <= p,
    ensures
        !of_voice(shape, slot, p),
{
    shape.lemma_front();
    shape.lemma_term();
    lemma_slots(shape.source_stride(), shape.max_voices, slot);
    assert forall|m: int| 0 <= m < shape.voice.len() implies !#[trigger] in_record(
        shape,
        m,
        slot,
        p,
    ) by {
        shape.lemma_voice_off(m, slot);
    }
}

/// What lies in a voice's record belongs to no other voice.
proof fn lemma_of_other_record(shape: VoicedShape, slot: int, m: int, s: int, p: int)
    requires
        shape.plannable(),
        0 <= slot < shape.max_voices,
        0 <= s < shape.max_voices,
        s != slot,
        0 <= m < shape.voice.len(),
        in_record(shape, m, s, p),
    ensures
        !of_voice(shape, slot, p),
{
    shape.lemma_front();
    lemma_slots(shape.source_stride(), shape.max_voices, slot);
    shape.lemma_voice_off(m, s);
    assert forall|n: int| 0 <= n < shape.voice.len() implies !#[trigger] in_record(
        shape,
        n,
        slot,
        p,
    ) by {
        if m < n || m == n && s < slot {
            lemma_voice_apart(shape, m, s, n, slot);
        } else {
            lemma_voice_apart(shape, n, slot, m, s);
        }
    }
}

/// What lies in a voice's source outputs belongs to no other voice.
proof fn lemma_of_other_source(shape: VoicedShape, slot: int, s: int, p: int)
    requires
        shape.plannable(),
        0 <= slot < shape.max_voices,
        0 <= s < shape.max_voices,
        s != slot,
        shape.source_base() + s * shape.source_stride() <= p < shape.source_base() + (s + 1)
            * shape.source_stride(),
    ensures
        !of_voice(shape, slot, p),
{
    let stride = shape.source_stride();
    shape.lemma_front();
    lemma_slots(stride, shape.max_voices, s);
    assert forall|n: int| 0 <= n < shape.voice.len() implies !#[trigger] in_record(
        shape,
        n,
        slot,
        p,
    ) by {
        shape.lemma_voice_off(n, slot);
    }
    if s < slot {
        assert((s + 1) * stride <= slot * stride) by (nonlinear_arith)
            requires
                s < slot,
                0 <= stride,
        ;
    } else {
        assert((slot + 1) * stride <= s * stride) by (nonlinear_arith)
            requires
                slot < s,
                0 <= stride,
        ;
    }
}

/// Writing the same outputs over two buffers keeps them equal where they were.
proof fn lemma_outputs_alike(
    b: Seq<u8>,
    c: Seq<u8>,
    r: Rec,
    block_size: int,
    frames: int,
    out: Outcome,
    n: int,
)
    requires
        b.len() == c.len(),
    ensures
        put_outputs(b, r, block_size, frames, out, n).len() == b.len(),
        put_outputs(c, r, block_size, frames, out, n).len() == b.len(),
        forall|p: int|
            0 <= p < b.len() && b[p] == c[p] ==> #[trigger] put_outputs(
                b,
                r,
                block_size,
                frames,
                out,
                n,
            )[p] == put_outputs(c, r, block_size, frames, out, n)[p],
    decreases n,
{
    if n > 0 {
        lemma_outputs_alike(b, c, r, block_size, frames, out, n - 1);
        let x = put_outputs(b, r, block_size, frames, out, n - 1);
        let y = put_outputs(c, r, block_size, frames, out, n - 1);
        assert forall|p: int| 0 <= p < b.len() && b[p] == c[p] implies #[trigger] put_outputs(
            b,
            r,
            block_size,
            frames,
            out,
            n,
        )[p] == put_outputs(c, r, block_size, frames, out, n)[p] by {
            assert(x[p] == y[p]);
        }
    }
}

/// A record that belongs to another voice, or to all, sees the same in two buffers that differ in
/// one voice only.
proof fn lemma_sees_alike<P: ProcessFn>(
    b: Seq<u8>,
    c: Seq<u8>,
    shape: VoicedShape,
    fns: Seq<P>,
    tick: TickCtx,
    slot: int,
    j: int,
)
    requires
        shape.plannable(),
        b.len() == shape.len(),
        same_but_voice(b, c, shape, slot),
        tick.frames <= tick.block_size == shape.block_size,
        0 <= slot < shape.max_voices,
        0 <= j < shape.num_recs(),
        j < shape.shared.len() || shape.slot_of(j) != slot,
    ensures
        shape.recs()[j].active(b) == shape.recs()[j].active(c),
        outcome_of(b, shape.recs()[j], fns, tick) == outcome_of(c, shape.recs()[j], fns, tick),
{
    let bs = shape.block_size;
    let recs = shape.recs();
    let r = recs[j];
    let term = shape.term();
    let frames = tick.frames as int;
    shape.lemma_schedule();
    shape.lemma_front();
    shape.lemma_term();
    assert(r.fits(bs, term));
    assert(reads_back(r, bs));
    lemma_parts(r, bs);
    lemma_in_order(recs, bs, shape.records_start(), term, shape.len(), j, recs.len() as int);
    let m = shape.module_of(j);
    let s = shape.slot_of(j);
    if j >= shape.shared.len() {
        shape.lemma_index_of(j);
        shape.lemma_voice_off(m, s);
    } else {
        reveal(spec_end);
        lemma_rec_off(shape.records_start(), bs, shape.shared, j, shape.shared.len() as int);
        assert(r.end(bs) == spec_end(r.off, shape.shared[j], bs));
    }
    assert(agree(b, c, r.off, r.end(bs))) by {
        assert forall|p: int| r.off <= p < r.end(bs) implies #[trigger] b[p] == c[p] by {
            if j < shape.shared.len() {
                lemma_of_no_voice(shape, slot, p);
            } else {
                assert(in_record(shape, m, s, p));
                lemma_of_other_record(shape, slot, m, s, p);
            }
        }
    }
    lemma_word_agree(b, c, r.off, r.end(bs), r.off);
    assert(r.state(b) =~= r.state(c));
    assert forall|p: int| r.params_off <= p < r.params_off + r.params_len implies #[trigger] b[p]
        == c[p] by {
        lemma_of_no_voice(shape, slot, p);
    }
    assert(r.params(b) =~= r.params(c));
    let x = ctx_of(b, r, tick);
    let y = ctx_of(c, r, tick);
    assert forall|k: int| 0 <= k < r.num_outputs implies #[trigger] x.outputs[k] == y.outputs[k] by {
        lemma_bufs_len(k, r.num_outputs, bs);
        lemma_bufs_len(k + 1, r.num_outputs, bs);
        lemma_bufs_len(0, k, bs);
        lemma_words_agree(b, c, r.off, r.end(bs), r.output_off(k, bs), frames);
    }
    assert(x.outputs =~= y.outputs);
    assert forall|k: int| 0 <= k < r.inputs.len() implies #[trigger] x.inputs[k] == y.inputs[k] by {
        let at = r.inputs[k] as int;
        assert(agree(b, c, at, at + 4 * bs)) by {
            assert forall|p: int| at <= p < at + 4 * bs implies #[trigger] b[p] == c[p] by {
                lemma_reads_apart(shape, slot, j, k, p);
            }
        }
        lemma_words_agree(b, c, at, at + 4 * bs, at, frames);
    }
    assert(x.inputs =~= y.inputs);
    assert(x =~= y);
}

/// What a record reads belongs to no voice but its own.
proof fn lemma_reads_apart(shape: VoicedShape, slot: int, j: int, k: int, p: int)
    requires
        shape.plannable(),
        0 <= slot < shape.max_voices,
        0 <= j < shape.num_recs(),
        j < shape.shared.len() || shape.slot_of(j) != slot,
        0 <= k < shape.recs()[j].inputs.len(),
        shape.recs()[j].inputs[k] <= p < shape.recs()[j].inputs[k] + 4 * shape.block_size,
    ensures
        !of_voice(shape, slot, p),
{
    let bs = shape.block_size;
    let start = shape.records_start();
    let count = shape.shared.len() as int;
    shape.lemma_front();
    shape.lemma_term();
    if j < count {
        shape.lemma_params(j);
        lemma_reads_back(start, bs, shape.shared, j, shape.params_off(j));
        match shape.shared[j].inputs@[k] {
            Source::Port(rec, port) => {
                lemma_shared_port(shape, rec as int, port as int);
                lemma_of_no_voice(shape, slot, p);
            },
            Source::Zero => {
                lemma_of_no_voice(shape, slot, p);
            },
        }
    } else {
        let m = shape.module_of(j);
        let s = shape.slot_of(j);
        shape.lemma_index_of(j);
        shape.lemma_voice_reads_back(m, s);
        match shape.voice[m].inputs@[k] {
            VoiceSource::Shared(rec, port) => {
                lemma_shared_port(shape, rec as int, port as int);
                lemma_of_no_voice(shape, slot, p);
            },
            VoiceSource::SourceOut(port) => {
                shape.lemma_source_off(s, port as int);
                lemma_of_other_source(shape, slot, s, p);
            },
            VoiceSource::Voice(rec, port) => {
                let r = shape.voice_rec(rec as int, s);
                shape.lemma_voice_off(rec as int, s);
                lemma_parts(r, bs);
                lemma_bufs_len(0, port as int, bs);
                lemma_bufs_len(port as int, r.num_outputs, bs);
                lemma_bufs_len(port + 1, r.num_outputs, bs);
                assert(r.output_off(port as int, bs) == shape.voice_port_off(
                    rec as int,
                    s,
                    port as int,
                ));
                assert(in_record(shape, rec as int, s, p));
                lemma_of_other_record(shape, slot, rec as int, s, p);
            },
            VoiceSource::Zero => {
                lemma_of_no_voice(shape, slot, p);
            },
        }
    }
}

/// An output buffer of a shared record lies among the shared records.
proof fn lemma_shared_port(shape: VoicedShape, rec: int, port: int)
    requires
        shape.plannable(),
        0 <= rec < shape.shared.len(),
        0 <= port < shape.shared[rec].num_outputs,
    ensures
        shape.records_start() <= port_off(
            shape.records_start(),
            shape.block_size,
            shape.shared,
            rec,
            port,
        ),
        port_off(shape.records_start(), shape.block_size, shape.shared, rec, port) + 4
            * shape.block_size <= shape.first_voice(),
{
    let bs = shape.block_size;
    let start = shape.records_start();
    let r = rec_of(start, bs, shape.shared, rec, 0);
    shape.lemma_front();
    lemma_rec_off(start, bs, shape.shared, rec, shape.shared.len() as int);
    lemma_parts(r, bs);
    reveal(spec_end);
    lemma_bufs_len(0, port, bs);
    lemma_bufs_len(port, r.num_outputs, bs);
    lemma_bufs_len(port + 1, r.num_outputs, bs);
}

/// Voices are isolated: where two buffers differ in one voice only, so they do after a walk.
/// Nothing in the shared records or in any other voice, neither state nor output, depends on it.
pub proof fn law_voices_are_isolated<P: ProcessFn>(
    b: Seq<u8>,
    c: Seq<u8>,
    shape: VoicedShape,
    fns: Seq<P>,
    tick: TickCtx,
    slot: int,
    n: int,
)
    requires
        shape.plannable(),
        b.len() == shape.len(),
        holds(b, shape.recs(), shape.block_size, shape.term()),
        holds(c, shape.recs(), shape.block_size, shape.term()),
        same_but_voice(b, c, shape, slot),
        tick.frames <= tick.block_size == shape.block_size,
        0 <= slot < shape.max_voices,
        0 <= n <= shape.num_recs(),
    ensures
        same_but_voice(
            after_walk(b, shape.recs(), fns, tick, n),
            after_walk(c, shape.recs(), fns, tick, n),
            shape,
            slot,
        ),
    decreases n,
{
    let recs = shape.recs();
    let bs = shape.block_size;
    let start = shape.records_start();
    let term = shape.term();
    if n > 0 {
        let j = n - 1;
        let x = after_walk(b, recs, fns, tick, j);
        let y = after_walk(c, recs, fns, tick, j);
        let u = after_walk(b, recs, fns, tick, n);
        let v = after_walk(c, recs, fns, tick, n);
        shape.lemma_schedule();
        law_voices_are_isolated(b, c, shape, fns, tick, slot, j);
        law_walk_keeps_the_schedule(b, recs, bs, start, term, fns, tick, j);
        law_walk_keeps_the_schedule(c, recs, bs, start, term, fns, tick, j);
        lemma_turn_holds(x, recs, bs, start, term, j, fns, tick);
        lemma_turn_holds(y, recs, bs, start, term, j, fns, tick);
        let r = recs[j];
        if j >= shape.shared.len() && shape.slot_of(j) == slot {
            let m = shape.module_of(j);
            shape.lemma_index_of(j);
            shape.lemma_voice_off(m, slot);
            assert forall|p: int| 0 <= p < u.len() && !of_voice(shape, slot, p) implies #[trigger] u[p]
                == v[p] by {
                assert(!in_record(shape, m, slot, p));
                assert(x[p] == u[p] && y[p] == v[p] && x[p] == y[p]);
            }
        } else {
            lemma_sees_alike(x, y, shape, fns, tick, slot, j);
            if r.active(x) {
                let out = outcome_of(x, r, fns, tick);
                let kx = put_bytes(x, r.state_off(), kept_state(r, out));
                let ky = put_bytes(y, r.state_off(), kept_state(r, out));
                lemma_outputs_alike(kx, ky, r, bs, tick.frames as int, out, r.num_outputs);
                assert forall|p: int|
                    0 <= p < u.len() && !of_voice(shape, slot, p) implies #[trigger] u[p] == v[p] by {
                    assert(x[p] == y[p]);
                    assert(kx[p] == ky[p]);
                }
            }
        }
    }
}

/// Re-stamping states writes the states of the slot, one per module.
proof fn lemma_respawned(b: Seq<u8>, shape: VoicedShape, slot: int, templates: Seq<Seq<u8>>, n: int)
    requires
        shape.plannable(),
        b.len() == shape.len(),
        0 <= slot < shape.max_voices,
        0 <= n <= shape.voice.len() == templates.len(),
        forall|m: int|
            0 <= m < shape.voice.len() ==> (#[trigger] templates[m]).len()
                == shape.voice[m].state@.len(),
    ensures
        ({
            let c = respawned(b, shape, slot, templates, n);
            &&& c.len() == b.len()
            &&& agree(b, c, 0, shape.first_voice())
            &&& same_but_voice(b, c, shape, slot)
            &&& forall|m: int|
                0 <= m < n ==> (#[trigger] shape.voice_rec(m, slot)).state(c) == templates[m]
        }),
    decreases n,
{
    if n > 0 {
        lemma_respawned(b, shape, slot, templates, n - 1);
        let a = respawned(b, shape, slot, templates, n - 1);
        let c = respawned(b, shape, slot, templates, n);
        let r = shape.voice_rec(n - 1, slot);
        shape.lemma_front();
        shape.lemma_term();
        shape.lemma_voice_off(n - 1, slot);
        lemma_parts(r, shape.block_size);
        assert(templates[n - 1].len() == r.state_len);
        assert forall|p: int| 0 <= p < shape.first_voice() implies #[trigger] b[p] == c[p] by {
            assert(b[p] == a[p] && a[p] == c[p]);
        }
        assert forall|p: int| 0 <= p < b.len() && !of_voice(shape, slot, p) implies #[trigger] b[p]
            == c[p] by {
            assert(!in_record(shape, n - 1, slot, p));
            assert(b[p] == a[p] && a[p] == c[p]);
        }
        assert forall|m: int| 0 <= m < n implies (#[trigger] shape.voice_rec(m, slot)).state(c)
            == templates[m] by {
            let q = shape.voice_rec(m, slot);
            shape.lemma_voice_off(m, slot);
            lemma_parts(q, shape.block_size);
            if m < n - 1 {
                lemma_voice_apart(shape, m, slot, n - 1, slot);
                assert(q.state(a) == templates[m]);
                assert(q.state(c) =~= q.state(a));
            } else {
                assert(q.state(c) =~= templates[m]);
            }
        }
    }
}

/// Source output `port` of voice `slot` is silent.
pub open spec fn source_silent(b: Seq<u8>, shape: VoicedShape, slot: int, port: int, frames: int) -> bool {
    words(b, shape.source_off(slot, port), frames) == silence(frames)
}

/// Silencing touches the source outputs of the slot only.
proof fn lemma_silenced_apart(b: Seq<u8>, shape: VoicedShape, slot: int, frames: int, n: int)
    requires
        shape.plannable(),
        b.len() == shape.len(),
        0 <= slot < shape.max_voices,
        0 <= frames <= shape.block_size,
        0 <= n <= shape.num_source_outputs,
    ensures
        silenced(b, shape, slot, frames, n).len() == b.len(),
        agree(
            b,
            silenced(b, shape, slot, frames, n),
            shape.records_start(),
            b.len() as int,
        ),
        same_but_voice(b, silenced(b, shape, slot, frames, n), shape, slot),
    decreases n,
{
    if n > 0 {
        lemma_silenced_apart(b, shape, slot, frames, n - 1);
        let a = silenced(b, shape, slot, frames, n - 1);
        let c = silenced(b, shape, slot, frames, n);
        let off = shape.source_off(slot, n - 1);
        shape.lemma_front();
        shape.lemma_source_off(slot, n - 1);
        assert forall|p: int| shape.records_start() <= p < b.len() implies #[trigger] b[p]
            == c[p] by {
            assert(b[p] == a[p] && a[p] == c[p]);
        }
        assert forall|p: int| 0 <= p < b.len() && !of_voice(shape, slot, p) implies #[trigger] b[p]
            == c[p] by {
            assert(b[p] == a[p] && a[p] == c[p]);
        }
    }
}

/// Silencing writes zeros.
proof fn lemma_silenced(
    b: Seq<u8>,
    shape: VoicedShape,
    slot: int,
    frames: int,
    n: int,
    port: int,
)
    requires
        shape.plannable(),
        b.len() == shape.len(),
        0 <= slot < shape.max_voices,
        0 <= frames <= shape.block_size,
        0 <= port < n <= shape.num_source_outputs,
    ensures
        source_silent(silenced(b, shape, slot, frames, n), shape, slot, port, frames),
    decreases n,
{
    let a = silenced(b, shape, slot, frames, n - 1);
    let c = silenced(b, shape, slot, frames, n);
    let off = shape.source_off(slot, n - 1);
    let at = shape.source_off(slot, port);
    lemma_silenced_apart(b, shape, slot, frames, n - 1);
    shape.lemma_front();
    shape.lemma_term();
    shape.lemma_source_off(slot, n - 1);
    shape.lemma_source_off(slot, port);
    assert(c == put_words(a, off, silence(frames))) by {
        assert(silence(frames) =~= Seq::new(frames as nat, |i: int| 0u32));
    }
    if port < n - 1 {
        lemma_silenced(b, shape, slot, frames, n - 1, port);
        lemma_bufs_len(port + 1, n - 1, shape.block_size);
        assert(agree(a, c, 0, off));
        lemma_words_agree(a, c, 0, off, at, frames);
    } else {
        lemma_put_words(a, off, silence(frames));
    }
}

/// A claimed voice is fresh: the walk runs it, every one of its records is at its initial state,
/// and its source outputs are silent. Nothing that belongs to another voice, or to all, has
/// changed.
pub proof fn law_claimed_voice_is_fresh(c: SourceView)
    requires
        consistent(c),
        c.bytes.len() == c.shape.len(),
        c.free.len() > 0,
        c.free.last() < c.shape.max_voices,
    ensures
        ({
            let slot = c.free.last() as int;
            let d = claimed(c);
            &&& d.states[slot] == SlotState::Held
            &&& forall|m: int|
                0 <= m < c.shape.voice.len() ==> #[trigger] runs(d.bytes, c.shape, m, slot)
            &&& forall|m: int|
                0 <= m < c.shape.voice.len() ==> (#[trigger] c.shape.voice_rec(m, slot)).state(
                    d.bytes,
                ) == c.templates[m]
            &&& forall|port: int|
                0 <= port < c.shape.num_source_outputs ==> #[trigger] source_silent(
                    d.bytes,
                    c.shape,
                    slot,
                    port,
                    c.frames as int,
                )
            &&& same_but_voice(c.bytes, d.bytes, c.shape, slot)
        }),
{
    let shape = c.shape;
    let slot = c.free.last() as int;
    let n = shape.voice.len() as int;
    let frames = c.frames as int;
    let x = respawned(c.bytes, shape, slot, c.templates, n);
    let y = silenced(x, shape, slot, frames, shape.num_source_outputs);
    let z = skips_set(y, shape, slot, true, n);
    assert(claimed(c).bytes == z);
    shape.lemma_front();
    shape.lemma_term();
    lemma_respawned(c.bytes, shape, slot, c.templates, n);
    lemma_silenced_apart(x, shape, slot, frames, shape.num_source_outputs);
    law_toggle_writes_one_skip_per_module(y, shape, slot, true, n);
    assert forall|m: int| 0 <= m < n implies (#[trigger] shape.voice_rec(m, slot)).state(z)
        == c.templates[m] by {
        let r = shape.voice_rec(m, slot);
        shape.lemma_voice_off(m, slot);
        lemma_parts(r, shape.block_size);
        assert(r.state(x) == c.templates[m]);
        assert forall|p: int|
            r.state_off() <= p < r.state_off() + r.state_len implies x[p] == #[trigger] z[p] by {
            assert(x[p] == y[p]);
            assert forall|k: int| 0 <= k < n implies !#[trigger] in_skip(shape, k, slot, p) by {
                shape.lemma_voice_off(k, slot);
                if k < m {
                    lemma_voice_apart(shape, k, slot, m, slot);
                } else if m < k {
                    lemma_voice_apart(shape, m, slot, k, slot);
                }
            }
            assert(!skip_byte(shape, slot, n, p));
        }
        assert(r.state(z) =~= r.state(x));
    }
    assert forall|port: int| 0 <= port < shape.num_source_outputs implies #[trigger] source_silent(
        z,
        shape,
        slot,
        port,
        frames,
    ) by {
        let at = shape.source_off(slot, port);
        shape.lemma_source_off(slot, port);
        assert(agree(y, z, 0, shape.records_start())) by {
            assert forall|p: int| 0 <= p < shape.records_start() implies #[trigger] y[p] == z[p] by {
                assert forall|k: int| 0 <= k < n implies !#[trigger] in_skip(
                    shape,
                    k,
                    slot,
                    p,
                ) by {
                    shape.lemma_voice_off(k, slot);
                }
                assert(!skip_byte(shape, slot, n, p));
            }
        }
        lemma_silenced(x, shape, slot, frames, shape.num_source_outputs, port);
        lemma_words_agree(y, z, 0, shape.records_start(), at, frames);
    }
    assert forall|p: int|
        0 <= p < c.bytes.len() && !of_voice(shape, slot, p) implies #[trigger] c.bytes[p] == z[p] by {
        assert forall|k: int| 0 <= k < n implies !#[trigger] in_skip(shape, k, slot, p) by {
            shape.lemma_voice_off(k, slot);
            assert(!in_record(shape, k, slot, p));
        }
        assert(!skip_byte(shape, slot, n, p));
        assert(c.bytes[p] == x[p] && x[p] == y[p] && y[p] == z[p]);
    }
}

/// A slot is alive in a block if and only if one of its records runs and its module says that there
/// is more to come; a record that is done keeps nothing alive, and other slots do not matter.
pub proof fn law_slot_is_alive_while_a_record_sounds<P: ProcessFn>(
    b: Seq<u8>,
    shape: VoicedShape,
    fns: Seq<P>,
    tick: TickCtx,
    slot: int,
)
    requires
        shape.plannable(),
        b.len() == shape.len(),
        holds(b, shape.recs(), shape.block_size, shape.term()),
        tick.frames <= tick.block_size == shape.block_size,
        0 <= slot < shape.max_voices,
    ensures
        kept_alive(b, shape, fns, tick, slot, shape.num_recs()) <==> exists|m: int|
            0 <= m < shape.voice.len() && #[trigger] runs(b, shape, m, slot) && made_of(
                b,
                shape.recs(),
                fns,
                tick,
                shape.index(m, slot),
            ).tail == Tail::Active,
{
    let recs = shape.recs();
    shape.lemma_schedule();
    assert forall|m: int| 0 <= m < shape.voice.len() implies sounds(
        b,
        recs,
        fns,
        tick,
        #[trigger] shape.index(m, slot),
    ) == (runs(b, shape, m, slot) && made_of(b, recs, fns, tick, shape.index(m, slot)).tail
        == Tail::Active) && shape.index(m, slot) < shape.num_recs() by {
        let j = shape.index(m, slot);
        shape.lemma_index(m, slot);
        law_walk_keeps_the_schedule(
            b,
            recs,
            shape.block_size,
            shape.records_start(),
            shape.term(),
            fns,
            tick,
            j,
        );
        assert(recs[j] == shape.voice_rec(m, slot));
        lemma_turn_makes(
            b,
            recs,
            shape.block_size,
            shape.records_start(),
            shape.term(),
            fns,
            tick,
            j,
        );
    }
    if kept_alive(b, shape, fns, tick, slot, shape.num_recs()) {
        let m = choose|m: int|
            0 <= m < shape.voice.len() && #[trigger] shape.index(m, slot) < shape.num_recs()
                && sounds(b, recs, fns, tick, shape.index(m, slot));
        assert(runs(b, shape, m, slot));
    }
    if exists|m: int|
        0 <= m < shape.voice.len() && #[trigger] runs(b, shape, m, slot) && made_of(
            b,
            recs,
            fns,
            tick,
            shape.index(m, slot),
        ).tail == Tail::Active {
        let m = choose|m: int|
            0 <= m < shape.voice.len() && #[trigger] runs(b, shape, m, slot) && made_of(
                b,
                recs,
                fns,
                tick,
                shape.index(m, slot),
            ).tail == Tail::Active;
        assert(sounds(b, recs, fns, tick, shape.index(m, slot)));
    }
}

/// A voice that was let go ends once nothing in its slot sounds any more, and not before; a held voice
/// never ends by itself. The slots of ended voices are behind the free ones, and no others are.
pub proof fn law_voices_end_when_they_fall_silent<P: ProcessFn>(
    c: SourceView,
    fns: Seq<P>,
    slot: usize,
)
    requires
        slot < c.states.len() <= usize::MAX,
    ensures
        ({
            let after = walked(c, fns);
            let alive = alive_slots(c, fns)[slot as int];
            let tick = tick_of(c.shape.block_size as usize, c.frames, c.sample_rate, c.time);
            &&& alive == kept_alive(
                c.bytes,
                c.shape,
                fns,
                tick,
                slot as int,
                c.shape.num_recs(),
            )
            &&& after.states.len() == c.states.len()
            &&& c.states[slot as int] == SlotState::Held ==> after.states[slot as int]
                == SlotState::Held
            &&& c.states[slot as int] == SlotState::Free ==> after.states[slot as int]
                == SlotState::Free
            &&& c.states[slot as int] == SlotState::Released ==> after.states[slot as int] == if alive {
                SlotState::Released
            } else {
                SlotState::Free
            }
            &&& after.free.skip(c.free.len() as int).contains(slot) <==> c.states[slot as int]
                == SlotState::Released && !alive
            &&& after.free.take(c.free.len() as int) == c.free
            &&& same_setting(after, c)
        }),
{
    let after = walked(c, fns);
    let alive = alive_slots(c, fns);
    law_reap_frees_finished_voices(c.states, alive, slot);
    let freed = reapable(c.states, alive, c.states.len() as int);
    assert(after.free.skip(c.free.len() as int) =~= freed);
    assert(after.free.take(c.free.len() as int) =~= c.free);
}

/// Stopping voices changes skip words only.
proof fn lemma_stopped(b: Seq<u8>, shape: VoicedShape, slots: Seq<usize>, n: int)
    requires
        shape.plannable(),
        b.len() == shape.len(),
        holds(b, shape.recs(), shape.block_size, shape.term()),
        0 <= n <= slots.len(),
        forall|i: int| 0 <= i < slots.len() ==> #[trigger] slots[i] < shape.max_voices,
    ensures
        holds(stopped(b, shape, slots, n), shape.recs(), shape.block_size, shape.term()),
        same_but_skips(b, stopped(b, shape, slots, n), shape),
    decreases n,
{
    if n > 0 {
        lemma_stopped(b, shape, slots, n - 1);
        let a = stopped(b, shape, slots, n - 1);
        let c = stopped(b, shape, slots, n);
        assert(slots[n - 1] < shape.max_voices);
        lemma_skips(a, shape, slots[n - 1] as int, false, shape.voice.len() as int);
        lemma_same_but_skips(b, a, c, shape);
    } else {
        assert forall|m: int, s: int|
            0 <= m < shape.voice.len() && 0 <= s < shape.max_voices implies #[trigger] same_body(
            b,
            b,
            shape,
            m,
            s,
        ) by {}
    }
}

/// A block runs the modules of every sounding voice on that voice's own state and inputs: afterwards
/// the voice's records hold the states that their modules left, for the next block, and the outputs
/// that they put out. A voice that does not run keeps its states and outputs.
pub proof fn law_block_runs_the_voices<P: ProcessFn>(
    c: SourceView,
    fns: Seq<P>,
    m: int,
    slot: int,
    port: int,
)
    requires
        c.shape.plannable(),
        c.bytes.len() == c.shape.len(),
        holds(c.bytes, c.shape.recs(), c.shape.block_size, c.shape.term()),
        c.frames <= c.shape.block_size <= usize::MAX,
        c.states.len() == c.shape.max_voices <= usize::MAX,
        0 <= m < c.shape.voice.len(),
        0 <= slot < c.shape.max_voices,
        0 <= port < c.shape.voice[m].num_outputs,
    ensures
        ({
            let shape = c.shape;
            let tick = TickCtx {
                frames: c.frames,
                block_size: shape.block_size as usize,
                sample_rate: c.sample_rate,
                time: c.time,
            };
            let out = made_of(c.bytes, shape.recs(), fns, tick, shape.index(m, slot));
            let after = walked(c, fns).bytes;
            let state_at = shape.voice_off(m, slot) + 32;
            let state_len = shape.voice[m].state@.len() as int;
            let at = shape.voice_port_off(m, slot, port);
            let n = c.frames as int;
            &&& after.len() == c.bytes.len()
            &&& runs(c.bytes, shape, m, slot) && out.state.len() == state_len ==> after.subrange(
                state_at,
                state_at + state_len,
            ) == out.state
            &&& runs(c.bytes, shape, m, slot) && port < out.outputs.len()
                && out.outputs[port].len() == n ==> words(after, at, n) == out.outputs[port]
            &&& !runs(c.bytes, shape, m, slot) ==> after.subrange(state_at, state_at + state_len)
                == c.bytes.subrange(state_at, state_at + state_len) && words(after, at, n) == words(
                c.bytes,
                at,
                n,
            )
        }),
{
    let shape = c.shape;
    let bs = shape.block_size;
    let tick = tick_of(bs as usize, c.frames, c.sample_rate, c.time);
    let recs = shape.recs();
    let j = shape.index(m, slot);
    let r = shape.voice_rec(m, slot);
    let run = after_walk(c.bytes, recs, fns, tick, shape.num_recs());
    let alive = alive_slots(c, fns);
    let freed = reapable(c.states, alive, c.states.len() as int);
    let after = walked(c, fns).bytes;
    shape.lemma_schedule();
    shape.lemma_index(m, slot);
    shape.lemma_voice_off(m, slot);
    law_records_run_their_modules(
        c.bytes,
        recs,
        bs,
        shape.records_start(),
        shape.term(),
        fns,
        tick,
        j,
        port,
    );
    law_walk_keeps_the_schedule(
        c.bytes,
        recs,
        bs,
        shape.records_start(),
        shape.term(),
        fns,
        tick,
        shape.num_recs(),
    );
    assert forall|i: int| 0 <= i < freed.len() implies #[trigger] freed[i] < shape.max_voices by {
        lemma_reaped_slots(c.states, alive, c.states.len() as int, i);
    }
    lemma_stopped(run, shape, freed, freed.len() as int);
    assert(same_body(run, after, shape, m, slot));
    lemma_voice_regions(c.bytes, run, after, shape, m, slot, port, c.frames as int);
}

/// Reaped slots are slots.
proof fn lemma_reaped_slots(states: Seq<SlotState>, alive: Seq<bool>, n: int, i: int)
    requires
        0 <= n <= states.len() <= usize::MAX,
        0 <= i < reapable(states, alive, n).len(),
    ensures
        reapable(states, alive, n)[i] < n,
    decreases n,
{
    if n > 0 {
        if i < reapable(states, alive, n - 1).len() {
            lemma_reaped_slots(states, alive, n - 1, i);
        }
    }
}

/// The state and the outputs of a voice record lie in its body.
proof fn lemma_voice_regions(
    b: Seq<u8>,
    run: Seq<u8>,
    after: Seq<u8>,
    shape: VoicedShape,
    m: int,
    slot: int,
    port: int,
    n: int,
)
    requires
        shape.plannable(),
        b.len() == shape.len(),
        run.len() == b.len(),
        after.len() == b.len(),
        same_body(run, after, shape, m, slot),
        0 <= m < shape.voice.len(),
        0 <= slot < shape.max_voices,
        0 <= port < shape.voice[m].num_outputs,
        0 <= n <= shape.block_size,
    ensures
        ({
            let state_at = shape.voice_off(m, slot) + 32;
            let state_len = shape.voice[m].state@.len() as int;
            let at = shape.voice_port_off(m, slot, port);
            let r = shape.voice_rec(m, slot);
            &&& state_at == r.state_off()
            &&& state_len == r.state_len
            &&& at == r.output_off(port, shape.block_size)
            &&& after.subrange(state_at, state_at + state_len) == run.subrange(
                state_at,
                state_at + state_len,
            )
            &&& words(after, at, n) == words(run, at, n)
            &&& agree(b, run, r.off, r.end(shape.block_size)) ==> run.subrange(
                state_at,
                state_at + state_len,
            ) == b.subrange(state_at, state_at + state_len) && words(run, at, n) == words(b, at, n)
        }),
{
    let bs = shape.block_size;
    let r = shape.voice_rec(m, slot);
    shape.lemma_front();
    shape.lemma_term();
    shape.lemma_voice_off(m, slot);
    lemma_parts(r, bs);
    lemma_bufs_len(0, port, bs);
    lemma_bufs_len(port, r.num_outputs, bs);
    lemma_bufs_len(port + 1, r.num_outputs, bs);
    let state_at = r.state_off();
    let at = r.output_off(port, bs);
    assert(at == shape.voice_port_off(m, slot, port));
    let lo = shape.voice_off(m, slot) + 4;
    let hi = shape.voice_off(m, slot) + shape.stride(m);
    assert(hi == r.end(bs));
    assert(after.subrange(state_at, state_at + r.state_len) =~= run.subrange(
        state_at,
        state_at + r.state_len,
    ));
    lemma_words_agree(run, after, lo, hi, at, n);
    if agree(b, run, r.off, r.end(bs)) {
        assert(run.subrange(state_at, state_at + r.state_len) =~= b.subrange(
            state_at,
            state_at + r.state_len,
        ));
        lemma_words_agree(b, run, r.off, r.end(bs), at, n);
    }
}

/// A block runs the module of every shared record once, whatever the voices do: afterwards the record
/// holds the state that its module left and the outputs that it put out.
pub proof fn law_block_runs_the_shared_records<P: ProcessFn>(
    c: SourceView,
    fns: Seq<P>,
    i: int,
    port: int,
)
    requires
        c.shape.plannable(),
        c.bytes.len() == c.shape.len(),
        holds(c.bytes, c.shape.recs(), c.shape.block_size, c.shape.term()),
        c.frames <= c.shape.block_size <= usize::MAX,
        c.states.len() == c.shape.max_voices <= usize::MAX,
        0 <= i < c.shape.shared.len(),
        0 <= port < c.shape.shared[i].num_outputs,
        c.shape.shared_rec(i).active(c.bytes),
    ensures
        ({
            let shape = c.shape;
            let tick = TickCtx {
                frames: c.frames,
                block_size: shape.block_size as usize,
                sample_rate: c.sample_rate,
                time: c.time,
            };
            let out = made_of(c.bytes, shape.recs(), fns, tick, i);
            let after = walked(c, fns).bytes;
            let r = shape.shared_rec(i);
            let n = c.frames as int;
            &&& out.state.len() == shape.shared[i].state@.len() ==> after.subrange(
                r.state_off(),
                r.state_off() + r.state_len,
            ) == out.state
            &&& port < out.outputs.len() && out.outputs[port].len() == n ==> words(
                after,
                port_off(
                    shape.records_start(),
                    shape.block_size,
                    shape.shared,
                    i,
                    port,
                ),
                n,
            ) == out.outputs[port]
        }),
{
    let shape = c.shape;
    let bs = shape.block_size;
    let tick = tick_of(bs as usize, c.frames, c.sample_rate, c.time);
    let recs = shape.recs();
    let r = shape.shared_rec(i);
    let run = after_walk(c.bytes, recs, fns, tick, shape.num_recs());
    let alive = alive_slots(c, fns);
    let freed = reapable(c.states, alive, c.states.len() as int);
    let after = walked(c, fns).bytes;
    let n = c.frames as int;
    shape.lemma_schedule();
    shape.lemma_front();
    shape.lemma_term();
    assert(0 <= shape.voice.len() * shape.max_voices) by (nonlinear_arith)
        requires
            0 <= shape.voice.len(),
            0 <= shape.max_voices,
    ;
    assert(recs[i] == r);
    law_records_run_their_modules(
        c.bytes,
        recs,
        bs,
        shape.records_start(),
        shape.term(),
        fns,
        tick,
        i,
        port,
    );
    law_walk_keeps_the_schedule(
        c.bytes,
        recs,
        bs,
        shape.records_start(),
        shape.term(),
        fns,
        tick,
        shape.num_recs(),
    );
    assert forall|k: int| 0 <= k < freed.len() implies #[trigger] freed[k] < shape.max_voices by {
        lemma_reaped_slots(c.states, alive, c.states.len() as int, k);
    }
    lemma_stopped(run, shape, freed, freed.len() as int);
    assert(agree(run, after, 0, shape.first_voice()));
    reveal(spec_end);
    lemma_rec_off(shape.records_start(), bs, shape.shared, i, shape.shared.len() as int);
    assert(r.fits(bs, shape.term()));
    lemma_parts(r, bs);
    lemma_bufs_len(0, port, bs);
    lemma_bufs_len(port, r.num_outputs, bs);
    lemma_bufs_len(port + 1, r.num_outputs, bs);
    lemma_rec_off(shape.records_start(), bs, shape.shared, i + 1, shape.shared.len() as int);
    assert(r.end(bs) == spec_end(r.off, shape.shared[i], bs));
    assert(r.end(bs) <= shape.first_voice());
    let at = r.output_off(port, bs);
    assert(after.subrange(r.state_off(), r.state_off() + r.state_len) =~= run.subrange(
        r.state_off(),
        r.state_off() + r.state_len,
    ));
    lemma_words_agree(run, after, 0, shape.first_voice(), at, n);
}

} // verus!
