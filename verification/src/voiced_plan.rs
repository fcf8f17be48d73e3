//! The processing plan of a patch with a voice source.

use vstd::prelude::*;
use crate::bytes::{agree, fill_words, lemma_word_agree, lemma_words_agree, put_bytes, put_words, read_u32, read_words, store_u32, word_at, words, write_bytes, write_u32, write_words};
use crate::layout::{BUF_ALIGN, HEADER_WORDS, RECORD_ALIGN, Rec, SAMPLE, STATE_ALIGN, TERMINATOR, align_up, block_end, lemma_bufs_len, lemma_parts, outputs_at, record_end};
use crate::plan::{RecordSpec, lemma_params_at, lemma_rec_off, lemma_spec_end, lemma_written_agree, measured, param_blocks, params_end, params_start, place_params, place_records, port_off, ports_countable, rec_off, row_end, runnable, spec_end, tick_of, write_params, write_record, write_records, written, zero_off, zeroed};
use crate::processing::{ProcessFn, Tail, TickCtx, callable};
use crate::voice_layout::{VoiceRecordSpec, VoiceSource, VoicedShape, lemma_same_but_skips, lemma_skips, lemma_slots, lemma_stride, lemma_voice_apart, runs, same_body, same_but_skips, silenced, skips_set, stride_of};
use crate::walk::{after_turn, after_walk, holds, lemma_header_agree, lemma_in_order, lemma_turn_holds, linked, outcome_of, place, schedule, take_turn};

verus! {

/// Where the records of the voice modules stand.
struct VoicePlaces {
    /// Per voice module: absolute byte offset of its voice-0 record.
    base: Vec<usize>,
    /// Per voice module: byte stride from one voice's record to the next.
    stride: Vec<usize>,
    /// Per voice module: within-record byte offset of the state region.
    state_within: Vec<u32>,
    /// Per voice module: within-record byte offset of the port-0 output buffer.
    out_within: Vec<u32>,
}

impl VoicePlaces {
    /// The places of voice module `m` are those of the shape.
    spec fn fits(self, shape: VoicedShape, m: int) -> bool {
        &&& self.base@[m] == shape.voice_base(m)
        &&& self.stride@[m] == shape.stride(m)
        &&& self.state_within@[m] == 32
        &&& self.out_within@[m] == outputs_at(
            0,
            shape.voice[m].state@.len() as int,
            shape.voice[m].inputs@.len() as int,
        )
    }

    /// The first `n` voice modules have the places of the shape.
    spec fn placed(self, shape: VoicedShape, n: int) -> bool {
        &&& self.base.len() == n
        &&& self.stride.len() == n
        &&& self.state_within.len() == n
        &&& self.out_within.len() == n
        &&& forall|m: int| 0 <= m < n ==> #[trigger] self.fits(shape, m)
    }

    /// Offset of the record of voice module `m` in slot `slot`.
    fn at(&self, m: usize, slot: usize, Ghost(shape): Ghost<VoicedShape>) -> (off: usize)
        requires
            shape.plannable(),
            self.placed(shape, shape.voice.len() as int),
            m < shape.voice.len(),
            slot <= shape.max_voices,
        ensures
            off == shape.voice_off(m as int, slot as int),
            off <= shape.term(),
    {
        proof {
            assert(self.fits(shape, m as int));
            shape.lemma_front();
            shape.lemma_term();
            shape.lemma_voice_base(m as int, shape.voice.len() as int);
            lemma_stride(0, shape.voice[m as int], shape.block_size);
            lemma_slots(shape.stride(m as int), shape.max_voices, slot as int);
        }
        self.base[m] + slot * self.stride[m]
    }
}

/// Computes where the voice records go, from `first` on.
fn place_voices(
    first: usize,
    block_size: usize,
    voice: &[VoiceRecordSpec],
    max_voices: usize,
    Ghost(shape): Ghost<VoicedShape>,
) -> (res: (VoicePlaces, usize))
    requires
        shape.plannable(),
        shape.block_size == block_size,
        shape.voice == voice@,
        shape.max_voices == max_voices,
        shape.first_voice() == first,
    ensures
        res.0.placed(shape, voice@.len() as int),
        res.1 == shape.term(),
{
    let mut places = VoicePlaces {
        base: Vec::new(),
        stride: Vec::new(),
        state_within: Vec::new(),
        out_within: Vec::new(),
    };
    let mut size: usize = first;
    let mut m: usize = 0;
    while m < voice.len()
        invariant
            m <= voice.len(),
            shape.plannable(),
            shape.block_size == block_size,
            shape.voice == voice@,
            shape.max_voices == max_voices,
            size == shape.voice_base(m as int),
            places.placed(shape, m as int),
        decreases voice.len() - m,
    {
        let r = &voice[m];
        let ghost before = places;
        let ghost q = Rec {
            off: 0,
            fn_index: 0,
            state_len: r.state@.len() as int,
            params_off: 0,
            params_len: 0,
            inputs: Seq::new(r.inputs@.len(), |k: int| 0u32),
            num_outputs: r.num_outputs as int,
        };
        proof {
            reveal(stride_of);
            shape.lemma_term();
            shape.lemma_voice_base(m + 1, voice@.len() as int);
            assert(voice@[m as int].num_outputs <= u32::MAX);
            lemma_parts(q, block_size as int);
            assert(q.end(block_size as int) == shape.stride(m as int));
            lemma_bufs_len(0, q.num_outputs, block_size as int);
            assert(shape.voice_base(m + 1) == size + shape.stride(m as int) * max_voices);
            shape.lemma_front();
        }
        let state_off: usize = align_up(HEADER_WORDS * 4, STATE_ALIGN);
        let inputs_off: usize = align_up(state_off + r.state.len(), 4);
        let outputs_off: usize = align_up(inputs_off + r.inputs.len() * 4, BUF_ALIGN);
        let stride: usize = align_up(
            outputs_off + r.num_outputs * block_size * SAMPLE,
            RECORD_ALIGN,
        );
        places.base.push(size);
        places.state_within.push(state_off as u32);
        places.out_within.push(outputs_off as u32);
        places.stride.push(stride);
        size = size + stride * max_voices;
        assert forall|k: int| 0 <= k < m + 1 implies #[trigger] places.fits(shape, k) by {
            if k < m {
                assert(before.fits(shape, k));
            }
        }
        m = m + 1;
    }
    (places, size)
}

/// Resolves one source to the offset of the buffer to read in slot `slot`.
fn resolve_voice_source(
    src: VoiceSource,
    slot: usize,
    shared_outs: &Vec<u32>,
    places: &VoicePlaces,
    source_base: usize,
    source_stride: usize,
    block_size: usize,
    Ghost(shape): Ghost<VoicedShape>,
) -> (off: u32)
    requires
        shape.plannable(),
        shape.block_size == block_size,
        places.placed(shape, shape.voice.len() as int),
        source_base == shape.source_base(),
        source_stride == shape.source_stride(),
        slot < shape.max_voices,
        shared_outs.len() == shape.shared.len(),
        forall|i: int|
            0 <= i < shape.shared.len() ==> #[trigger] shared_outs@[i] == port_off(
                shape.records_start(),
                block_size as int,
                shape.shared,
                i,
                0,
            ),
        match src {
            VoiceSource::Shared(rec, _) => rec < shape.shared.len(),
            VoiceSource::Voice(rec, _) => rec < shape.voice.len(),
            _ => true,
        },
        shape.input_off(src, slot as int) <= u32::MAX,
    ensures
        off == shape.input_off(src, slot as int),
{
    match src {
        VoiceSource::Shared(rec, port) => {
            proof {
                lemma_bufs_len(0, port as int, block_size as int);
                assert(shared_outs@[rec as int] == port_off(
                    shape.records_start(),
                    block_size as int,
                    shape.shared,
                    rec as int,
                    0,
                ));
            }
            shared_outs[rec] + (port * block_size * SAMPLE) as u32
        },
        VoiceSource::SourceOut(port) => {
            proof {
                shape.lemma_front();
                lemma_bufs_len(0, port as int, block_size as int);
                lemma_slots(shape.source_stride(), shape.max_voices, slot as int);
            }
            (source_base + slot * source_stride + port * block_size * SAMPLE) as u32
        },
        VoiceSource::Voice(rec, port) => {
            proof {
                assert(places.fits(shape, rec as int));
                lemma_bufs_len(0, port as int, block_size as int);
                shape.lemma_front();
                shape.lemma_voice_off(rec as int, slot as int);
            }
            (places.at(rec, slot, Ghost(shape)) + places.out_within[rec] as usize + port * block_size
                * SAMPLE) as u32
        },
        VoiceSource::Zero => 64,
    }
}

/// Resolves the sources of voice module `m` in slot `slot` to offsets.
fn resolve_voice_sources(
    voice: &[VoiceRecordSpec],
    m: usize,
    slot: usize,
    shared_outs: &Vec<u32>,
    places: &VoicePlaces,
    source_base: usize,
    source_stride: usize,
    block_size: usize,
    Ghost(shape): Ghost<VoicedShape>,
) -> (offs: Vec<u32>)
    requires
        shape.plannable(),
        shape.block_size == block_size,
        shape.voice == voice@,
        places.placed(shape, voice@.len() as int),
        source_base == shape.source_base(),
        source_stride == shape.source_stride(),
        m < voice.len(),
        slot < shape.max_voices,
        shared_outs.len() == shape.shared.len(),
        forall|i: int|
            0 <= i < shape.shared.len() ==> #[trigger] shared_outs@[i] == port_off(
                shape.records_start(),
                block_size as int,
                shape.shared,
                i,
                0,
            ),
    ensures
        offs@ == shape.voice_rec(m as int, slot as int).inputs,
{
    let ghost r = shape.voice_rec(m as int, slot as int);
    let inputs = &voice[m].inputs;
    let mut offs: Vec<u32> = Vec::new();
    let mut k: usize = 0;
    proof {
        shape.lemma_voice_reads_back(m as int, slot as int);
    }
    while k < inputs.len()
        invariant
            k <= inputs.len(),
            m < voice.len(),
            *inputs == voice@[m as int].inputs,
            shape.plannable(),
            shape.block_size == block_size,
            shape.voice == voice@,
            places.placed(shape, voice@.len() as int),
            source_base == shape.source_base(),
            source_stride == shape.source_stride(),
            slot < shape.max_voices,
            shared_outs.len() == shape.shared.len(),
            forall|i: int|
                0 <= i < shape.shared.len() ==> #[trigger] shared_outs@[i] == port_off(
                    shape.records_start(),
                    block_size as int,
                    shape.shared,
                    i,
                    0,
                ),
            r.inputs.len() == inputs.len(),
            forall|k: int|
                0 <= k < inputs.len() ==> #[trigger] r.inputs[k] == shape.input_off(
                    inputs@[k],
                    slot as int,
                ),
            offs@ =~= r.inputs.take(k as int),
        decreases inputs.len() - k,
    {
        let src = inputs[k];
        proof {
            assert(r.inputs[k as int] == shape.input_off(src, slot as int));
            assert(shape.voice[m as int].inputs@[k as int] == src);
        }
        offs.push(
            resolve_voice_source(
                src,
                slot,
                shared_outs,
                places,
                source_base,
                source_stride,
                block_size,
                Ghost(shape),
            ),
        );
        k = k + 1;
    }
    assert(r.inputs.take(k as int) =~= r.inputs);
    offs
}

/// The record of voice module `m` in slot `s` has been laid out.
pub open spec fn stamped(b: Seq<u8>, shape: VoicedShape, m: int, s: int) -> bool {
    written(b, shape.voice_rec(m, s), shape.voice[m].state@, shape.block_size)
}

/// Writes the record of voice module `m` in slot `slot`.
fn stamp_voice(
    buf: &mut Vec<u8>,
    voice: &[VoiceRecordSpec],
    m: usize,
    slot: usize,
    shared_outs: &Vec<u32>,
    places: &VoicePlaces,
    params_off: usize,
    source_base: usize,
    source_stride: usize,
    block_size: usize,
    Ghost(shape): Ghost<VoicedShape>,
)
    requires
        shape.plannable(),
        old(buf).len() == shape.len(),
        shape.block_size == block_size,
        shape.voice == voice@,
        places.placed(shape, voice@.len() as int),
        source_base == shape.source_base(),
        source_stride == shape.source_stride(),
        m < voice.len(),
        slot < shape.max_voices,
        params_off == shape.params_off(shape.shared.len() + m),
        shared_outs.len() == shape.shared.len(),
        forall|i: int|
            0 <= i < shape.shared.len() ==> #[trigger] shared_outs@[i] == port_off(
                shape.records_start(),
                block_size as int,
                shape.shared,
                i,
                0,
            ),
        zeroed(old(buf)@, shape.voice_off(m as int, slot as int), shape.term()),
    ensures
        final(buf).len() == old(buf).len(),
        agree(old(buf)@, final(buf)@, 0, shape.voice_off(m as int, slot as int)),
        agree(
            old(buf)@,
            final(buf)@,
            shape.voice_off(m as int, slot as int) + shape.stride(m as int),
            old(buf).len() as int,
        ),
        stamped(final(buf)@, shape, m as int, slot as int),
{
    let ghost r = shape.voice_rec(m as int, slot as int);
    let ghost before = buf@;
    proof {
        shape.lemma_front();
        shape.lemma_term();
        shape.lemma_voice_off(m as int, slot as int);
        shape.lemma_params(shape.shared.len() + m);
        lemma_parts(r, block_size as int);
        assert(voice@[m as int].num_outputs <= u32::MAX);
    }
    let inputs = resolve_voice_sources(
        voice,
        m,
        slot,
        shared_outs,
        places,
        source_base,
        source_stride,
        block_size,
        Ghost(shape),
    );
    write_record(
        buf,
        places.at(m, slot, Ghost(shape)),
        voice[m].fn_index,
        &voice[m].state,
        &inputs,
        voice[m].num_outputs,
        params_off,
        voice[m].params.len(),
        block_size,
        Ghost(r),
    );
    proof {
        assert forall|p: int| r.outputs_off() <= p < r.end(block_size as int) implies #[trigger] buf@[p]
            == 0 by {
            assert(before[p] == 0 && before[p] == buf@[p]);
        }
        assert forall|p: int|
            shape.voice_off(m as int, slot as int) + shape.stride(m as int) <= p
                < before.len() implies #[trigger] before[p] == buf@[p] by {}
    }
}

/// Stamps every voice of every module into a buffer that is still zero there.
fn stamp_voices(
    buf: &mut Vec<u8>,
    voice: &[VoiceRecordSpec],
    max_voices: usize,
    shared_outs: &Vec<u32>,
    places: &VoicePlaces,
    params_offs: &Vec<usize>,
    source_base: usize,
    source_stride: usize,
    block_size: usize,
    Ghost(shape): Ghost<VoicedShape>,
)
    requires
        shape.plannable(),
        old(buf).len() == shape.len(),
        shape.block_size == block_size,
        shape.voice == voice@,
        shape.max_voices == max_voices,
        places.placed(shape, voice@.len() as int),
        source_base == shape.source_base(),
        source_stride == shape.source_stride(),
        params_offs.len() == shape.lens().len(),
        forall|i: int|
            0 <= i < shape.lens().len() ==> #[trigger] params_offs@[i] == shape.params_off(i),
        shared_outs.len() == shape.shared.len(),
        forall|i: int|
            0 <= i < shape.shared.len() ==> #[trigger] shared_outs@[i] == port_off(
                shape.records_start(),
                block_size as int,
                shape.shared,
                i,
                0,
            ),
        zeroed(old(buf)@, shape.first_voice(), shape.term()),
    ensures
        final(buf).len() == old(buf).len(),
        agree(old(buf)@, final(buf)@, 0, shape.first_voice()),
        agree(old(buf)@, final(buf)@, shape.term(), old(buf).len() as int),
        forall|m: int, s: int|
            0 <= m < voice@.len() && 0 <= s < max_voices ==> #[trigger] stamped(
                final(buf)@,
                shape,
                m,
                s,
            ),
{
    let ghost b = buf@;
    let mut m: usize = 0;
    proof {
        shape.lemma_term();
    }
    while m < voice.len()
        invariant
            m <= voice.len(),
            shape.plannable(),
            shape.block_size == block_size,
            shape.voice == voice@,
            shape.max_voices == max_voices,
            places.placed(shape, voice@.len() as int),
            source_base == shape.source_base(),
            source_stride == shape.source_stride(),
            params_offs.len() == shape.lens().len(),
            forall|i: int|
                0 <= i < shape.lens().len() ==> #[trigger] params_offs@[i] == shape.params_off(i),
            shared_outs.len() == shape.shared.len(),
            forall|i: int|
                0 <= i < shape.shared.len() ==> #[trigger] shared_outs@[i] == port_off(
                    shape.records_start(),
                    block_size as int,
                    shape.shared,
                    i,
                    0,
                ),
            b == old(buf)@,
            b.len() == shape.len(),
            buf.len() == b.len(),
            agree(b, buf@, 0, shape.first_voice()),
            agree(b, buf@, shape.term(), b.len() as int),
            zeroed(buf@, shape.voice_base(m as int), shape.term()),
            forall|n: int, s: int|
                0 <= n < m && 0 <= s < max_voices ==> #[trigger] stamped(buf@, shape, n, s),
        decreases voice.len() - m,
    {
        let mut slot: usize = 0;
        proof {
            assert(0 * shape.stride(m as int) == 0);
            if max_voices == 0 {
                assert(shape.stride(m as int) * 0 == 0);
            }
        }
        while slot < max_voices
            invariant
                m < voice.len(),
                slot <= max_voices,
                shape.plannable(),
                shape.block_size == block_size,
                shape.voice == voice@,
                shape.max_voices == max_voices,
                places.placed(shape, voice@.len() as int),
                source_base == shape.source_base(),
                source_stride == shape.source_stride(),
                params_offs.len() == shape.lens().len(),
                forall|i: int|
                    0 <= i < shape.lens().len() ==> #[trigger] params_offs@[i] == shape.params_off(
                        i,
                    ),
                shared_outs.len() == shape.shared.len(),
                forall|i: int|
                    0 <= i < shape.shared.len() ==> #[trigger] shared_outs@[i] == port_off(
                        shape.records_start(),
                        block_size as int,
                        shape.shared,
                        i,
                        0,
                    ),
                b == old(buf)@,
                b.len() == shape.len(),
                buf.len() == b.len(),
                agree(b, buf@, 0, shape.first_voice()),
                agree(b, buf@, shape.term(), b.len() as int),
                zeroed(buf@, shape.voice_off(m as int, slot as int), shape.term()),
                forall|n: int, s: int|
                    (0 <= n < m && 0 <= s < max_voices) || (n == m && 0 <= s < slot)
                        ==> #[trigger] stamped(buf@, shape, n, s),
            decreases max_voices - slot,
        {
            let ghost before = buf@;
            let at: usize = shared_outs.len() + m;
            stamp_voice(
                buf,
                voice,
                m,
                slot,
                shared_outs,
                places,
                params_offs[at],
                source_base,
                source_stride,
                block_size,
                Ghost(shape),
            );
            proof {
                shape.lemma_voice_off(m as int, slot as int);
                shape.lemma_term();
                let off = shape.voice_off(m as int, slot as int);
                let next = shape.voice_off(m as int, slot + 1);
                assert forall|p: int| 0 <= p < shape.first_voice() implies #[trigger] b[p]
                    == buf@[p] by {
                    assert(b[p] == before[p] && before[p] == buf@[p]);
                }
                assert forall|p: int| shape.term() <= p < b.len() implies #[trigger] b[p]
                    == buf@[p] by {
                    assert(b[p] == before[p] && before[p] == buf@[p]);
                }
                assert forall|p: int| next <= p < shape.term() implies #[trigger] buf@[p] == 0 by {
                    assert(before[p] == 0 && before[p] == buf@[p]);
                }
                assert forall|n: int, s: int|
                    (0 <= n < m && 0 <= s < max_voices) || (n == m && 0 <= s < slot
                        + 1) implies #[trigger] stamped(buf@, shape, n, s) by {
                    if n < m || s < slot {
                        assert(stamped(before, shape, n, s));
                        lemma_voice_apart(shape, n, s, m as int, slot as int);
                        shape.lemma_voice_off(n, s);
                        shape.lemma_front();
                        assert(shape.voice[n].num_outputs <= u32::MAX);
                        lemma_written_agree(
                            before,
                            buf@,
                            shape.voice_rec(n, s),
                            shape.voice[n].state@,
                            shape.block_size,
                            0,
                            off,
                        );
                    }
                }
            }
            slot = slot + 1;
        }
        proof {
            if max_voices > 0 {
                shape.lemma_voice_off(m as int, max_voices - 1);
            } else {
                assert(shape.stride(m as int) * 0 == 0);
            }
        }
        m = m + 1;
    }
}

/// A plan with a voice source: the shared (mono) records, then the per-voice region.
///
/// The per-voice region groups records **by module**: all `max_voices` copies of one voice
/// record sit contiguously, then the next module's, and so on. For `lfo -> tone` the layout is
/// `lfo_v0 lfo_v1 .. lfo_vN  tone_v0 tone_v1 .. tone_vN`.
///
/// The walk runs the shared records, then each module's voices in turn. A disabled voice's record
/// jumps to the next voice of the same module via its skip field, so disabling voice `k` writes
/// one skip per module. The source writes each active slot's source-output buffers before the
/// walk; the engine sums the active voices' outputs after it.
pub struct VoicedPlan {
    buf: Vec<u8>,
    block_size: usize,
    records_start: usize,
    shared_out_offsets: Vec<u32>,
    first_voice_off: usize,
    terminator_off: usize,
    source_out_base: usize,
    source_out_stride: usize,
    num_source_outputs: usize,
    places: VoicePlaces,
    max_voices: usize,
    shape: Ghost<VoicedShape>,
    enabled: Ghost<Seq<bool>>,
}

/// The buffer of a voiced plan that has just been laid out: every shared record runs, and every
/// voice is disabled, with its initial state, and silent.
pub open spec fn voices_laid_out(b: Seq<u8>, shape: VoicedShape) -> bool {
    &&& b.len() == shape.len()
    &&& word_at(b, 0) == shape.block_size
    &&& zeroed(b, zero_off(), shape.records_start())
    &&& holds(b, shape.recs(), shape.block_size, shape.term())
    &&& forall|i: int|
        0 <= i < shape.shared.len() ==> written(
            b,
            #[trigger] shape.shared_rec(i),
            shape.shared[i].state@,
            shape.block_size,
        ) && shape.shared_rec(i).params(b) == shape.shared[i].params@
    &&& forall|m: int, s: int|
        0 <= m < shape.voice.len() && 0 <= s < shape.max_voices ==> #[trigger] resting(
            b,
            shape,
            m,
            s,
        )
}

/// The buffer of a voiced plan, however often it has been walked: it holds the schedule, the
/// shared records and the enabled slots run, and the zero buffer is zero.
pub open spec fn scheduled(b: Seq<u8>, shape: VoicedShape, enabled: Seq<bool>) -> bool {
    &&& shape.plannable()
    &&& b.len() == shape.len()
    &&& holds(b, shape.recs(), shape.block_size, shape.term())
    &&& zeroed(b, zero_off(), shape.source_base())
    &&& forall|i: int|
        0 <= i < shape.shared.len() ==> (#[trigger] shape.shared_rec(i)).active(b)
    &&& enabled.len() == shape.max_voices
    &&& forall|m: int, s: int|
        0 <= m < shape.voice.len() && 0 <= s < shape.max_voices ==> #[trigger] runs(
            b,
            shape,
            m,
            s,
        ) == enabled[s]
}

/// The record of voice module `m` in slot `s` is disabled and fresh.
pub open spec fn resting(b: Seq<u8>, shape: VoicedShape, m: int, s: int) -> bool {
    let r = shape.voice_rec(m, s);
    &&& r.stored(b, shape.block_size)
    &&& !r.active(b)
    &&& r.state(b) == shape.voice[m].state@
    &&& r.params(b) == shape.voice[m].params@
    &&& zeroed(b, r.outputs_off(), r.end(shape.block_size))
}

/// Writes the skip words of voice `slot`.
fn write_skips(
    buf: &mut Vec<u8>,
    places: &VoicePlaces,
    slot: usize,
    active: bool,
    Ghost(shape): Ghost<VoicedShape>,
)
    requires
        shape.plannable(),
        old(buf).len() == shape.len(),
        places.placed(shape, shape.voice.len() as int),
        slot < shape.max_voices <= usize::MAX,
    ensures
        final(buf)@ == skips_set(
            old(buf)@,
            shape,
            slot as int,
            active,
            shape.voice.len() as int,
        ),
{
    let ghost b = buf@;
    let mut m: usize = 0;
    while m < places.base.len()
        invariant
            m <= places.base.len() == shape.voice.len(),
            shape.plannable(),
            b == old(buf)@,
            buf.len() == shape.len(),
            places.placed(shape, shape.voice.len() as int),
            slot < shape.max_voices <= usize::MAX,
            buf@ == skips_set(b, shape, slot as int, active, m as int),
        decreases places.base.len() - m,
    {
        proof {
            shape.lemma_term();
            shape.lemma_voice_off(m as int, slot as int);
        }
        let off: usize = places.at(m, slot, Ghost(shape));
        let skip: u32 = if active {
            0
        } else {
            places.at(m, slot + 1, Ghost(shape)) as u32
        };
        write_u32(buf, off, skip);
        m = m + 1;
    }
}

/// A stamped voice whose skip word has been set to a jump rests.
proof fn lemma_resting(b: Seq<u8>, c: Seq<u8>, shape: VoicedShape, m: int, s: int)
    requires
        shape.plannable(),
        b.len() == shape.len(),
        stamped(b, shape, m, s),
        shape.voice_rec(m, s).params(b) == shape.voice[m].params@,
        same_but_skips(b, c, shape),
        holds(c, shape.recs(), shape.block_size, shape.term()),
        !runs(c, shape, m, s),
        0 <= m < shape.voice.len(),
        0 <= s < shape.max_voices,
    ensures
        resting(c, shape, m, s),
{
    let r = shape.voice_rec(m, s);
    assert(same_body(b, c, shape, m, s));
    shape.lemma_front();
    shape.lemma_term();
    shape.lemma_index(m, s);
    shape.lemma_voice_off(m, s);
    shape.lemma_params(shape.shared.len() + m);
    lemma_parts(r, shape.block_size);
    assert(shape.recs()[shape.index(m, s)].stored(c, shape.block_size));
    assert(r.state(c) =~= r.state(b));
    assert(r.params(c) =~= r.params(b));
    assert forall|p: int| r.outputs_off() <= p < r.end(shape.block_size) implies #[trigger] c[p]
        == 0 by {
        assert(b[p] == 0 && b[p] == c[p]);
    }
}

impl VoicedPlan {
    /// The plan buffer.
    pub closed spec fn bytes(&self) -> Seq<u8> {
        self.buf@
    }

    /// What the plan was laid out from.
    pub closed spec fn shape(&self) -> VoicedShape {
        self.shape@
    }

    /// Which slots the walk runs.
    pub closed spec fn enabled(&self) -> Seq<bool> {
        self.enabled@
    }

    /// The buffer holds the schedule, the shared records and the enabled slots run, and the zero
    /// buffer is zero.
    pub closed spec fn wf(&self) -> bool {
        let shape = self.shape@;
        &&& shape.plannable()
        &&& self.buf.len() == shape.len()
        &&& holds(self.buf@, shape.recs(), shape.block_size, shape.term())
        &&& zeroed(self.buf@, zero_off(), shape.source_base())
        &&& forall|i: int|
            0 <= i < shape.shared.len() ==> (#[trigger] shape.shared_rec(i)).active(self.buf@)
        &&& self.enabled@.len() == shape.max_voices
        &&& forall|m: int, s: int|
            0 <= m < shape.voice.len() && 0 <= s < shape.max_voices ==> #[trigger] runs(
                self.buf@,
                shape,
                m,
                s,
            ) == self.enabled@[s]
        &&& self.placed()
    }

    /// What a well-formed plan holds.
    pub proof fn lemma_wf(&self)
        requires
            self.wf(),
        ensures
            scheduled(self.bytes(), self.shape(), self.enabled()),
    {
    }

    /// The fields agree with the shape.
    spec fn placed(&self) -> bool {
        let shape = self.shape@;
        &&& self.block_size == shape.block_size
        &&& self.records_start == shape.records_start()
        &&& self.shared_out_offsets.len() == shape.shared.len()
        &&& forall|i: int|
            0 <= i < shape.shared.len() ==> #[trigger] self.shared_out_offsets@[i] == port_off(
                shape.records_start(),
                shape.block_size,
                shape.shared,
                i,
                0,
            )
        &&& self.first_voice_off == shape.first_voice()
        &&& self.terminator_off == shape.term()
        &&& self.source_out_base == shape.source_base()
        &&& self.source_out_stride == shape.source_stride()
        &&& self.num_source_outputs == shape.num_source_outputs
        &&& self.places.placed(shape, shape.voice.len() as int)
        &&& self.max_voices == shape.max_voices
    }

    /// Lay out the shared records, the per-voice slot template, and `max_voices` slots.
    /// All slots start **disabled** (no voices playing); the engine enables them on allocate.
    pub fn build(
        block_size: usize,
        shared: &[RecordSpec],
        num_source_outputs: usize,
        voice: &[VoiceRecordSpec],
        max_voices: usize,
    ) -> (plan: VoicedPlan)
        requires
            (VoicedShape {
                block_size: block_size as int,
                shared: shared@,
                num_source_outputs: num_source_outputs as int,
                voice: voice@,
                max_voices: max_voices as int,
            }).plannable(),
        ensures
            plan.wf(),
            plan.shape() == (VoicedShape {
                block_size: block_size as int,
                shared: shared@,
                num_source_outputs: num_source_outputs as int,
                voice: voice@,
                max_voices: max_voices as int,
            }),
            plan.enabled() == Seq::new(max_voices as nat, |s: int| false),
            voices_laid_out(plan.bytes(), plan.shape()),
    {
        let ghost shape = VoicedShape {
            block_size: block_size as int,
            shared: shared@,
            num_source_outputs: num_source_outputs as int,
            voice: voice@,
            max_voices: max_voices as int,
        };
        let ghost bs = block_size as int;
        let ghost n = shared@.len() as int;
        proof {
            shape.lemma_front();
            shape.lemma_term();
            lemma_bufs_len(0, num_source_outputs as int, bs);
            lemma_slots(shape.source_stride(), shape.max_voices, 0);
        }
        let zero: usize = align_up(4, BUF_ALIGN);
        // Per-slot source-output buffers, kept outside the walk path (written by the source,
        // never read as a record), so the walk flows from shared records to voice slots.
        let source_out_base: usize = align_up(zero + block_size * SAMPLE, BUF_ALIGN);
        let source_out_stride: usize = align_up(num_source_outputs * block_size * SAMPLE, BUF_ALIGN);
        let records_start: usize = source_out_base + source_out_stride * max_voices;
        let (offs, shared_out_offsets, first_voice_off) = place_records(
            records_start,
            block_size,
            shared,
        );
        let (places, terminator_off) = place_voices(
            first_voice_off,
            block_size,
            voice,
            max_voices,
            Ghost(shape),
        );
        let params_base: usize = align_up(terminator_off + 4, RECORD_ALIGN);
        let blocks = all_param_blocks(shared, voice, Ghost(shape));
        let (params_offs, size) = place_params(params_base, &blocks, Ghost(shape.lens()));

        let mut buf: Vec<u8> = vec![0u8;size];
        let ghost blank = buf@;
        store_u32(&mut buf, 0, block_size as u32);
        let ghost b0 = buf@;
        proof {
            assert forall|p: int| 4 <= p < size implies #[trigger] b0[p] == 0 by {
                assert(blank[p] == 0 && blank[p] == b0[p]);
            }
            assert forall|k: int| 0 <= k < shared.len() implies #[trigger] params_offs@[k]
                + shared@[k].params@.len() <= u32::MAX by {
                shape.lemma_params(k);
            }
        }
        write_records(
            &mut buf,
            records_start,
            block_size,
            shared,
            &offs,
            &shared_out_offsets,
            &params_offs,
        );
        let ghost b1 = buf@;
        proof {
            assert forall|p: int| first_voice_off <= p < size implies #[trigger] b1[p] == 0 by {
                assert(b0[p] == b1[p]);
            }
        }
        stamp_voices(
            &mut buf,
            voice,
            max_voices,
            &shared_out_offsets,
            &places,
            &params_offs,
            source_out_base,
            source_out_stride,
            block_size,
            Ghost(shape),
        );
        let ghost b2 = buf@;
        store_u32(&mut buf, terminator_off, TERMINATOR);
        let ghost b3 = buf@;
        write_params(&mut buf, params_base, &blocks, &params_offs, Ghost(shape.lens()));
        let ghost b4 = buf@;
        proof {
            assert forall|i: int| 0 <= i < n implies written(
                b1,
                #[trigger] shape.shared_rec(i),
                shared@[i].state@,
                bs,
            ) by {
                assert(params_offs@[i] == shape.params_off(i));
            }
            lemma_built(
                b0,
                b1,
                b2,
                b3,
                b4,
                shape,
                params_base as int,
            );
            assert forall|i: int| 0 <= i < n implies (#[trigger] shape.shared_rec(i)).params(b4)
                == shared@[i].params@ by {
                assert(params_offs@[i] == shape.params_off(i));
                assert(blocks@[i]@ == shared@[i].params@);
                assert(shape.lens()[i] == shared@[i].params@.len());
            }
            assert forall|m: int, s: int|
                0 <= m < voice@.len() && 0 <= s < max_voices implies (#[trigger] shape.voice_rec(
                m,
                s,
            )).params(b4) == voice@[m].params@ by {
                assert(params_offs@[n + m] == shape.params_off(n + m));
                assert(blocks@[n + m]@ == voice@[m].params@);
                assert(shape.lens()[n + m] == voice@[m].params@.len());
            }
        }
        let mut slot: usize = 0;
        while slot < max_voices
            invariant
                slot <= max_voices,
                shape.plannable(),
                shape.max_voices == max_voices,
                places.placed(shape, shape.voice.len() as int),
                b4.len() == shape.len(),
                same_but_skips(b4, buf@, shape),
                holds(buf@, shape.recs(), shape.block_size, shape.term()),
                forall|m: int, s: int|
                    0 <= m < shape.voice.len() && 0 <= s < slot ==> !#[trigger] runs(
                        buf@,
                        shape,
                        m,
                        s,
                    ),
            decreases max_voices - slot,
        {
            let ghost before = buf@;
            proof {
                lemma_skips(before, shape, slot as int, false, shape.voice.len() as int);
            }
            write_skips(&mut buf, &places, slot, false, Ghost(shape));
            proof {
                lemma_same_but_skips(b4, before, buf@, shape);
                assert forall|m: int, s: int|
                    0 <= m < shape.voice.len() && 0 <= s < slot + 1 implies !#[trigger] runs(
                    buf@,
                    shape,
                    m,
                    s,
                ) by {
                    if s < slot {
                        assert(!runs(before, shape, m, s));
                    }
                }
            }
            slot = slot + 1;
        }
        let ghost b5 = buf@;
        proof {
            assert forall|m: int, s: int|
                0 <= m < shape.voice.len() && 0 <= s < shape.max_voices implies #[trigger] resting(
                b5,
                shape,
                m,
                s,
            ) by {
                assert(stamped(b4, shape, m, s));
                assert(!runs(b5, shape, m, s));
                lemma_resting(b4, b5, shape, m, s);
            }
            lemma_shared_kept(b4, b5, shape);
        }
        VoicedPlan {
            buf,
            block_size,
            records_start,
            shared_out_offsets,
            first_voice_off,
            terminator_off,
            source_out_base,
            source_out_stride,
            num_source_outputs,
            places,
            max_voices,
            shape: Ghost(shape),
            enabled: Ghost(Seq::new(max_voices as nat, |s: int| false)),
        }
    }
}

/// The parameter blocks of the shared records, then those of the voice modules.
fn all_param_blocks<'a>(
    shared: &'a [RecordSpec],
    voice: &'a [VoiceRecordSpec],
    Ghost(shape): Ghost<VoicedShape>,
) -> (blocks: Vec<&'a Vec<u8>>)
    requires
        shape.shared == shared@,
        shape.voice == voice@,
    ensures
        measured(blocks@, shape.lens()),
        forall|i: int| 0 <= i < shared@.len() ==> *(#[trigger] blocks@[i]) == shared@[i].params,
        forall|m: int|
            0 <= m < voice@.len() ==> *blocks@[shared@.len() + m] == (#[trigger] voice@[m]).params,
{
    let mut blocks = param_blocks(shared);
    let mut m: usize = 0;
    let ghost n = shared@.len() as int;
    while m < voice.len()
        invariant
            m <= voice.len(),
            n == shared@.len(),
            blocks@.len() == n + m,
            forall|i: int| 0 <= i < n ==> *(#[trigger] blocks@[i]) == shared@[i].params,
            forall|i: int| n <= i < n + m ==> *(#[trigger] blocks@[i]) == voice@[i - n].params,
        decreases voice.len() - m,
    {
        blocks.push(&voice[m].params);
        m = m + 1;
    }
    proof {
        assert forall|i: int| 0 <= i < blocks@.len() implies (#[trigger] blocks@[i])@.len()
            == shape.lens()[i] by {
            if i >= n {
                assert(*blocks@[i] == voice@[i - n].params);
            }
        }
    }
    blocks
}

/// What the steps of laying a plan out add up to.
proof fn lemma_built(
    b0: Seq<u8>,
    b1: Seq<u8>,
    b2: Seq<u8>,
    b3: Seq<u8>,
    b4: Seq<u8>,
    shape: VoicedShape,
    params_base: int,
)
    requires
        shape.plannable(),
        b0.len() == shape.len(),
        b1.len() == shape.len(),
        b2.len() == shape.len(),
        b3.len() == shape.len(),
        b4.len() == shape.len(),
        word_at(b0, 0) == shape.block_size,
        zeroed(b0, 4, shape.len()),
        agree(b0, b1, 0, shape.records_start()),
        agree(b1, b2, 0, shape.first_voice()),
        agree(b2, b3, 0, shape.term()),
        word_at(b3, shape.term()) == TERMINATOR,
        agree(b3, b4, 0, params_base),
        shape.term() + 4 <= params_base,
        forall|i: int|
            0 <= i < shape.shared.len() ==> written(
                b1,
                #[trigger] shape.shared_rec(i),
                shape.shared[i].state@,
                shape.block_size,
            ),
        forall|m: int, s: int|
            0 <= m < shape.voice.len() && 0 <= s < shape.max_voices ==> #[trigger] stamped(
                b2,
                shape,
                m,
                s,
            ),
    ensures
        word_at(b4, 0) == shape.block_size,
        zeroed(b4, zero_off(), shape.records_start()),
        holds(b4, shape.recs(), shape.block_size, shape.term()),
        forall|i: int|
            0 <= i < shape.shared.len() ==> written(
                b4,
                #[trigger] shape.shared_rec(i),
                shape.shared[i].state@,
                shape.block_size,
            ),
        forall|m: int, s: int|
            0 <= m < shape.voice.len() && 0 <= s < shape.max_voices ==> #[trigger] stamped(
                b4,
                shape,
                m,
                s,
            ),
{
    let bs = shape.block_size;
    let start = shape.records_start();
    let n = shape.shared.len() as int;
    shape.lemma_front();
    shape.lemma_term();
    shape.lemma_schedule();
    let recs = shape.recs();
    assert forall|p: int| 0 <= p < start implies #[trigger] b0[p] == b4[p] by {
        assert(b0[p] == b1[p] && b1[p] == b2[p] && b2[p] == b3[p] && b3[p] == b4[p]);
    }
    lemma_word_agree(b0, b4, 0, start, 0);
    assert forall|p: int| zero_off() <= p < start implies #[trigger] b4[p] == 0 by {
        assert(b0[p] == b4[p]);
    }
    assert forall|p: int| 0 <= p < shape.first_voice() implies #[trigger] b1[p] == b4[p] by {
        assert(b1[p] == b2[p] && b2[p] == b3[p] && b3[p] == b4[p]);
    }
    assert forall|p: int| 0 <= p < shape.term() implies #[trigger] b2[p] == b4[p] by {
        assert(b2[p] == b3[p] && b3[p] == b4[p]);
    }
    lemma_word_agree(b3, b4, 0, params_base, shape.term());
    assert forall|i: int| 0 <= i < n implies written(
        b4,
        #[trigger] shape.shared_rec(i),
        shape.shared[i].state@,
        bs,
    ) by {
        let r = shape.shared_rec(i);
        assert(recs[i] == r);
        assert(r.fits(bs, shape.term()));
        reveal(spec_end);
        lemma_rec_off(start, bs, shape.shared, i, n);
        assert(r.end(bs) == spec_end(r.off, shape.shared[i], bs));
        lemma_written_agree(b1, b4, r, shape.shared[i].state@, bs, 0, shape.first_voice());
    }
    assert forall|m: int, s: int|
        0 <= m < shape.voice.len() && 0 <= s < shape.max_voices implies #[trigger] stamped(
        b4,
        shape,
        m,
        s,
    ) by {
        let r = shape.voice_rec(m, s);
        shape.lemma_index(m, s);
        shape.lemma_voice_off(m, s);
        assert(recs[shape.index(m, s)].fits(bs, shape.term()));
        assert(stamped(b2, shape, m, s));
        lemma_written_agree(b2, b4, r, shape.voice[m].state@, bs, 0, shape.term());
    }
    assert forall|j: int| 0 <= j < recs.len() implies (#[trigger] recs[j]).stored(b4, bs) by {
        if j < n {
            assert(recs[j] == shape.shared_rec(j));
        } else {
            shape.lemma_index_of(j);
            assert(stamped(b4, shape, shape.module_of(j), shape.slot_of(j)));
        }
    }
}

/// The shared records do not mind the skip words of the voices.
proof fn lemma_shared_kept(b: Seq<u8>, c: Seq<u8>, shape: VoicedShape)
    requires
        shape.plannable(),
        b.len() == shape.len(),
        word_at(b, 0) == shape.block_size,
        zeroed(b, zero_off(), shape.records_start()),
        same_but_skips(b, c, shape),
        forall|i: int|
            0 <= i < shape.shared.len() ==> written(
                b,
                #[trigger] shape.shared_rec(i),
                shape.shared[i].state@,
                shape.block_size,
            ) && shape.shared_rec(i).params(b) == shape.shared[i].params@,
    ensures
        word_at(c, 0) == shape.block_size,
        zeroed(c, zero_off(), shape.records_start()),
        forall|i: int|
            0 <= i < shape.shared.len() ==> written(
                c,
                #[trigger] shape.shared_rec(i),
                shape.shared[i].state@,
                shape.block_size,
            ) && shape.shared_rec(i).params(c) == shape.shared[i].params@,
{
    let bs = shape.block_size;
    let start = shape.records_start();
    let n = shape.shared.len() as int;
    let recs = shape.recs();
    shape.lemma_front();
    shape.lemma_term();
    shape.lemma_schedule();
    lemma_word_agree(b, c, 0, shape.first_voice(), 0);
    assert forall|p: int| zero_off() <= p < start implies #[trigger] c[p] == 0 by {
        assert(b[p] == c[p]);
    }
    assert forall|i: int| 0 <= i < n implies written(
        c,
        #[trigger] shape.shared_rec(i),
        shape.shared[i].state@,
        bs,
    ) && shape.shared_rec(i).params(c) == shape.shared[i].params@ by {
        let r = shape.shared_rec(i);
        assert(recs[i] == r);
        assert(r.fits(bs, shape.term()));
        reveal(spec_end);
        lemma_rec_off(start, bs, shape.shared, i, n);
        assert(r.end(bs) == spec_end(r.off, shape.shared[i], bs));
        lemma_written_agree(b, c, r, shape.shared[i].state@, bs, 0, shape.first_voice());
        shape.lemma_params(i);
        assert(r.params(c) =~= r.params(b));
    }
}

/// The `j`-th record of the walk runs and reports that it is still producing output.
pub open spec fn sounds<P: ProcessFn>(
    b: Seq<u8>,
    recs: Seq<Rec>,
    fns: Seq<P>,
    tick: TickCtx,
    j: int,
) -> bool {
    let at = after_walk(b, recs, fns, tick, j);
    recs[j].active(at) && outcome_of(at, recs[j], fns, tick).tail == Tail::Active
}

/// Some record of voice `slot` among the first `n` of the walk reports `Tail::Active`.
pub open spec fn kept_alive<P: ProcessFn>(
    b: Seq<u8>,
    shape: VoicedShape,
    fns: Seq<P>,
    tick: TickCtx,
    slot: int,
    n: int,
) -> bool {
    exists|m: int|
        0 <= m < shape.voice.len() && #[trigger] shape.index(m, slot) < n && sounds(
            b,
            shape.recs(),
            fns,
            tick,
            shape.index(m, slot),
        )
}

/// A record lies in the block of its own module and behind those before.
proof fn lemma_block(shape: VoicedShape, k: int, m: int, s: int)
    requires
        shape.plannable(),
        0 <= k <= m < shape.voice.len(),
        0 <= s < shape.max_voices,
    ensures
        0 < shape.stride(k),
        0 <= shape.stride(k) * shape.max_voices,
        0 <= shape.voice_base(k),
        shape.voice_base(k) + shape.stride(k) * shape.max_voices <= u32::MAX,
        k < m ==> shape.voice_base(k) + shape.stride(k) * shape.max_voices <= shape.voice_off(m, s),
        k == m ==> shape.voice_base(k) <= shape.voice_off(m, s) < shape.voice_base(k)
            + shape.stride(k) * shape.max_voices,
        k == m ==> (shape.voice_off(m, s) - shape.voice_base(k)) / shape.stride(k) == s,
{
    let stride = shape.stride(k);
    assert(0 < stride && 0 <= shape.voice_base(k) && shape.voice_base(k) + stride * shape.max_voices
        <= u32::MAX) by {
        shape.lemma_front();
        shape.lemma_term();
        shape.lemma_voice_off(k, 0);
    }
    assert(0 <= stride * shape.max_voices) by (nonlinear_arith)
        requires
            0 < stride,
            0 <= shape.max_voices,
    ;
    if k < m {
        shape.lemma_voice_base(k, m);
        shape.lemma_voice_off(m, s);
    } else {
        shape.lemma_voice_off(m, s);
        vstd::arithmetic::div_mod::lemma_fundamental_div_mod_converse(s * stride, stride, s, 0);
    }
}

/// Bytes outside the records may change without the schedule minding.
proof fn lemma_front_write(b: Seq<u8>, c: Seq<u8>, shape: VoicedShape)
    requires
        shape.plannable(),
        b.len() == shape.len(),
        c.len() == b.len(),
        agree(b, c, shape.records_start(), b.len() as int),
        holds(b, shape.recs(), shape.block_size, shape.term()),
    ensures
        holds(c, shape.recs(), shape.block_size, shape.term()),
        forall|j: int|
            0 <= j < shape.num_recs() ==> word_at(c, #[trigger] shape.recs()[j].off) == word_at(
                b,
                shape.recs()[j].off,
            ),
{
    let bs = shape.block_size;
    let start = shape.records_start();
    let term = shape.term();
    let recs = shape.recs();
    let len = b.len() as int;
    shape.lemma_schedule();
    shape.lemma_front();
    shape.lemma_term();
    lemma_word_agree(b, c, start, len, term);
    assert forall|j: int| 0 <= j < recs.len() implies (#[trigger] recs[j]).stored(c, bs) && word_at(
        c,
        recs[j].off,
    ) == word_at(b, recs[j].off) by {
        lemma_in_order(recs, bs, start, term, len, j, recs.len() as int);
        lemma_parts(recs[j], bs);
        lemma_header_agree(b, c, recs[j], bs, start, len);
    }
}

/// The state bytes of a voice record may change without the schedule minding.
proof fn lemma_state_write(b: Seq<u8>, c: Seq<u8>, shape: VoicedShape, m: int, s: int)
    requires
        shape.plannable(),
        b.len() == shape.len(),
        c.len() == b.len(),
        0 <= m < shape.voice.len(),
        0 <= s < shape.max_voices,
        agree(b, c, 0, shape.voice_rec(m, s).state_off()),
        agree(
            b,
            c,
            shape.voice_rec(m, s).state_off() + shape.voice_rec(m, s).state_len,
            b.len() as int,
        ),
        holds(b, shape.recs(), shape.block_size, shape.term()),
    ensures
        holds(c, shape.recs(), shape.block_size, shape.term()),
        forall|j: int|
            0 <= j < shape.num_recs() ==> word_at(c, #[trigger] shape.recs()[j].off) == word_at(
                b,
                shape.recs()[j].off,
            ),
{
    let bs = shape.block_size;
    let start = shape.records_start();
    let term = shape.term();
    let recs = shape.recs();
    let len = b.len() as int;
    let k = shape.index(m, s);
    let r = shape.voice_rec(m, s);
    shape.lemma_schedule();
    shape.lemma_front();
    shape.lemma_term();
    shape.lemma_index(m, s);
    shape.lemma_voice_off(m, s);
    lemma_parts(r, bs);
    assert(recs[k].fits(bs, term));
    let lo = r.state_off() + r.state_len;
    lemma_word_agree(b, c, lo, len, term);
    assert forall|j: int| 0 <= j < recs.len() implies (#[trigger] recs[j]).stored(c, bs) && word_at(
        c,
        recs[j].off,
    ) == word_at(b, recs[j].off) by {
        let q = recs[j];
        lemma_parts(q, bs);
        if j < k {
            lemma_in_order(recs, bs, start, term, len, j, k);
            lemma_header_agree(b, c, q, bs, 0, r.state_off());
        } else if k < j {
            lemma_in_order(recs, bs, start, term, len, k, j);
            lemma_header_agree(b, c, q, bs, lo, len);
        } else {
            lemma_word_agree(b, c, 0, r.state_off(), r.off);
            lemma_word_agree(b, c, 0, r.state_off(), r.off + 4);
            lemma_word_agree(b, c, 0, r.state_off(), r.off + 8);
            lemma_word_agree(b, c, 0, r.state_off(), r.off + 12);
            lemma_word_agree(b, c, 0, r.state_off(), r.off + 16);
            lemma_word_agree(b, c, 0, r.state_off(), r.off + 20);
            lemma_word_agree(b, c, 0, r.state_off(), r.off + 24);
            lemma_words_agree(b, c, lo, len, r.inputs_off(), r.inputs.len() as int);
        }
    }
}

/// Records whose skip words are unchanged run as before.
proof fn lemma_same_runs(b: Seq<u8>, c: Seq<u8>, shape: VoicedShape)
    requires
        forall|j: int|
            0 <= j < shape.num_recs() ==> word_at(c, #[trigger] shape.recs()[j].off) == word_at(
                b,
                shape.recs()[j].off,
            ),
        0 <= shape.max_voices,
    ensures
        forall|i: int|
            0 <= i < shape.shared.len() ==> (#[trigger] shape.shared_rec(i)).active(c)
                == shape.shared_rec(i).active(b),
        forall|m: int, s: int|
            0 <= m < shape.voice.len() && 0 <= s < shape.max_voices ==> #[trigger] runs(
                c,
                shape,
                m,
                s,
            ) == runs(b, shape, m, s),
{
    let recs = shape.recs();
    assert(0 <= shape.voice.len() * shape.max_voices) by (nonlinear_arith)
        requires
            0 <= shape.voice.len(),
            0 <= shape.max_voices,
    ;
    assert forall|i: int| 0 <= i < shape.shared.len() implies (#[trigger] shape.shared_rec(
        i,
    )).active(c) == shape.shared_rec(i).active(b) by {
        assert(recs[i] == shape.shared_rec(i));
        assert(word_at(c, recs[i].off) == word_at(b, recs[i].off));
    }
    assert forall|m: int, s: int|
        0 <= m < shape.voice.len() && 0 <= s < shape.max_voices implies #[trigger] runs(
        c,
        shape,
        m,
        s,
    ) == runs(b, shape, m, s) by {
        shape.lemma_index(m, s);
        assert(word_at(c, recs[shape.index(m, s)].off) == word_at(b, recs[shape.index(m, s)].off));
    }
}

impl VoicedPlan {
    /// The block size that the plan was built for.
    pub fn block_size(&self) -> (n: usize)
        requires
            self.wf(),
        ensures
            n == self.shape().block_size,
    {
        self.block_size
    }

    /// The number of slots.
    pub fn max_voices(&self) -> (n: usize)
        requires
            self.wf(),
        ensures
            n == self.shape().max_voices,
    {
        self.max_voices
    }

    /// Enable (skip = 0) or disable (skip = jump to the same module's next voice) voice `slot`.
    /// A voice spans one record per module, so toggling it writes one skip per module.
    pub fn set_slot_active(&mut self, slot: usize, active: bool)
        requires
            old(self).wf(),
            slot < old(self).shape().max_voices,
        ensures
            final(self).wf(),
            final(self).shape() == old(self).shape(),
            final(self).enabled() == old(self).enabled().update(slot as int, active),
            final(self).bytes() == skips_set(
                old(self).bytes(),
                old(self).shape(),
                slot as int,
                active,
                old(self).shape().voice.len() as int,
            ),
    {
        let ghost shape = self.shape@;
        let ghost b = self.buf@;
        proof {
            lemma_skips(b, shape, slot as int, active, shape.voice.len() as int);
            shape.lemma_schedule();
            shape.lemma_front();
        }
        write_skips(&mut self.buf, &self.places, slot, active, Ghost(shape));
        self.enabled = Ghost(self.enabled@.update(slot as int, active));
        proof {
            let c = self.buf@;
            let recs = shape.recs();
            assert forall|p: int| zero_off() <= p < shape.source_base() implies #[trigger] c[p]
                == 0 by {
                assert(b[p] == 0 && b[p] == c[p]);
            }
            assert forall|i: int| 0 <= i < shape.shared.len() implies (#[trigger] shape.shared_rec(
                i,
            )).active(c) by {
                reveal(spec_end);
                let r = shape.shared_rec(i);
                lemma_rec_off(
                    shape.records_start(),
                    shape.block_size,
                    shape.shared,
                    i,
                    shape.shared.len() as int,
                );
                assert(r.end(shape.block_size) == spec_end(r.off, shape.shared[i], shape.block_size));
                lemma_parts(r, shape.block_size);
                lemma_word_agree(b, c, 0, shape.first_voice(), r.off);
            }
        }
    }

    /// A shared record's output buffer.
    pub fn shared_output(&self, record: usize, port: usize, frames: usize) -> (buf: Vec<u32>)
        requires
            self.wf(),
            record < self.shape().shared.len(),
            port < self.shape().shared[record as int].num_outputs,
            frames <= self.shape().block_size,
        ensures
            buf@ == self.shape().shared_rec(record as int).output(
                self.bytes(),
                port as int,
                self.shape().block_size,
                frames as int,
            ),
    {
        let ghost shape = self.shape@;
        proof {
            let r = shape.recs()[record as int];
            shape.lemma_schedule();
            shape.lemma_term();
            assert(0 <= shape.voice.len() * shape.max_voices) by (nonlinear_arith)
                requires
                    0 <= shape.voice.len(),
                    0 <= shape.max_voices,
            ;
            assert(r == shape.shared_rec(record as int));
            assert(r.fits(shape.block_size, shape.term()));
            lemma_parts(r, shape.block_size);
            lemma_bufs_len(port as int, r.num_outputs, shape.block_size);
            lemma_bufs_len(port + 1, r.num_outputs, shape.block_size);
            assert(self.shared_out_offsets@[record as int] == port_off(
                shape.records_start(),
                shape.block_size,
                shape.shared,
                record as int,
                0,
            ));
        }
        let off: usize = self.shared_out_offsets[record] as usize + port * self.block_size * SAMPLE;
        self.slice_at(off, frames)
    }

    /// A per-voice record's output buffer in voice `slot`.
    pub fn voice_output(&self, slot: usize, record: usize, port: usize, frames: usize) -> (buf: Vec<
        u32,
    >)
        requires
            self.wf(),
            slot < self.shape().max_voices,
            record < self.shape().voice.len(),
            port < self.shape().voice[record as int].num_outputs,
            frames <= self.shape().block_size,
        ensures
            buf@ == self.shape().voice_rec(record as int, slot as int).output(
                self.bytes(),
                port as int,
                self.shape().block_size,
                frames as int,
            ),
    {
        let ghost shape = self.shape@;
        proof {
            let r = shape.voice_rec(record as int, slot as int);
            shape.lemma_front();
            shape.lemma_term();
            shape.lemma_voice_off(record as int, slot as int);
            lemma_parts(r, shape.block_size);
            lemma_bufs_len(port as int, r.num_outputs, shape.block_size);
            lemma_bufs_len(port + 1, r.num_outputs, shape.block_size);
            assert(r.output_off(port as int, shape.block_size) == shape.voice_port_off(
                record as int,
                slot as int,
                port as int,
            ));
            assert(self.places.fits(shape, record as int));
        }
        let off: usize = self.places.at(record, slot, Ghost(shape))
            + self.places.out_within[record] as usize + port * self.block_size * SAMPLE;
        self.slice_at(off, frames)
    }

    fn slice_at(&self, off: usize, frames: usize) -> (buf: Vec<u32>)
        requires
            off + 4 * frames <= self.buf.len(),
        ensures
            buf@ == words(self.buf@, off as int, frames as int),
    {
        read_words(&self.buf, off, frames)
    }

    /// Offset of source-output buffer `port` of slot `slot`.
    fn source_at(&self, slot: usize, port: usize) -> (off: usize)
        requires
            self.wf(),
            slot < self.shape().max_voices,
            port < self.shape().num_source_outputs,
        ensures
            off == self.shape().source_off(slot as int, port as int),
            self.shape().source_base() <= off,
            off + 4 * self.shape().block_size <= self.shape().records_start() <= self.buf.len(),
    {
        let ghost shape = self.shape@;
        proof {
            shape.lemma_source_off(slot as int, port as int);
            shape.lemma_front();
            shape.lemma_term();
            lemma_slots(shape.source_stride(), shape.max_voices, slot as int);
            lemma_bufs_len(0, port as int, shape.block_size);
        }
        self.source_out_base + slot * self.source_out_stride + port * self.block_size * SAMPLE
    }

    /// Writes slot `slot`'s source-output buffer for `port` (the source does so before the walk).
    pub fn source_output_mut(&mut self, slot: usize, port: usize, samples: &Vec<u32>)
        requires
            old(self).wf(),
            slot < old(self).shape().max_voices,
            port < old(self).shape().num_source_outputs,
            samples.len() <= old(self).shape().block_size,
        ensures
            final(self).wf(),
            final(self).shape() == old(self).shape(),
            final(self).enabled() == old(self).enabled(),
            final(self).bytes() == put_words(
                old(self).bytes(),
                old(self).shape().source_off(slot as int, port as int),
                samples@,
            ),
    {
        let ghost shape = self.shape@;
        let ghost b = self.buf@;
        let off: usize = self.source_at(slot, port);
        write_words(&mut self.buf, off, samples, samples.len());
        proof {
            assert(samples@.take(samples.len() as int) =~= samples@);
            lemma_front_write(b, self.buf@, shape);
            lemma_same_runs(b, self.buf@, shape);
        }
    }

    /// Overwrite a slot's voice-record state with fresh bytes (on voice spawn). `state.len()`
    /// must match the record's state size.
    pub fn set_voice_state(&mut self, slot: usize, record: usize, state: &Vec<u8>)
        requires
            old(self).wf(),
            slot < old(self).shape().max_voices,
            record < old(self).shape().voice.len(),
            state@.len() == old(self).shape().voice[record as int].state@.len(),
        ensures
            final(self).wf(),
            final(self).shape() == old(self).shape(),
            final(self).enabled() == old(self).enabled(),
            final(self).bytes() == put_bytes(
                old(self).bytes(),
                old(self).shape().voice_rec(record as int, slot as int).state_off(),
                state@,
            ),
    {
        let ghost shape = self.shape@;
        let ghost b = self.buf@;
        proof {
            let r = shape.voice_rec(record as int, slot as int);
            shape.lemma_front();
            shape.lemma_term();
            shape.lemma_voice_off(record as int, slot as int);
            lemma_parts(r, shape.block_size);
            assert(self.places.fits(shape, record as int));
        }
        let off: usize = self.places.at(record, slot, Ghost(shape))
            + self.places.state_within[record] as usize;
        write_bytes(&mut self.buf, off, state, state.len());
        proof {
            assert(state@.take(state.len() as int) =~= state@);
            lemma_state_write(b, self.buf@, shape, record as int, slot as int);
            lemma_same_runs(b, self.buf@, shape);
        }
    }

    /// Zero a slot's source-output buffers (on spawn, before the source writes).
    pub fn clear_source_outputs(&mut self, slot: usize, frames: usize)
        requires
            old(self).wf(),
            slot < old(self).shape().max_voices,
            frames <= old(self).shape().block_size,
        ensures
            final(self).wf(),
            final(self).shape() == old(self).shape(),
            final(self).enabled() == old(self).enabled(),
            final(self).bytes() == silenced(
                old(self).bytes(),
                old(self).shape(),
                slot as int,
                frames as int,
                old(self).shape().num_source_outputs,
            ),
    {
        let ghost shape = self.shape@;
        let ghost enabled = self.enabled@;
        let ghost start = self.buf@;
        let mut port: usize = 0;
        while port < self.num_source_outputs
            invariant
                port <= self.num_source_outputs,
                self.num_source_outputs == shape.num_source_outputs,
                self.wf(),
                self.shape@ == shape,
                self.enabled@ == enabled,
                slot < shape.max_voices,
                frames <= shape.block_size,
                self.buf@ == silenced(start, shape, slot as int, frames as int, port as int),
            decreases self.num_source_outputs - port,
        {
            let ghost b = self.buf@;
            let off: usize = self.source_at(slot, port);
            fill_words(&mut self.buf, off, frames, 0);
            proof {
                lemma_front_write(b, self.buf@, shape);
                lemma_same_runs(b, self.buf@, shape);
            }
            port = port + 1;
        }
    }

    /// The voice whose record stands at `off`.
    fn slot_at(&self, off: usize, Ghost(m): Ghost<int>, Ghost(s): Ghost<int>) -> (slot: usize)
        requires
            self.wf(),
            0 <= m < self.shape().voice.len(),
            0 <= s < self.shape().max_voices,
            off == self.shape().voice_off(m, s),
        ensures
            slot == s,
    {
        let ghost shape = self.shape@;
        let mut k: usize = 0;
        while k < self.places.base.len()
            invariant
                self.wf(),
                self.shape@ == shape,
                k <= self.places.base.len() == shape.voice.len(),
                0 <= m < shape.voice.len(),
                0 <= s < shape.max_voices,
                off == shape.voice_off(m, s),
                k <= m,
            decreases self.places.base.len() - k,
        {
            proof {
                assert(self.places.fits(shape, k as int));
                lemma_block(shape, k as int, m, s);
            }
            let base: usize = self.places.base[k];
            let span: usize = self.places.stride[k] * self.max_voices;
            if off >= base && off < base + span {
                return (off - base) / self.places.stride[k];
            }
            k = k + 1;
        }
        0
    }
}

/// One more record of the walk.
proof fn lemma_kept_alive_step<P: ProcessFn>(
    b: Seq<u8>,
    shape: VoicedShape,
    fns: Seq<P>,
    tick: TickCtx,
    slot: int,
    j: int,
)
    requires
        0 <= shape.max_voices,
        0 <= j < shape.num_recs(),
        0 <= slot < shape.max_voices,
    ensures
        kept_alive(b, shape, fns, tick, slot, j + 1) == (kept_alive(b, shape, fns, tick, slot, j) || (
        shape.shared.len() <= j && shape.slot_of(j) == slot && sounds(
            b,
            shape.recs(),
            fns,
            tick,
            j,
        ))),
{
    if kept_alive(b, shape, fns, tick, slot, j + 1) {
        let m = choose|m: int|
            0 <= m < shape.voice.len() && #[trigger] shape.index(m, slot) < j + 1 && sounds(
                b,
                shape.recs(),
                fns,
                tick,
                shape.index(m, slot),
            );
        shape.lemma_index(m, slot);
        if shape.index(m, slot) < j {
            assert(kept_alive(b, shape, fns, tick, slot, j));
        }
    }
    if kept_alive(b, shape, fns, tick, slot, j) {
        let m = choose|m: int|
            0 <= m < shape.voice.len() && #[trigger] shape.index(m, slot) < j && sounds(
                b,
                shape.recs(),
                fns,
                tick,
                shape.index(m, slot),
            );
        assert(shape.index(m, slot) < j + 1);
    }
    if shape.shared.len() <= j && shape.slot_of(j) == slot && sounds(
        b,
        shape.recs(),
        fns,
        tick,
        j,
    ) {
        shape.lemma_index_of(j);
        assert(shape.index(shape.module_of(j), slot) < j + 1);
    }
}

/// Resets every flag.
fn clear_flags(flags: &mut Vec<bool>)
    ensures
        final(flags).len() == old(flags).len(),
        forall|k: int| 0 <= k < final(flags).len() ==> !#[trigger] final(flags)@[k],
{
    let mut k: usize = 0;
    while k < flags.len()
        invariant
            k <= flags.len() == old(flags).len(),
            forall|i: int| 0 <= i < k ==> !#[trigger] flags@[i],
        decreases flags.len() - k,
    {
        flags.set(k, false);
        k = k + 1;
    }
}

/// A turn of the `k`-th record keeps the zero buffer and the skip words.
proof fn lemma_turn_kept<P: ProcessFn>(
    b: Seq<u8>,
    shape: VoicedShape,
    k: int,
    fns: Seq<P>,
    tick: TickCtx,
)
    requires
        shape.plannable(),
        b.len() == shape.len(),
        holds(b, shape.recs(), shape.block_size, shape.term()),
        zeroed(b, zero_off(), shape.source_base()),
        0 <= k < shape.num_recs(),
        tick.frames <= tick.block_size == shape.block_size,
    ensures
        ({
            let c = after_turn(b, shape.recs()[k], fns, tick);
            &&& c.len() == b.len()
            &&& holds(c, shape.recs(), shape.block_size, shape.term())
            &&& zeroed(c, zero_off(), shape.source_base())
            &&& forall|j: int|
                0 <= j < shape.num_recs() ==> word_at(c, #[trigger] shape.recs()[j].off) == word_at(
                    b,
                    shape.recs()[j].off,
                )
        }),
{
    let recs = shape.recs();
    let bs = shape.block_size;
    let start = shape.records_start();
    let term = shape.term();
    let c = after_turn(b, recs[k], fns, tick);
    shape.lemma_schedule();
    shape.lemma_front();
    lemma_turn_holds(b, recs, bs, start, term, k, fns, tick);
    lemma_in_order(recs, bs, start, term, b.len() as int, k, recs.len() as int);
    assert forall|p: int| zero_off() <= p < shape.source_base() implies #[trigger] c[p] == 0 by {
        assert(b[p] == 0 && b[p] == c[p]);
    }
}

impl VoicedPlan {
    /// Walk the plan once. `slot_alive[k]` is set to whether any record in active slot `k`
    /// reported `Tail::Active` (for the engine's free-on-`Done` decision). Disabled slots stay
    /// `false`. `slot_alive.len()` must be `max_voices`.
    #[verifier::rlimit(60)]
    #[verifier::spinoff_prover]
    pub fn run<P: ProcessFn>(
        &mut self,
        fns: &[P],
        sample_rate: u32,
        time: u64,
        frames: usize,
        slot_alive: &mut Vec<bool>,
    )
        requires
            old(self).wf(),
            old(slot_alive).len() == old(self).shape().max_voices,
            all_runnable(fns@, old(self).shape()),
        ensures
            final(self).wf(),
            final(self).shape() == old(self).shape(),
            final(self).enabled() == old(self).enabled(),
            final(self).bytes() == after_walk(
                old(self).bytes(),
                old(self).shape().recs(),
                fns@,
                tick_of(old(self).shape().block_size as usize, frames, sample_rate, time),
                old(self).shape().num_recs(),
            ),
            final(slot_alive).len() == old(slot_alive).len(),
            forall|k: int|
                0 <= k < old(slot_alive).len() ==> #[trigger] final(slot_alive)@[k] == kept_alive(
                    old(self).bytes(),
                    old(self).shape(),
                    fns@,
                    tick_of(old(self).shape().block_size as usize, frames, sample_rate, time),
                    k,
                    old(self).shape().num_recs(),
                ),
    {
        let tick = TickCtx {
            frames: if frames <= self.block_size {
                frames
            } else {
                self.block_size
            },
            block_size: self.block_size,
            sample_rate,
            time,
        };
        let ghost shape = self.shape@;
        let ghost enabled = self.enabled@;
        let ghost bs = shape.block_size;
        let ghost recs = shape.recs();
        let ghost start = shape.records_start();
        let ghost term = shape.term();
        let ghost b = self.buf@;
        let ghost mut j: int = 0;
        clear_flags(slot_alive);
        let mut off: usize = self.records_start;
        proof {
            shape.lemma_schedule();
            shape.lemma_front();
            assert(0 <= shape.voice.len() * shape.max_voices) by (nonlinear_arith)
                requires
                    0 <= shape.voice.len(),
                    0 <= shape.max_voices,
            ;
            assert forall|k: int|
                0 <= k < slot_alive.len() implies #[trigger] slot_alive@[k] == kept_alive(
                b,
                shape,
                fns@,
                tick,
                k,
                0,
            ) by {
                if kept_alive(b, shape, fns@, tick, k, 0) {
                    let m = choose|m: int|
                        0 <= m < shape.voice.len() && #[trigger] shape.index(m, k) < 0 && sounds(
                            b,
                            recs,
                            fns@,
                            tick,
                            shape.index(m, k),
                        );
                    shape.lemma_index(m, k);
                }
            }
        }
        loop
            invariant
                self.wf(),
                self.shape@ == shape,
                self.enabled@ == enabled,
                shape.plannable(),
                bs == shape.block_size,
                recs == shape.recs(),
                recs.len() == shape.num_recs(),
                start == shape.records_start(),
                term == shape.term(),
                b.len() == shape.len(),
                tick.frames <= tick.block_size == bs,
                schedule(recs, bs, start, term, b.len() as int),
                all_runnable(fns@, shape),
                0 <= j <= recs.len(),
                off == place(recs, term, j),
                self.buf@ == after_walk(b, recs, fns@, tick, j),
                slot_alive.len() == shape.max_voices,
                forall|k: int|
                    0 <= k < slot_alive.len() ==> #[trigger] slot_alive@[k] == kept_alive(
                        b,
                        shape,
                        fns@,
                        tick,
                        k,
                        j,
                    ),
            ensures
                self.wf(),
                self.shape@ == shape,
                self.enabled@ == enabled,
                j == recs.len(),
                recs.len() == shape.num_recs(),
                self.buf@ == after_walk(b, recs, fns@, tick, j),
                slot_alive.len() == shape.max_voices,
                forall|k: int|
                    0 <= k < slot_alive.len() ==> #[trigger] slot_alive@[k] == kept_alive(
                        b,
                        shape,
                        fns@,
                        tick,
                        k,
                        j,
                    ),
            decreases recs.len() - j,
        {
            let ghost before = self.buf@;
            let ghost flags = slot_alive@;
            proof {
                if j < recs.len() {
                    assert(recs[j].fits(bs, term));
                    assert(recs[j].stored(self.buf@, bs));
                    lemma_parts(recs[j], bs);
                }
            }
            let skip: u32 = read_u32(&self.buf, off);
            if skip == TERMINATOR {
                proof {
                    if j < recs.len() {
                        assert(false);
                    }
                }
                break;
            }
            proof {
                assert(j < recs.len());
                lemma_turn_kept(before, shape, j, fns@, tick);
                assert(linked(recs, bs, term, j));
                lemma_voice_place(shape, j);
                lemma_callable(fns@, shape, j);
                lemma_in_order(recs, bs, start, term, b.len() as int, j, recs.len() as int);
            }
            if skip != 0 {
                off = skip as usize;
            } else {
                let (tail, next) = take_turn(&mut self.buf, off, fns, &tick, Ghost(recs[j]));
                proof {
                    lemma_same_runs(before, self.buf@, shape);
                }
                if tail == Tail::Active && off >= self.first_voice_off && off < self.terminator_off {
                    let slot: usize = self.slot_at(
                        off,
                        Ghost(shape.module_of(j)),
                        Ghost(shape.slot_of(j)),
                    );
                    slot_alive.set(slot, true);
                }
                off = next;
            }
            proof {
                assert forall|k: int|
                    0 <= k < slot_alive.len() implies #[trigger] slot_alive@[k] == kept_alive(
                    b,
                    shape,
                    fns@,
                    tick,
                    k,
                    j + 1,
                ) by {
                    lemma_kept_alive_step(b, shape, fns@, tick, k, j);
                    assert(flags[k] == kept_alive(b, shape, fns@, tick, k, j));
                }
                j = j + 1;
            }
        }
    }
}

/// The function table has an entry for the voice record.
pub open spec fn voice_runnable<P: ProcessFn>(fns: Seq<P>, spec: VoiceRecordSpec) -> bool {
    callable(
        fns,
        spec.fn_index,
        spec.state@.len(),
        spec.params@.len(),
        spec.inputs@.len(),
        spec.num_outputs as nat,
    )
}

/// The function table has an entry for every record.
pub open spec fn all_runnable<P: ProcessFn>(fns: Seq<P>, shape: VoicedShape) -> bool {
    &&& forall|i: int| 0 <= i < shape.shared.len() ==> runnable(fns, #[trigger] shape.shared[i])
    &&& forall|m: int| 0 <= m < shape.voice.len() ==> voice_runnable(fns, #[trigger] shape.voice[m])
}

/// Every record of the walk can be called.
proof fn lemma_callable<P: ProcessFn>(fns: Seq<P>, shape: VoicedShape, j: int)
    requires
        all_runnable(fns, shape),
        0 <= shape.max_voices,
        0 <= j < shape.num_recs(),
    ensures
        ({
            let r = shape.recs()[j];
            callable(
                fns,
                r.fn_index,
                r.state_len as nat,
                r.params_len as nat,
                r.inputs.len(),
                r.num_outputs as nat,
            )
        }),
{
    if j < shape.shared.len() {
        assert(runnable(fns, shape.shared[j]));
    } else {
        shape.lemma_index_of(j);
        assert(voice_runnable(fns, shape.voice[shape.module_of(j)]));
    }
}

/// The records behind the shared ones, and only those, lie in the voice region.
proof fn lemma_voice_place(shape: VoicedShape, j: int)
    requires
        shape.plannable(),
        0 <= j < shape.num_recs(),
    ensures
        shape.shared.len() <= j <==> shape.first_voice() <= shape.recs()[j].off,
        shape.recs()[j].off < shape.term(),
        shape.shared.len() <= j ==> 0 <= shape.module_of(j) < shape.voice.len() && 0
            <= shape.slot_of(j) < shape.max_voices && shape.recs()[j].off == shape.voice_off(
            shape.module_of(j),
            shape.slot_of(j),
        ),
{
    shape.lemma_front();
    shape.lemma_term();
    let n = shape.shared.len() as int;
    if j < n {
        lemma_rec_off(shape.records_start(), shape.block_size, shape.shared, j, n);
        lemma_spec_end(
            rec_off(shape.records_start(), shape.block_size, shape.shared, j),
            shape.shared[j],
            shape.block_size,
        );
    } else {
        shape.lemma_index_of(j);
        shape.lemma_voice_off(shape.module_of(j), shape.slot_of(j));
    }
}

/// The end of the voice region that starts at `first`, if `u32` offsets reach it.
fn voices_end(
    first: u32,
    block_size: usize,
    voice: &[VoiceRecordSpec],
    max_voices: usize,
    Ghost(shape): Ghost<VoicedShape>,
) -> (end: Option<u32>)
    requires
        shape.block_size == block_size,
        shape.voice == voice@,
        shape.max_voices == max_voices,
        first == shape.first_voice(),
        first % 64 == 0,
    ensures
        match end {
            Some(e) => e == shape.term() && forall|m: int|
                0 <= m < voice@.len() ==> (#[trigger] voice@[m]).num_outputs <= u32::MAX
                    && shape.stride(m) <= u32::MAX,
            None => shape.term() > u32::MAX || exists|m: int|
                0 <= m < voice@.len() && ((#[trigger] voice@[m]).num_outputs > u32::MAX
                    || shape.stride(m) > u32::MAX),
        },
{
    let ghost bs = block_size as int;
    let mut size: u32 = first;
    let mut m: usize = 0;
    while m < voice.len()
        invariant
            m <= voice.len(),
            bs == block_size,
            shape.block_size == block_size,
            shape.voice == voice@,
            shape.max_voices == max_voices,
            first == shape.first_voice(),
            first % 64 == 0,
            size == shape.voice_base(m as int),
            forall|k: int|
                0 <= k < m ==> (#[trigger] voice@[k]).num_outputs <= u32::MAX && shape.stride(k)
                    <= u32::MAX,
        decreases voice.len() - m,
    {
        let r = &voice[m];
        if r.num_outputs > 0xFFFF_FFFF {
            assert(voice@[m as int].num_outputs > u32::MAX);
            return None;
        }
        proof {
            reveal(stride_of);
            lemma_base_grows(shape, m + 1, voice@.len() as int);
            lemma_stride(0, voice@[m as int], bs);
        }
        match record_end(0, r.state.len(), r.inputs.len(), r.num_outputs, block_size) {
            Some(stride) => {
                proof {
                    assert(stride == shape.stride(m as int));
                    assert(0 <= stride * max_voices <= u64::MAX * u64::MAX) by (nonlinear_arith)
                        requires
                            0 <= stride <= u32::MAX,
                            0 <= max_voices <= u64::MAX,
                    ;
                    assert(stride * max_voices + u32::MAX <= u128::MAX) by (nonlinear_arith)
                        requires
                            0 <= stride <= u32::MAX,
                            0 <= max_voices <= u64::MAX,
                    ;
                }
                let next: u128 = size as u128 + stride as u128 * max_voices as u128;
                if next > 0xFFFF_FFFF {
                    return None;
                }
                size = next as u32;
            },
            None => {
                assert(shape.stride(m as int) > u32::MAX);
                return None;
            },
        }
        m = m + 1;
    }
    Some(size)
}

/// Voice modules further on lie further back.
proof fn lemma_base_grows(shape: VoicedShape, i: int, j: int)
    requires
        0 <= i <= j <= shape.voice.len(),
        0 <= shape.block_size,
        0 <= shape.max_voices,
    ensures
        shape.voice_base(i) <= shape.voice_base(j),
    decreases j,
{
    if i < j {
        lemma_base_grows(shape, i, j - 1);
        lemma_stride(0, shape.voice[j - 1], shape.block_size);
        assert(0 <= shape.stride(j - 1) * shape.max_voices) by (nonlinear_arith)
            requires
                0 <= shape.stride(j - 1),
                0 <= shape.max_voices,
        ;
    }
}

/// The regions of the buffer follow one another.
proof fn lemma_chain(shape: VoicedShape)
    requires
        0 <= shape.block_size,
        0 <= shape.num_source_outputs,
        0 <= shape.max_voices,
    ensures
        64 + 4 * shape.block_size <= shape.source_base() <= shape.records_start(),
        0 <= shape.source_stride(),
        shape.source_base() % 64 == 0,
        shape.source_stride() % 64 == 0,
        shape.records_start() % 64 == 0,
        shape.records_start() <= shape.first_voice() <= shape.term(),
        shape.first_voice() % 64 == 0,
        shape.term() + 4 <= params_start(shape.term()) <= shape.len(),
{
    let n = shape.shared.len() as int;
    lemma_bufs_len(0, shape.num_source_outputs, shape.block_size);
    lemma_slots(shape.source_stride(), shape.max_voices, 0);
    lemma_rec_off(shape.records_start(), shape.block_size, shape.shared, 0, n);
    lemma_rec_off(shape.records_start(), shape.block_size, shape.shared, n, n);
    lemma_base_grows(shape, 0, shape.voice.len() as int);
    lemma_params_at(params_start(shape.term()), shape.lens(), 0, shape.lens().len() as int);
}

/// Whether `u32` offsets reach everything in a voiced plan of these records.
pub fn voiced_plan_fits(
    block_size: usize,
    shared: &[RecordSpec],
    num_source_outputs: usize,
    voice: &[VoiceRecordSpec],
    max_voices: usize,
) -> (r: bool)
    ensures
        r == (VoicedShape {
            block_size: block_size as int,
            shared: shared@,
            num_source_outputs: num_source_outputs as int,
            voice: voice@,
            max_voices: max_voices as int,
        }).addressable(),
{
    let ghost shape = VoicedShape {
        block_size: block_size as int,
        shared: shared@,
        num_source_outputs: num_source_outputs as int,
        voice: voice@,
        max_voices: max_voices as int,
    };
    proof {
        lemma_chain(shape);
        assert(0 <= num_source_outputs * block_size <= u64::MAX * u64::MAX) by (nonlinear_arith)
            requires
                0 <= num_source_outputs <= u64::MAX,
                0 <= block_size <= u64::MAX,
        ;
    }
    if !ports_countable(shared) || block_size > 0x3FFF_FFFF {
        return false;
    }
    let base: u32 = match block_end(64, block_size * SAMPLE, BUF_ALIGN) {
        Some(base) => base,
        None => {
            return false;
        },
    };
    let samples: u128 = num_source_outputs as u128 * block_size as u128;
    if samples > 0x3FFF_FFFF {
        return false;
    }
    let stride: u32 = match block_end(0, samples as usize * SAMPLE, BUF_ALIGN) {
        Some(stride) => stride,
        None => {
            return false;
        },
    };
    proof {
        assert(0 <= stride * max_voices && stride * max_voices + u32::MAX <= u128::MAX)
            by (nonlinear_arith)
            requires
                0 <= stride <= u32::MAX,
                0 <= max_voices <= u64::MAX,
        ;
    }
    let start: u128 = base as u128 + stride as u128 * max_voices as u128;
    if start > 0xFFFF_FFFF {
        return false;
    }
    let first: u32 = match row_end(start as u32, block_size, shared) {
        Some(first) => first,
        None => {
            return false;
        },
    };
    let term: u32 = match voices_end(first, block_size, voice, max_voices, Ghost(shape)) {
        Some(term) => term,
        None => {
            return false;
        },
    };
    let params: u32 = match block_end(term, 4, RECORD_ALIGN) {
        Some(params) => params,
        None => {
            return false;
        },
    };
    let blocks = all_param_blocks(shared, voice, Ghost(shape));
    match params_end(params, &blocks, Ghost(shape.lens())) {
        Some(_) => true,
        None => false,
    }
}

} // verus!
