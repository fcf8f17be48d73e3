//! Where things stand in the buffer of a plan with a voice source.

use vstd::prelude::*;
use crate::bytes::{agree, lemma_put_word, lemma_word_agree, lemma_words_agree, put_word, put_words, word_at};
use crate::layout::{Rec, bufs_len, end_at, inputs_at, lemma_bufs_len, lemma_parts, outputs_at, state_at, up};
use crate::plan::{RecordSpec, countable, lemma_params_at, lemma_reads_back, lemma_rec_off, mono_start, param_lens, params_at, params_start, port_off, rec_of, rec_off, spec_end, topological, zero_off};
use crate::walk::{holds, lemma_header_agree, lemma_in_order, linked, place, reads_back, schedule};

verus! {

/// Where a per-voice input reads from, while building a voiced plan.
#[derive(Debug, Clone, Copy, PartialEq, Eq, Structural)]
pub enum VoiceSource {
    /// A shared (mono) record's output: `(shared record index, output port)`.
    Shared(usize, usize),
    /// One of the voice source's per-voice outputs for this slot: `(output port)`.
    SourceOut(usize),
    /// Another per-voice record within the same slot: `(voice record index, output port)`.
    Voice(usize, usize),
    /// Unconnected: the shared zero buffer.
    Zero,
}

/// One per-voice record to lay out (stamped once per slot).
pub struct VoiceRecordSpec {
    pub fn_index: u32,
    pub state: Vec<u8>,
    pub params: Vec<u8>,
    pub inputs: Vec<VoiceSource>,
    pub num_outputs: usize,
}

/// Distance between the records of two neighboring voices of one module.
#[verifier::opaque]
pub open spec fn stride_of(spec: VoiceRecordSpec, block_size: int) -> int {
    end_at(
        0,
        spec.state@.len() as int,
        spec.inputs@.len() as int,
        spec.num_outputs as int,
        block_size,
    )
}

/// What a voiced plan is laid out from.
pub struct VoicedShape {
    pub block_size: int,
    pub shared: Seq<RecordSpec>,
    pub num_source_outputs: int,
    pub voice: Seq<VoiceRecordSpec>,
    pub max_voices: int,
}

impl VoicedShape {
    /// Offset of the source-output buffers of slot 0.
    pub open spec fn source_base(self) -> int {
        mono_start(self.block_size)
    }

    /// Distance between the source-output buffers of two neighboring slots.
    pub open spec fn source_stride(self) -> int {
        up(bufs_len(self.num_source_outputs, self.block_size), 64)
    }

    /// Offset of source-output buffer `port` of slot `slot`.
    pub open spec fn source_off(self, slot: int, port: int) -> int {
        self.source_base() + slot * self.source_stride() + bufs_len(port, self.block_size)
    }

    /// Offset of the first shared record.
    pub open spec fn records_start(self) -> int {
        self.source_base() + self.source_stride() * self.max_voices
    }

    /// Offset of the first voice record.
    pub open spec fn first_voice(self) -> int {
        rec_off(self.records_start(), self.block_size, self.shared, self.shared.len() as int)
    }

    pub open spec fn stride(self, m: int) -> int {
        stride_of(self.voice[m], self.block_size)
    }

    /// Offset of the voice-0 record of voice module `m`.
    pub open spec fn voice_base(self, m: int) -> int
        decreases m,
    {
        if m <= 0 {
            self.first_voice()
        } else {
            self.voice_base(m - 1) + self.stride(m - 1) * self.max_voices
        }
    }

    /// Offset of the record of voice module `m` in slot `slot`.
    pub open spec fn voice_off(self, m: int, slot: int) -> int {
        self.voice_base(m) + slot * self.stride(m)
    }

    /// Offset of output port `port` of voice module `m` in slot `slot`.
    pub open spec fn voice_port_off(self, m: int, slot: int, port: int) -> int {
        self.voice_off(m, slot) + outputs_at(
            0,
            self.voice[m].state@.len() as int,
            self.voice[m].inputs@.len() as int,
        ) + bufs_len(port, self.block_size)
    }

    /// Offset of the buffer that an input with source `src` reads in slot `slot`.
    pub open spec fn input_off(self, src: VoiceSource, slot: int) -> int {
        match src {
            VoiceSource::Shared(rec, port) => port_off(
                self.records_start(),
                self.block_size,
                self.shared,
                rec as int,
                port as int,
            ),
            VoiceSource::SourceOut(port) => self.source_off(slot, port as int),
            VoiceSource::Voice(rec, port) => self.voice_port_off(rec as int, slot, port as int),
            VoiceSource::Zero => zero_off(),
        }
    }

    /// Offset of the terminator.
    pub open spec fn term(self) -> int {
        self.voice_base(self.voice.len() as int)
    }

    /// Lengths of the parameter blocks: one per shared record, one per voice module.
    pub open spec fn lens(self) -> Seq<int> {
        param_lens(self.shared) + Seq::new(
            self.voice.len(),
            |m: int| self.voice[m].params@.len() as int,
        )
    }

    /// Offset of parameter block `i`.
    pub open spec fn params_off(self, i: int) -> int {
        params_at(params_start(self.term()), self.lens(), i)
    }

    /// Length of the buffer.
    pub open spec fn len(self) -> int {
        self.params_off(self.lens().len() as int)
    }

    /// Shared record `i`.
    pub open spec fn shared_rec(self, i: int) -> Rec {
        rec_of(self.records_start(), self.block_size, self.shared, i, self.params_off(i))
    }

    /// The record of voice module `m` in slot `slot`.
    pub open spec fn voice_rec(self, m: int, slot: int) -> Rec {
        Rec {
            off: self.voice_off(m, slot),
            fn_index: self.voice[m].fn_index,
            state_len: self.voice[m].state@.len() as int,
            params_off: self.params_off(self.shared.len() + m),
            params_len: self.voice[m].params@.len() as int,
            inputs: Seq::new(
                self.voice[m].inputs@.len(),
                |k: int| self.input_off(self.voice[m].inputs@[k], slot) as u32,
            ),
            num_outputs: self.voice[m].num_outputs as int,
        }
    }

    /// Place in the walk of the record of voice module `m` in slot `slot`.
    pub open spec fn index(self, m: int, slot: int) -> int {
        self.shared.len() + m * self.max_voices + slot
    }

    /// Voice module of the `j`-th record of the walk.
    pub open spec fn module_of(self, j: int) -> int {
        (j - self.shared.len()) / self.max_voices
    }

    /// Slot of the `j`-th record of the walk.
    pub open spec fn slot_of(self, j: int) -> int {
        (j - self.shared.len()) % self.max_voices
    }

    /// Number of records of the walk.
    pub open spec fn num_recs(self) -> int {
        self.shared.len() + self.voice.len() * self.max_voices
    }

    /// The records in the order of the walk: the shared ones, then each module's voices in turn.
    pub open spec fn recs(self) -> Seq<Rec> {
        Seq::new(
            self.num_recs() as nat,
            |j: int|
                if j < self.shared.len() {
                    self.shared_rec(j)
                } else {
                    self.voice_rec(self.module_of(j), self.slot_of(j))
                },
        )
    }

    /// Every voice input reads something that is there and comes earlier, or nothing.
    pub open spec fn voice_topological(self) -> bool {
        forall|m: int, k: int|
            #![trigger self.voice[m].inputs@[k]]
            0 <= m < self.voice.len() && 0 <= k < self.voice[m].inputs@.len()
                ==> match self.voice[m].inputs@[k] {
                VoiceSource::Shared(rec, port) => rec < self.shared.len() && port
                    < self.shared[rec as int].num_outputs,
                VoiceSource::SourceOut(port) => port < self.num_source_outputs,
                VoiceSource::Voice(rec, port) => rec < m && port
                    < self.voice[rec as int].num_outputs,
                VoiceSource::Zero => true,
            }
    }

    /// `u32` offsets reach everything, and header words can count the ports.
    pub open spec fn addressable(self) -> bool {
        &&& countable(self.shared)
        &&& forall|m: int|
            0 <= m < self.voice.len() ==> (#[trigger] self.voice[m]).num_outputs <= u32::MAX
                && self.stride(m) <= u32::MAX
        &&& self.source_stride() <= u32::MAX
        &&& self.len() <= u32::MAX
    }

    /// The shape can be laid out: producers come first, and `u32` offsets reach everything.
    pub open spec fn plannable(self) -> bool {
        &&& 0 <= self.block_size
        &&& 0 <= self.num_source_outputs
        &&& 0 <= self.max_voices
        &&& topological(self.shared)
        &&& self.voice_topological()
        &&& self.addressable()
    }
}

/// Rounding up does not mind a shift by a multiple of the alignment.
proof fn lemma_up_shift(off: int, x: int)
    requires
        off % 64 == 0,
    ensures
        up(off + x, 4) == off + up(x, 4),
        up(off + x, 16) == off + up(x, 16),
        up(off + x, 64) == off + up(x, 64),
{
    let q = off / 64;
    assert(off == 64 * q);
    vstd::arithmetic::div_mod::lemma_hoist_over_denominator(x + 3, 16 * q, 4);
    vstd::arithmetic::div_mod::lemma_hoist_over_denominator(x + 15, 4 * q, 16);
    vstd::arithmetic::div_mod::lemma_hoist_over_denominator(x + 63, q, 64);
}

/// A voice record is at least as long as its alignment, wherever it stands.
pub proof fn lemma_stride(off: int, spec: VoiceRecordSpec, block_size: int)
    requires
        0 <= off,
        off % 64 == 0,
        0 <= block_size,
    ensures
        64 <= stride_of(spec, block_size),
        stride_of(spec, block_size) % 64 == 0,
        end_at(
            off,
            spec.state@.len() as int,
            spec.inputs@.len() as int,
            spec.num_outputs as int,
            block_size,
        ) == off + stride_of(spec, block_size),
        state_at(off) == off + state_at(0),
        inputs_at(off, spec.state@.len() as int) == off + inputs_at(0, spec.state@.len() as int),
        outputs_at(off, spec.state@.len() as int, spec.inputs@.len() as int) == off + outputs_at(
            0,
            spec.state@.len() as int,
            spec.inputs@.len() as int,
        ),
{
    reveal(stride_of);
    let state_len = spec.state@.len() as int;
    let num_inputs = spec.inputs@.len() as int;
    let bufs = bufs_len(spec.num_outputs as int, block_size);
    lemma_bufs_len(0, spec.num_outputs as int, block_size);
    lemma_up_shift(off, 28);
    lemma_up_shift(off, state_at(0) + state_len);
    lemma_up_shift(off, inputs_at(0, state_len) + 4 * num_inputs);
    lemma_up_shift(off, outputs_at(0, state_len, num_inputs) + bufs);
    let r = Rec {
        off: 0,
        fn_index: 0,
        state_len,
        params_off: 0,
        params_len: 0,
        inputs: Seq::new(spec.inputs@.len(), |k: int| 0u32),
        num_outputs: spec.num_outputs as int,
    };
    lemma_parts(r, block_size);
}

/// Some arithmetic on the slots of a row of equal strides.
pub proof fn lemma_slots(stride: int, max: int, slot: int)
    requires
        0 <= stride,
        stride % 64 == 0,
        0 <= slot <= max,
    ensures
        0 <= slot * stride <= stride * max,
        (slot * stride) % 64 == 0,
        (stride * max) % 64 == 0,
        (slot + 1) * stride == slot * stride + stride,
        slot < max ==> slot * stride + stride <= stride * max,
        stride * max == max * stride,
{
    assert(0 <= slot * stride <= stride * max) by (nonlinear_arith)
        requires
            0 <= stride,
            0 <= slot <= max,
    ;
    assert((slot + 1) * stride == slot * stride + stride) by (nonlinear_arith);
    assert(stride * max == max * stride) by (nonlinear_arith);
    if slot < max {
        assert(slot * stride + stride <= stride * max) by (nonlinear_arith)
            requires
                0 <= stride,
                0 <= slot < max,
        ;
    }
    let q = stride / 64;
    assert(stride == 64 * q);
    assert(slot * stride == 64 * (slot * q)) by (nonlinear_arith)
        requires
            stride == 64 * q,
    ;
    assert(stride * max == 64 * (max * q)) by (nonlinear_arith)
        requires
            stride == 64 * q,
    ;
}

impl VoicedShape {
    /// The regions before the records.
    pub proof fn lemma_front(self)
        requires
            self.plannable(),
        ensures
            zero_off() + 4 * self.block_size <= self.source_base(),
            self.source_base() % 64 == 0,
            0 <= self.source_stride(),
            self.source_stride() % 64 == 0,
            self.source_base() <= self.records_start(),
            self.records_start() % 64 == 0,
            self.records_start() <= self.first_voice(),
            self.first_voice() % 64 == 0,
    {
        lemma_bufs_len(0, self.num_source_outputs, self.block_size);
        lemma_slots(self.source_stride(), self.max_voices, 0);
        lemma_rec_off(
            self.records_start(),
            self.block_size,
            self.shared,
            0,
            self.shared.len() as int,
        );
        lemma_rec_off(
            self.records_start(),
            self.block_size,
            self.shared,
            self.shared.len() as int,
            self.shared.len() as int,
        );
    }

    /// A slot's source-output buffers lie in the source-output region.
    pub proof fn lemma_source_off(self, slot: int, port: int)
        requires
            self.plannable(),
            0 <= slot < self.max_voices,
            0 <= port < self.num_source_outputs,
        ensures
            self.source_base() <= self.source_base() + slot * self.source_stride()
                <= self.source_off(slot, port),
            self.source_off(slot, port) + 4 * self.block_size <= self.source_base() + (slot + 1)
                * self.source_stride() <= self.records_start(),
            bufs_len(port + 1, self.block_size) == bufs_len(port, self.block_size) + 4
                * self.block_size,
    {
        self.lemma_front();
        lemma_slots(self.source_stride(), self.max_voices, slot);
        lemma_bufs_len(port, self.num_source_outputs, self.block_size);
        lemma_bufs_len(port + 1, self.num_source_outputs, self.block_size);
    }

    /// Voice modules further on lie further back, on record boundaries.
    pub proof fn lemma_voice_base(self, i: int, j: int)
        requires
            self.plannable(),
            0 <= i <= j <= self.voice.len(),
        ensures
            self.first_voice() <= self.voice_base(i) <= self.voice_base(j),
            self.voice_base(i) % 64 == 0,
            i < j ==> self.voice_base(i) + self.stride(i) * self.max_voices <= self.voice_base(j),
        decreases j,
    {
        self.lemma_front();
        if j > 0 {
            if i < j {
                self.lemma_voice_base(i, j - 1);
            }
            self.lemma_voice_base(j - 1, j - 1);
            lemma_stride(0, self.voice[j - 1], self.block_size);
            lemma_slots(self.stride(j - 1), self.max_voices, 0);
        }
    }

    /// A voice record lies in its module's block.
    pub proof fn lemma_voice_off(self, m: int, slot: int)
        requires
            self.plannable(),
            0 <= m < self.voice.len(),
            0 <= slot < self.max_voices,
        ensures
            64 <= self.stride(m),
            self.first_voice() <= self.voice_base(m) <= self.voice_off(m, slot),
            self.voice_off(m, slot) % 64 == 0,
            self.voice_off(m, slot) + self.stride(m) == self.voice_off(m, slot + 1),
            self.voice_off(m, slot + 1) <= self.voice_base(m + 1) <= self.term(),
            self.voice_base(m + 1) == self.voice_base(m) + self.stride(m) * self.max_voices,
            slot + 1 == self.max_voices ==> self.voice_off(m, slot + 1) == self.voice_base(m + 1),
            self.voice_rec(m, slot).end(self.block_size) == self.voice_off(m, slot + 1),
            self.voice_rec(m, slot).state_off() == self.voice_off(m, slot) + 32,
            self.voice_rec(m, slot).inputs_off() == self.voice_off(m, slot) + inputs_at(
                0,
                self.voice[m].state@.len() as int,
            ),
            forall|port: int| #[trigger]
                self.voice_rec(m, slot).output_off(port, self.block_size) == self.voice_port_off(
                    m,
                    slot,
                    port,
                ),
    {
        self.lemma_front();
        self.lemma_voice_base(m, m);
        self.lemma_voice_base(m + 1, self.voice.len() as int);
        lemma_stride(0, self.voice[m], self.block_size);
        lemma_slots(self.stride(m), self.max_voices, slot);
        lemma_stride(self.voice_off(m, slot), self.voice[m], self.block_size);
    }

    /// The parameter section lies behind the terminator.
    pub proof fn lemma_params(self, i: int)
        requires
            self.plannable(),
            0 <= i < self.lens().len(),
        ensures
            self.term() + 4 <= self.params_off(i),
            self.params_off(i) + self.lens()[i] <= self.len(),
            forall|k: int| 0 <= k < self.lens().len() ==> 0 <= #[trigger] self.lens()[k],
    {
        let lens = self.lens();
        lemma_params_at(params_start(self.term()), lens, 0, i);
        lemma_params_at(params_start(self.term()), lens, i, lens.len() as int);
    }

    /// The terminator has room.
    pub proof fn lemma_term(self)
        requires
            self.plannable(),
        ensures
            self.term() + 4 <= params_start(self.term()) <= self.len(),
            self.first_voice() <= self.term(),
            self.term() % 64 == 0,
    {
        self.lemma_voice_base(self.voice.len() as int, self.voice.len() as int);
        lemma_params_at(params_start(self.term()), self.lens(), 0, self.lens().len() as int);
    }

    /// The record of module `m` in slot `slot` has its place in the walk.
    pub proof fn lemma_index(self, m: int, slot: int)
        requires
            0 <= m < self.voice.len(),
            0 <= slot < self.max_voices,
        ensures
            self.shared.len() <= self.index(m, slot) < self.num_recs(),
            self.module_of(self.index(m, slot)) == m,
            self.slot_of(self.index(m, slot)) == slot,
            self.recs()[self.index(m, slot)] == self.voice_rec(m, slot),
            self.recs().len() == self.num_recs(),
    {
        let max = self.max_voices;
        let n = self.voice.len() as int;
        assert(0 <= m * max && m * max + max <= n * max) by (nonlinear_arith)
            requires
                0 <= m < n,
                0 < max,
        ;
        vstd::arithmetic::div_mod::lemma_fundamental_div_mod_converse(m * max + slot, max, m, slot);
    }

    /// Every record behind the shared ones belongs to a module and a slot.
    pub proof fn lemma_index_of(self, j: int)
        requires
            0 <= self.max_voices,
            self.shared.len() <= j < self.num_recs(),
        ensures
            0 <= self.module_of(j) < self.voice.len(),
            0 <= self.slot_of(j) < self.max_voices,
            self.index(self.module_of(j), self.slot_of(j)) == j,
    {
        let max = self.max_voices;
        let n = self.voice.len() as int;
        let x = j - self.shared.len();
        assert(0 < max) by (nonlinear_arith)
            requires
                0 <= x < n * max,
                0 <= max,
        ;
        vstd::arithmetic::div_mod::lemma_fundamental_div_mod(x, max);
        let q = x / max;
        let r = x % max;
        assert(max * q == q * max) by (nonlinear_arith);
        assert(0 <= q < n) by (nonlinear_arith)
            requires
                x == q * max + r,
                0 <= r < max,
                0 <= x < n * max,
        ;
    }

    /// The buffers that a voice record reads lie before it.
    pub proof fn lemma_voice_reads_back(self, m: int, slot: int)
        requires
            self.plannable(),
            0 <= m < self.voice.len(),
            0 <= slot < self.max_voices,
        ensures
            reads_back(self.voice_rec(m, slot), self.block_size),
            forall|k: int|
                0 <= k < self.voice[m].inputs@.len() ==> #[trigger] self.voice_rec(m, slot).inputs[k]
                    == self.input_off(self.voice[m].inputs@[k], slot),
    {
        let r = self.voice_rec(m, slot);
        let bs = self.block_size;
        self.lemma_front();
        self.lemma_term();
        self.lemma_voice_off(m, slot);
        assert forall|k: int| 0 <= k < r.inputs.len() implies #[trigger] r.inputs[k]
            == self.input_off(self.voice[m].inputs@[k], slot) && 64 <= r.inputs[k] && r.inputs[k] + 4
            * bs <= r.off by {
            let src = self.voice[m].inputs@[k];
            match src {
                VoiceSource::Shared(rec, port) => {
                    let start = self.records_start();
                    let n = self.shared.len() as int;
                    let p = rec_of(start, bs, self.shared, rec as int, 0);
                    lemma_rec_off(start, bs, self.shared, rec as int, n);
                    lemma_parts(p, bs);
                    reveal(spec_end);
                    lemma_bufs_len(port as int, p.num_outputs, bs);
                    lemma_bufs_len(port + 1, p.num_outputs, bs);
                },
                VoiceSource::SourceOut(port) => {
                    self.lemma_source_off(slot, port as int);
                },
                VoiceSource::Voice(rec, port) => {
                    let p = self.voice_rec(rec as int, slot);
                    self.lemma_voice_off(rec as int, slot);
                    self.lemma_voice_base(rec + 1, m);
                    lemma_parts(p, bs);
                    lemma_bufs_len(port as int, p.num_outputs, bs);
                    lemma_bufs_len(port + 1, p.num_outputs, bs);
                    assert(p.output_off(port as int, bs) == self.input_off(src, slot));
                },
                VoiceSource::Zero => {},
            }
        }
    }

    /// The records of a plannable shape are a schedule.
    pub proof fn lemma_schedule(self)
        requires
            self.plannable(),
        ensures
            schedule(
                self.recs(),
                self.block_size,
                self.records_start(),
                self.term(),
                self.len(),
            ),
            self.recs().len() == self.num_recs(),
    {
        let bs = self.block_size;
        let start = self.records_start();
        let term = self.term();
        let recs = self.recs();
        let s = self.shared.len() as int;
        let n = self.voice.len() as int;
        let max = self.max_voices;
        self.lemma_front();
        self.lemma_term();
        assert(0 <= n * max) by (nonlinear_arith)
            requires
                0 <= n,
                0 <= max,
        ;
        assert forall|j: int| 0 <= j < recs.len() implies (#[trigger] recs[j]).fits(bs, term)
            && reads_back(recs[j], bs) && term + 4 <= recs[j].params_off && recs[j].params_off
            + recs[j].params_len <= self.len() by {
            if j < s {
                reveal(spec_end);
                lemma_rec_off(start, bs, self.shared, j, s);
                lemma_reads_back(start, bs, self.shared, j, self.params_off(j));
                self.lemma_params(j);
                assert(recs[j].end(bs) == spec_end(recs[j].off, self.shared[j], bs));
            } else {
                let m = self.module_of(j);
                let slot = self.slot_of(j);
                self.lemma_index_of(j);
                self.lemma_voice_off(m, slot);
                self.lemma_voice_reads_back(m, slot);
                self.lemma_params(s + m);
                assert(self.voice[m].num_outputs <= u32::MAX);
            }
        }
        assert forall|j: int| 0 <= j < recs.len() implies #[trigger] linked(recs, bs, term, j) by {
            self.lemma_linked(j);
        }
        if recs.len() > 0 {
            if s == 0 {
                self.lemma_index_of(0);
                self.lemma_first();
            }
        } else {
            self.lemma_first();
        }
    }

    /// The walk enters the voice region at the record of voice 0 of module 0.
    proof fn lemma_first(self)
        requires
            self.plannable(),
        ensures
            place(self.recs(), self.term(), self.shared.len() as int) == self.first_voice(),
    {
        let s = self.shared.len() as int;
        let n = self.voice.len() as int;
        let max = self.max_voices;
        if n == 0 {
        } else if max == 0 {
            self.lemma_empty(n);
            assert(n * max == 0) by (nonlinear_arith)
                requires
                    max == 0,
            ;
        } else {
            self.lemma_index(0, 0);
            assert(0 * self.stride(0) == 0);
        }
    }

    /// Without voices the voice modules take no room.
    proof fn lemma_empty(self, m: int)
        requires
            self.max_voices == 0,
            0 <= m,
        ensures
            self.voice_base(m) == self.first_voice(),
        decreases m,
    {
        if m > 0 {
            self.lemma_empty(m - 1);
            assert(self.stride(m - 1) * 0 == 0);
        }
    }

    /// Each record of the walk ends where the next one starts.
    proof fn lemma_linked(self, j: int)
        requires
            self.plannable(),
            0 <= j < self.num_recs(),
            self.recs().len() == self.num_recs(),
        ensures
            linked(self.recs(), self.block_size, self.term(), j),
    {
        let bs = self.block_size;
        let s = self.shared.len() as int;
        let n = self.voice.len() as int;
        let max = self.max_voices;
        let recs = self.recs();
        if j < s {
            reveal(spec_end);
            assert(recs[j].end(bs) == rec_off(self.records_start(), bs, self.shared, j + 1));
            if j + 1 == s {
                self.lemma_first();
            }
        } else {
            let m = self.module_of(j);
            let slot = self.slot_of(j);
            self.lemma_index_of(j);
            self.lemma_voice_off(m, slot);
            if slot + 1 < max {
                self.lemma_index(m, slot + 1);
            } else if m + 1 < n {
                assert((m + 1) * max == m * max + max) by (nonlinear_arith);
                self.lemma_index(m + 1, 0);
                assert(0 * self.stride(m + 1) == 0);
            } else {
                assert((m + 1) * max == m * max + max) by (nonlinear_arith);
            }
        }
    }
}

/// The skip words of voice `slot`: zero to run it, else a jump to the same module's next voice.
pub open spec fn skip_word(shape: VoicedShape, m: int, slot: int, active: bool) -> u32 {
    if active {
        0
    } else {
        shape.voice_off(m, slot + 1) as u32
    }
}

/// The buffer with the skip words of voice `slot` set in the first `n` modules.
pub open spec fn skips_set(b: Seq<u8>, shape: VoicedShape, slot: int, active: bool, n: int) -> Seq<
    u8,
>
    decreases n,
{
    if n <= 0 {
        b
    } else {
        put_word(
            skips_set(b, shape, slot, active, n - 1),
            shape.voice_off(n - 1, slot),
            skip_word(shape, n - 1, slot, active),
        )
    }
}

/// The buffer with the first `n` source-output buffers of slot `slot` silenced for `frames`.
pub open spec fn silenced(b: Seq<u8>, shape: VoicedShape, slot: int, frames: int, n: int) -> Seq<u8>
    decreases n,
{
    if n <= 0 {
        b
    } else {
        put_words(
            silenced(b, shape, slot, frames, n - 1),
            shape.source_off(slot, n - 1),
            Seq::new(frames as nat, |i: int| 0u32),
        )
    }
}

/// Setting a skip word leaves the rest of the schedule as it is.
pub proof fn lemma_skip(b: Seq<u8>, recs: Seq<Rec>, block_size: int, start: int, term: int, k: int, v: u32)
    requires
        schedule(recs, block_size, start, term, b.len() as int),
        holds(b, recs, block_size, term),
        0 <= k < recs.len(),
        v == 0 || v == recs[k].end(block_size),
    ensures
        ({
            let c = put_word(b, recs[k].off, v);
            &&& c.len() == b.len()
            &&& holds(c, recs, block_size, term)
            &&& word_at(c, recs[k].off) == v
            &&& forall|i: int|
                0 <= i < recs.len() && i != k ==> word_at(c, #[trigger] recs[i].off) == word_at(
                    b,
                    recs[i].off,
                )
            &&& agree(b, c, 0, recs[k].off)
            &&& agree(b, c, recs[k].off + 4, b.len() as int)
        }),
{
    let r = recs[k];
    let c = put_word(b, r.off, v);
    let len = b.len() as int;
    lemma_parts(r, block_size);
    lemma_put_word(b, r.off, v);
    lemma_in_order(recs, block_size, start, term, len, k, recs.len() as int);
    lemma_word_agree(b, c, r.off + 4, len, term);
    assert forall|i: int| 0 <= i < recs.len() implies (#[trigger] recs[i]).stored(c, block_size) && (i
        != k ==> word_at(c, recs[i].off) == word_at(b, recs[i].off)) by {
        let q = recs[i];
        lemma_parts(q, block_size);
        if i < k {
            lemma_in_order(recs, block_size, start, term, len, i, k);
            lemma_header_agree(b, c, q, block_size, 0, r.off);
        } else if k < i {
            lemma_in_order(recs, block_size, start, term, len, k, i);
            lemma_header_agree(b, c, q, block_size, r.off + 4, len);
        } else {
            lemma_word_agree(b, c, r.off + 4, len, r.off + 4);
            lemma_word_agree(b, c, r.off + 4, len, r.off + 8);
            lemma_word_agree(b, c, r.off + 4, len, r.off + 12);
            lemma_word_agree(b, c, r.off + 4, len, r.off + 16);
            lemma_word_agree(b, c, r.off + 4, len, r.off + 20);
            lemma_word_agree(b, c, r.off + 4, len, r.off + 24);
            lemma_words_agree(b, c, r.off + 4, len, r.inputs_off(), r.inputs.len() as int);
        }
    }
}

/// Two buffers hold the same bytes in one voice record, but perhaps for its skip word.
pub open spec fn same_body(b: Seq<u8>, c: Seq<u8>, shape: VoicedShape, m: int, s: int) -> bool {
    agree(b, c, shape.voice_off(m, s) + 4, shape.voice_off(m, s) + shape.stride(m))
}

/// Two buffers of a schedule differ in skip words only.
pub open spec fn same_but_skips(b: Seq<u8>, c: Seq<u8>, shape: VoicedShape) -> bool {
    &&& b.len() == c.len()
    &&& agree(b, c, 0, shape.first_voice())
    &&& agree(b, c, shape.term(), b.len() as int)
    &&& forall|m: int, s: int|
        0 <= m < shape.voice.len() && 0 <= s < shape.max_voices ==> #[trigger] same_body(
            b,
            c,
            shape,
            m,
            s,
        )
}

/// Distinct voice records do not overlap.
pub proof fn lemma_voice_apart(shape: VoicedShape, m: int, s: int, n: int, t: int)
    requires
        shape.plannable(),
        0 <= m < shape.voice.len(),
        0 <= s < shape.max_voices,
        0 <= n < shape.voice.len(),
        0 <= t < shape.max_voices,
        m < n || m == n && s < t,
    ensures
        shape.voice_off(m, s) + shape.stride(m) <= shape.voice_off(n, t),
        shape.index(m, s) < shape.index(n, t),
{
    shape.lemma_voice_off(m, s);
    shape.lemma_voice_off(n, t);
    let max = shape.max_voices;
    if m < n {
        shape.lemma_voice_base(m + 1, n);
        assert(m * max + max <= n * max) by (nonlinear_arith)
            requires
                m < n,
                0 <= max,
        ;
    } else {
        let stride = shape.stride(m);
        assert((s + 1) * stride <= t * stride) by (nonlinear_arith)
            requires
                s < t,
                0 <= stride,
        ;
    }
}

/// The walk runs the record of voice module `m` in slot `s`.
pub open spec fn runs(b: Seq<u8>, shape: VoicedShape, m: int, s: int) -> bool {
    word_at(b, shape.voice_off(m, s)) == 0
}

/// Differing in skip words only goes from one buffer to the next.
pub proof fn lemma_same_but_skips(a: Seq<u8>, b: Seq<u8>, c: Seq<u8>, shape: VoicedShape)
    requires
        same_but_skips(a, b, shape),
        same_but_skips(b, c, shape),
    ensures
        same_but_skips(a, c, shape),
{
    assert forall|p: int| 0 <= p < shape.first_voice() implies #[trigger] a[p] == c[p] by {
        assert(a[p] == b[p] && b[p] == c[p]);
    }
    assert forall|p: int| shape.term() <= p < a.len() implies #[trigger] a[p] == c[p] by {
        assert(a[p] == b[p] && b[p] == c[p]);
    }
    assert forall|m: int, s: int|
        0 <= m < shape.voice.len() && 0 <= s < shape.max_voices implies #[trigger] same_body(
        a,
        c,
        shape,
        m,
        s,
    ) by {
        assert(same_body(a, b, shape, m, s) && same_body(b, c, shape, m, s));
        assert forall|p: int|
            shape.voice_off(m, s) + 4 <= p < shape.voice_off(m, s) + shape.stride(
                m,
            ) implies #[trigger] a[p] == c[p] by {
            assert(a[p] == b[p] && b[p] == c[p]);
        }
    }
}

/// Setting one skip word leaves the bodies of the voice records as they are.
proof fn lemma_skip_body(b: Seq<u8>, shape: VoicedShape, k: int, slot: int, v: u32, m: int, s: int)
    requires
        shape.plannable(),
        b.len() == shape.len(),
        0 <= slot < shape.max_voices,
        0 <= k < shape.voice.len(),
        0 <= m < shape.voice.len(),
        0 <= s < shape.max_voices,
    ensures
        same_body(b, put_word(b, shape.voice_off(k, slot), v), shape, m, s),
{
    shape.lemma_front();
    shape.lemma_term();
    shape.lemma_voice_off(k, slot);
    shape.lemma_voice_off(m, s);
    if m < k || m == k && s < slot {
        lemma_voice_apart(shape, m, s, k, slot);
    } else if k < m || k == m && slot < s {
        lemma_voice_apart(shape, k, slot, m, s);
    }
}

/// Two distinct voice records have distinct places in the walk.
proof fn lemma_index_apart(shape: VoicedShape, m: int, s: int, n: int, t: int)
    requires
        shape.plannable(),
        0 <= m < shape.voice.len(),
        0 <= s < shape.max_voices,
        0 <= n < shape.voice.len(),
        0 <= t < shape.max_voices,
        m != n || s != t,
    ensures
        shape.index(m, s) != shape.index(n, t),
{
    if m < n || m == n && s < t {
        lemma_voice_apart(shape, m, s, n, t);
    } else {
        lemma_voice_apart(shape, n, t, m, s);
    }
}

/// Setting one skip word leaves everything else as it is.
pub proof fn lemma_skip_voice(b: Seq<u8>, shape: VoicedShape, k: int, slot: int, active: bool)
    requires
        shape.plannable(),
        b.len() == shape.len(),
        holds(b, shape.recs(), shape.block_size, shape.term()),
        0 <= slot < shape.max_voices,
        0 <= k < shape.voice.len(),
    ensures
        ({
            let c = put_word(b, shape.voice_off(k, slot), skip_word(shape, k, slot, active));
            &&& holds(c, shape.recs(), shape.block_size, shape.term())
            &&& same_but_skips(b, c, shape)
            &&& runs(c, shape, k, slot) == active
            &&& forall|m: int, s: int|
                0 <= m < shape.voice.len() && 0 <= s < shape.max_voices && (m != k || s != slot)
                    ==> #[trigger] runs(c, shape, m, s) == runs(b, shape, m, s)
        }),
{
    let recs = shape.recs();
    let bs = shape.block_size;
    let start = shape.records_start();
    let term = shape.term();
    let off = shape.voice_off(k, slot);
    let v = skip_word(shape, k, slot, active);
    let c = put_word(b, off, v);
    shape.lemma_schedule();
    shape.lemma_front();
    shape.lemma_term();
    shape.lemma_index(k, slot);
    shape.lemma_voice_off(k, slot);
    let i = shape.index(k, slot);
    lemma_skip(b, recs, bs, start, term, i, v);
    assert forall|m: int, s: int|
        0 <= m < shape.voice.len() && 0 <= s < shape.max_voices implies #[trigger] same_body(
        b,
        c,
        shape,
        m,
        s,
    ) by {
        lemma_skip_body(b, shape, k, slot, v, m, s);
    }
    assert forall|m: int, s: int|
        0 <= m < shape.voice.len() && 0 <= s < shape.max_voices && (m != k || s
            != slot) implies #[trigger] runs(c, shape, m, s) == runs(b, shape, m, s) by {
        lemma_index_apart(shape, m, s, k, slot);
        shape.lemma_index(m, s);
        assert(recs[shape.index(m, s)].off == shape.voice_off(m, s));
    }
}

/// Setting the skip words of one voice leaves everything else as it is.
pub proof fn lemma_skips(b: Seq<u8>, shape: VoicedShape, slot: int, active: bool, n: int)
    requires
        shape.plannable(),
        b.len() == shape.len(),
        holds(b, shape.recs(), shape.block_size, shape.term()),
        0 <= slot < shape.max_voices,
        0 <= n <= shape.voice.len(),
    ensures
        ({
            let c = skips_set(b, shape, slot, active, n);
            &&& holds(c, shape.recs(), shape.block_size, shape.term())
            &&& same_but_skips(b, c, shape)
            &&& forall|m: int, s: int|
                0 <= m < shape.voice.len() && 0 <= s < shape.max_voices ==> #[trigger] runs(
                    c,
                    shape,
                    m,
                    s,
                ) == if s == slot && m < n {
                    active
                } else {
                    runs(b, shape, m, s)
                }
        }),
    decreases n,
{
    let c = skips_set(b, shape, slot, active, n);
    if n > 0 {
        let a = skips_set(b, shape, slot, active, n - 1);
        lemma_skips(b, shape, slot, active, n - 1);
        lemma_skip_voice(a, shape, n - 1, slot, active);
        lemma_same_but_skips(b, a, c, shape);
        assert forall|m: int, s: int|
            0 <= m < shape.voice.len() && 0 <= s < shape.max_voices implies #[trigger] runs(
            c,
            shape,
            m,
            s,
        ) == if s == slot && m < n {
            active
        } else {
            runs(b, shape, m, s)
        } by {
            assert(runs(a, shape, m, s) == if s == slot && m < n - 1 {
                active
            } else {
                runs(b, shape, m, s)
            });
        }
    }
}

} // verus!
