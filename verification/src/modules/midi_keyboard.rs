//! `midi_keyboard`: a polyphonic voice source driven by a MIDI input device.
//!
//! A single shared instance (built off the audio thread) holds the reading end of a lock-free
//! queue. The MIDI callback pushes note events into the other end; `process` drains them each
//! block, allocating a voice per held note and writing that voice's `pitch` (Hz), `gate`, and
//! `velocity` outputs.

use vstd::prelude::*;
use crate::float::{FloatOp, ONE, ZERO, apply32, eval32, is_float_unit};
use crate::model::{ParamValue, ParamView, Params, settings};
use crate::module::{DescView, Icon, Inputs, InputsView, ModuleDesc, PortDesc, SourceError, SourceType};
use crate::modules::held_voices::{GATE, HeldVoice, HeldVoices, PITCH, Playing, VELOCITY, at_rest, entry, keys_once, law_keys_are_held_once, lemma_lifted_entry, lemma_refreshed_kept, lemma_refreshed_sounds, lemma_stays_at_rest, lemma_struck_entry, lifted, refreshed, slots_exist, sounding, struck};
use crate::numbers::{Arithmetic, computes, finite, law_constants_are_their_numbers, near, size, stands_for, value};
use crate::processing::Tail;
use crate::table::value_of;
use crate::text::{contains, stands_at, within};
use crate::voice_source::{PolyphonicModule, SourceCtx, SourceView, VoiceId, same_setting};

verus! {

/// The module's icon.
pub const ICON: Icon = [
    0b00000000000000000000000000000000,
    0b00000000000000000000000000000000,
    0b00000000000000000000000000000000,
    0b00000000000000000000000000000000,
    0b00000000000000000000000000000000,
    0b00000000000000000000000000000000,
    0b00000000000000000000000000000000,
    0b00000000000000000000000000000000,
    0b00011111111111111111111111111000,
    0b00010011010011010011010011001000,
    0b00010011010011010011010011001000,
    0b00010011010011010011010011001000,
    0b00010011010011010011010011001000,
    0b00010011010011010011010011001000,
    0b00010011010011010011010011001000,
    0b00010011010011010011010011001000,
    0b00010011010011010011010011001000,
    0b00010000010000010000010000001000,
    0b00010000010000010000010000001000,
    0b00010000010000010000010000001000,
    0b00010000010000010000010000001000,
    0b00010000010000010000010000001000,
    0b00010000010000010000010000001000,
    0b00010000010000010000010000001000,
    0b00011111111111111111111111111000,
    0b00000000000000000000000000000000,
    0b00000000000000000000000000000000,
    0b00000000000000000000000000000000,
    0b00000000000000000000000000000000,
    0b00000000000000000000000000000000,
    0b00000000000000000000000000000000,
    0b00000000000000000000000000000000,
];

/// Number of events that the queue has room for.
pub const QUEUE_CAPACITY: usize = 1024;

/// 127 in single precision.
pub const FULL_VELOCITY: u32 = 0x42FE_0000;

/// A note event from the MIDI callback (queued lock-free).
#[derive(Debug, Clone, Copy, PartialEq, Eq, Structural)]
pub struct NoteEvent {
    pub note: u8,
    pub velocity: u8,
    pub on: bool,
}

#[verifier::external_type_specification]
#[verifier::external_body]
#[verifier::reject_recursive_types(T)]
pub struct ExConsumer<T>(rtrb::Consumer<T>);

#[verifier::external_type_specification]
#[verifier::external_body]
#[verifier::reject_recursive_types(T)]
pub struct ExProducer<T>(rtrb::Producer<T>);

/// Number of events that the queue behind its writing end has room for.
pub uninterp spec fn room(queue: rtrb::Producer<NoteEvent>) -> nat;

/// The events that went in at the writing end of a queue since it was made, oldest first.
pub uninterp spec fn sent(queue: rtrb::Producer<NoteEvent>) -> Seq<NoteEvent>;

/// What the reading end of a queue has answered since it was made, oldest first: the event that
/// came out, or nothing where the queue was found empty.
pub uninterp spec fn answers(queue: rtrb::Consumer<NoteEvent>) -> Seq<Option<NoteEvent>>;

/// `rtrb::RingBuffer::new`: the two ends of a queue with room for `capacity` events, through
/// which nothing has gone yet. The bound keeps the buffer within what can be allocated in one
/// piece.
#[verifier::external_body]
fn new_queue(capacity: usize) -> (ends: (rtrb::Producer<NoteEvent>, rtrb::Consumer<NoteEvent>))
    requires
        capacity <= 0x1000_0000,
    ensures
        room(ends.0) == capacity,
        sent(ends.0) == Seq::<NoteEvent>::empty(),
        answers(ends.1) == Seq::<Option<NoteEvent>>::empty(),
{
    rtrb::RingBuffer::new(capacity)
}

/// `rtrb::Consumer::pop`: the oldest event of the queue comes out, if there is one. Which events
/// the other end has put in by now is known to the thread that owns it only, so it is left open
/// whether there is one, and which.
#[verifier::external_body]
fn pop_event(queue: &mut rtrb::Consumer<NoteEvent>) -> (event: Option<NoteEvent>)
    ensures
        answers(*final(queue)) == answers(*old(queue)).push(event),
{
    queue.pop().ok()
}

/// `rtrb::Producer::push`: the event goes in, unless the queue is full. How many events have come
/// out at the other end is known to the thread that owns it only; the queue is not full at any
/// rate while fewer events have gone in than it has room for.
#[verifier::external_body]
fn push_event(queue: &mut rtrb::Producer<NoteEvent>, event: NoteEvent) -> (accepted: bool)
    ensures
        room(*final(queue)) == room(*old(queue)),
        sent(*final(queue)) == if accepted {
            sent(*old(queue)).push(event)
        } else {
            sent(*old(queue))
        },
        sent(*old(queue)).len() < room(*old(queue)) ==> accepted,
{
    queue.push(event).is_ok()
}

/// The event that a MIDI message stands for: note-on (`0x90`, with a velocity above zero) or
/// note-off (`0x80`, or a note-on with velocity zero); nothing for any other message.
pub open spec fn decoded(message: Seq<u8>) -> Option<NoteEvent> {
    if message.len() < 3 {
        None
    } else if message[0] & 0xF0 == 0x90 {
        Some(NoteEvent { note: message[1], velocity: message[2], on: message[2] > 0 })
    } else if message[0] & 0xF0 == 0x80 {
        Some(NoteEvent { note: message[1], velocity: message[2], on: false })
    } else {
        None
    }
}

/// Decodes a MIDI message.
pub fn decode(message: &[u8]) -> (event: Option<NoteEvent>)
    ensures
        event == decoded(message@),
{
    if message.len() < 3 {
        return None;
    }
    let status: u8 = message[0] & 0xF0;
    let note: u8 = message[1];
    let velocity: u8 = message[2];
    if status == 0x90 {
        Some(NoteEvent { note, velocity, on: velocity > 0 })
    } else if status == 0x80 {
        Some(NoteEvent { note, velocity, on: false })
    } else {
        None
    }
}

/// The writing end of a keyboard's queue, for the MIDI callback.
pub struct MidiInlet {
    queue: rtrb::Producer<NoteEvent>,
}

impl MidiInlet {
    /// The events that went in so far, oldest first.
    pub closed spec fn log(&self) -> Seq<NoteEvent> {
        sent(self.queue)
    }

    /// Number of events that the queue has room for.
    pub closed spec fn capacity(&self) -> nat {
        room(self.queue)
    }

    /// Nothing went in yet, and there is room for [`QUEUE_CAPACITY`] events.
    pub open spec fn is_fresh(&self) -> bool {
        self.log() == Seq::<NoteEvent>::empty() && self.capacity() == QUEUE_CAPACITY
    }

    /// Queues the event that `message` stands for. Returns whether an event went in: a message
    /// that stands for none never does, and an event is dropped when the queue is full.
    pub fn receive(&mut self, message: &[u8]) -> (accepted: bool)
        ensures
            final(self).capacity() == old(self).capacity(),
            match decoded(message@) {
                Some(event) => {
                    &&& final(self).log() == if accepted {
                        old(self).log().push(event)
                    } else {
                        old(self).log()
                    }
                    &&& old(self).log().len() < old(self).capacity() ==> accepted
                },
                None => !accepted && final(self).log() == old(self).log(),
            },
    {
        match decode(message) {
            Some(event) => push_event(&mut self.queue, event),
            None => false,
        }
    }
}

/// The voice source.
pub struct MidiKeyboard<F: Fn(FloatOp) -> u64> {
    fp: F,
    events: rtrb::Consumer<NoteEvent>,
    /// The writing end, until the host takes it for its MIDI callback.
    inlet: Option<MidiInlet>,
    /// The voice currently playing each note.
    held: HeldVoices,
}

/// The velocity output of an event.
pub open spec fn velocity_of<F: Fn(FloatOp) -> u64>(fp: F, velocity: u8) -> u32 {
    eval32(fp, FloatOp::Div(eval32(fp, FloatOp::U8ToF32(velocity)), FULL_VELOCITY))
}

/// What is playing once the first `n` events are handled.
pub open spec fn after_events<F: Fn(FloatOp) -> u64>(
    fp: F,
    p: Playing,
    events: Seq<NoteEvent>,
    n: int,
) -> Playing
    decreases n,
{
    if n <= 0 {
        p
    } else {
        let q = after_events(fp, p, events, n - 1);
        let ev = events[n - 1];
        if ev.on {
            struck(q, ev.note, ev.note, velocity_of(fp, ev.velocity))
        } else {
            lifted(q, ev.note)
        }
    }
}

/// What is playing after a block in which `events` came in: they take effect at the start of the
/// block, then every held voice's outputs are refreshed.
pub open spec fn block_played<F: Fn(FloatOp) -> u64>(
    fp: F,
    p: Playing,
    events: Seq<NoteEvent>,
) -> Playing {
    let q = after_events(fp, p, events, events.len() as int);
    Playing { held: q.held, ctx: refreshed(fp, q.held, q.ctx, true, q.held.len() as int) }
}

/// The answers of a queue that is read until it is found empty, where `events` come out. A writer
/// that never pauses is cut off after `u64::MAX` events.
pub open spec fn answers_of(events: Seq<NoteEvent>) -> Seq<Option<NoteEvent>> {
    let some = Seq::new(events.len(), |i: int| Some(events[i]));
    if events.len() < u64::MAX {
        some.push(None)
    } else {
        some
    }
}

/// The queue is read until it is found empty, and the events that come out take the keyboard from
/// one state to the other; `heard` is what the queue has answered so far.
pub open spec fn some_events<F: Fn(FloatOp) -> u64>(
    fp: F,
    heard: (Seq<Option<NoteEvent>>, Seq<Option<NoteEvent>>),
    before: Playing,
    after: Playing,
) -> bool {
    exists|events: Seq<NoteEvent>|
        heard.1 == heard.0 + answers_of(events) && after == #[trigger] block_played(
            fp,
            before,
            events,
        )
}

impl<F: Fn(FloatOp) -> u64> MidiKeyboard<F> {
    /// The float unit.
    pub closed spec fn unit(&self) -> F {
        self.fp
    }

    /// The notes that are held.
    pub closed spec fn holding(&self) -> Seq<HeldVoice> {
        self.held@
    }

    /// What the queue has answered so far, oldest first.
    pub closed spec fn heard(&self) -> Seq<Option<NoteEvent>> {
        answers(self.events)
    }

    /// The writing end of the queue, while it is still here.
    pub closed spec fn kept_inlet(&self) -> Option<MidiInlet> {
        self.inlet
    }

    /// Whether no note is held.
    pub fn is_idle(&self) -> (r: bool)
        ensures
            r == (self.holding().len() == 0),
    {
        self.held.is_empty()
    }

    /// Hands out the writing end of the queue, once.
    pub fn take_inlet(&mut self) -> (inlet: Option<MidiInlet>)
        ensures
            inlet == old(self).kept_inlet(),
            final(self).kept_inlet() is None,
            final(self).unit() == old(self).unit(),
            final(self).holding() == old(self).holding(),
            final(self).heard() == old(self).heard(),
    {
        self.inlet.take()
    }

    /// Takes the events that are in the queue by now: reads it until it is found empty.
    fn drain(&mut self) -> (events: Vec<NoteEvent>)
        ensures
            final(self).unit() == old(self).unit(),
            final(self).holding() == old(self).holding(),
            final(self).heard() == old(self).heard() + answers_of(events@),
            final(self).kept_inlet() == old(self).kept_inlet(),
    {
        let mut events: Vec<NoteEvent> = Vec::new();
        // A writer that never pauses could keep the queue from running empty; the count is there
        // for such a writer and is out of reach for any other.
        let mut left: u64 = u64::MAX;
        while left > 0
            invariant
                self.unit() == old(self).unit(),
                self.holding() == old(self).holding(),
                self.heard() == old(self).heard() + Seq::new(
                    events@.len(),
                    |i: int| Some(events@[i]),
                ),
                events@.len() + left == u64::MAX,
                self.kept_inlet() == old(self).kept_inlet(),
            decreases left,
        {
            let ghost some = Seq::new(events@.len(), |i: int| Some(events@[i]));
            match pop_event(&mut self.events) {
                Some(event) => {
                    events.push(event);
                    assert(Seq::new(events@.len(), |i: int| Some(events@[i])) =~= some.push(
                        Some(event),
                    ));
                },
                None => {
                    return events;
                },
            }
            left = left - 1;
        }
        events
    }

    /// Handles the events of a block and refreshes the held voices.
    pub fn play(&mut self, events: &Vec<NoteEvent>, ctx: &mut SourceCtx)
        requires
            is_float_unit(old(self).unit()),
            old(ctx).wf(),
            slots_exist(old(self).holding(), old(ctx)@.shape.max_voices),
            old(ctx)@.shape.num_source_outputs >= 3,
        ensures
            final(ctx).wf(),
            final(self).unit() == old(self).unit(),
            final(self).heard() == old(self).heard(),
            final(self).kept_inlet() == old(self).kept_inlet(),
            (Playing { held: final(self).holding(), ctx: final(ctx)@ }) == block_played(
                old(self).unit(),
                Playing { held: old(self).holding(), ctx: old(ctx)@ },
                events@,
            ),
            slots_exist(final(self).holding(), old(ctx)@.shape.max_voices),
            final(ctx)@.shape == old(ctx)@.shape,
    {
        let ghost fp = self.fp;
        let ghost start = Playing { held: self.held@, ctx: ctx@ };
        let mut i: usize = 0;
        while i < events.len()
            invariant
                i <= events.len(),
                self.fp == fp,
                self.events == old(self).events,
                self.inlet == old(self).inlet,
                is_float_unit(fp),
                ctx.wf(),
                slots_exist(self.held@, ctx@.shape.max_voices),
                ctx@.shape.num_source_outputs >= 3,
                ctx@.shape == old(ctx)@.shape,
                (Playing { held: self.held@, ctx: ctx@ }) == after_events(
                    fp,
                    start,
                    events@,
                    i as int,
                ),
            decreases events.len() - i,
        {
            let ev = events[i];
            if ev.on {
                let raw: u32 = apply32(&self.fp, FloatOp::U8ToF32(ev.velocity));
                let velocity: u32 = apply32(&self.fp, FloatOp::Div(raw, FULL_VELOCITY));
                self.held.strike(ev.note, ev.note, velocity, ctx);
            } else {
                self.held.lift(ev.note, ctx);
            }
            i = i + 1;
        }
        self.held.refresh(&self.fp, true, ctx);
    }
}

impl<F: Fn(FloatOp) -> u64> PolyphonicModule for MidiKeyboard<F> {
    open spec fn suits(&self, max_voices: int, num_outputs: int) -> bool {
        &&& is_float_unit(self.unit())
        &&& slots_exist(self.holding(), max_voices)
        &&& num_outputs >= 3
    }

    open spec fn plays(before: (Self, SourceView), after: (Self, SourceView), tail: Tail) -> bool {
        &&& tail == Tail::Active
        &&& after.0.unit() == before.0.unit()
        &&& after.0.kept_inlet() == before.0.kept_inlet()
        &&& some_events(
            before.0.unit(),
            (before.0.heard(), after.0.heard()),
            Playing { held: before.0.holding(), ctx: before.1 },
            Playing { held: after.0.holding(), ctx: after.1 },
        )
    }

    fn process(&mut self, ctx: &mut SourceCtx) -> (tail: Tail) {
        let ghost start = Playing { held: self.held@, ctx: ctx@ };
        let ghost fp = self.fp;
        let ghost heard = self.heard();
        // Sample-accurate placement within the block is future work; for now an event takes
        // effect at the start of the block it is observed in.
        let events = self.drain();
        self.play(&events, ctx);
        proof {
            lemma_block_kept(fp, start, events@);
            assert(some_events(
                fp,
                (heard, self.heard()),
                start,
                Playing { held: self.held@, ctx: ctx@ },
            ));
        }
        Tail::Active
    }
}

/// Playing changes the voices and their buffers, and nothing else of the context.
pub proof fn lemma_block_kept<F: Fn(FloatOp) -> u64>(fp: F, p: Playing, events: Seq<NoteEvent>)
    ensures
        same_setting(block_played(fp, p, events).ctx, p.ctx),
{
    let n = events.len() as int;
    lemma_events_kept(fp, p, events, n);
    let q = after_events(fp, p, events, n);
    lemma_refreshed_kept(fp, q.held, q.ctx, true, q.held.len() as int);
}

proof fn lemma_events_kept<F: Fn(FloatOp) -> u64>(
    fp: F,
    p: Playing,
    events: Seq<NoteEvent>,
    n: int,
)
    ensures
        same_setting(after_events(fp, p, events, n).ctx, p.ctx),
    decreases n,
{
    if n > 0 {
        lemma_events_kept(fp, p, events, n - 1);
    }
}

/// The `port` param, if it is a string.
pub open spec fn wanted_port(settings: Map<Seq<char>, ParamView>) -> Option<Seq<char>> {
    match value_of(settings, "port"@) {
        Some(ParamView::Str(s)) => Some(s),
        _ => None,
    }
}

/// A port with this name (`None` if it could not be read) will do: with no wish, or an empty one,
/// any port does; otherwise the name has to contain the wish.
pub open spec fn port_suits(name: Option<Seq<char>>, want: Option<Seq<char>>) -> bool {
    match want {
        Some(w) => w.len() == 0 || match name {
            Some(n) => within(w, n),
            None => false,
        },
        None => true,
    }
}

/// The names of ports, as far as they could be read.
pub open spec fn port_views(names: Seq<Option<String>>) -> Seq<Option<Seq<char>>> {
    Seq::new(
        names.len(),
        |i: int|
            match names[i] {
                Some(n) => Some(n@),
                None => None,
            },
    )
}

/// Selects a MIDI port by substring of the `port` param (first port if unset/empty).
pub fn pick_port(names: &Vec<Option<String>>, params: &Params) -> (port: Option<usize>)
    ensures
        match port {
            Some(i) => {
                &&& i < names.len()
                &&& port_suits(port_views(names@)[i as int], wanted_port(settings(*params)))
                &&& forall|k: int|
                    0 <= k < i ==> !port_suits(
                        #[trigger] port_views(names@)[k],
                        wanted_port(settings(*params)),
                    )
            },
            None => forall|k: int|
                0 <= k < names.len() ==> !port_suits(
                    #[trigger] port_views(names@)[k],
                    wanted_port(settings(*params)),
                ),
        },
{
    let want: Option<&str> = match params.get("port") {
        Some(ParamValue::Str(s)) => Some(s.as_str()),
        _ => None,
    };
    let ghost wish = wanted_port(settings(*params));
    let mut i: usize = 0;
    while i < names.len()
        invariant
            i <= names.len(),
            wish == wanted_port(settings(*params)),
            match want {
                Some(w) => wish == Some(w@),
                None => wish is None,
            },
            forall|k: int| 0 <= k < i ==> !port_suits(#[trigger] port_views(names@)[k], wish),
        decreases names.len() - i,
    {
        let suits: bool = match want {
            Some(w) => if w.unicode_len() == 0 {
                true
            } else {
                match &names[i] {
                    Some(n) => contains(n.as_str(), w),
                    None => false,
                }
            },
            None => true,
        };
        assert(suits == port_suits(port_views(names@)[i as int], wish));
        if suits {
            return Some(i);
        }
        i = i + 1;
    }
    None
}

/// The registered type: `pitch`/`gate`/`velocity` outputs, no inputs.
#[derive(Clone, Copy)]
pub struct MidiKeyboardType<F: Fn(FloatOp) -> u64> {
    pub fp: F,
}

/// The ports of the source.
pub open spec fn midi_desc() -> DescView {
    DescView {
        inputs: InputsView::Fixed(Seq::empty()),
        outputs: seq!["pitch"@, "gate"@, "velocity"@],
        params: Seq::empty(),
    }
}

/// A keyboard with an empty queue and no note held. It plays once the host has connected its
/// inlet to a device; without one it stays silent, so a patch loads even with no MIDI device
/// attached.
pub fn open<F: Fn(FloatOp) -> u64>(fp: F) -> (keyboard: MidiKeyboard<F>)
    ensures
        keyboard.unit() == fp,
        keyboard.holding() == Seq::<HeldVoice>::empty(),
        keyboard.heard() == Seq::<Option<NoteEvent>>::empty(),
        keyboard.kept_inlet() matches Some(inlet) && inlet.is_fresh(),
{
    let (producer, events) = new_queue(QUEUE_CAPACITY);
    MidiKeyboard { fp, events, inlet: Some(MidiInlet { queue: producer }), held: HeldVoices::new() }
}

impl<F: Fn(FloatOp) -> u64 + Copy> SourceType for MidiKeyboardType<F> {
    type Module = MidiKeyboard<F>;

    open spec fn ready(&self) -> bool {
        is_float_unit(self.fp)
    }

    open spec fn desc(&self, settings: Map<Seq<char>, ParamView>) -> DescView {
        midi_desc()
    }

    open spec fn makes(
        &self,
        settings: Map<Seq<char>, ParamView>,
        made: Result<MidiKeyboard<F>, SourceError>,
    ) -> bool {
        match made {
            Ok(keyboard) => {
                &&& keyboard.unit() == self.fp
                &&& keyboard.holding() == Seq::<HeldVoice>::empty()
                &&& keyboard.heard() == Seq::<Option<NoteEvent>>::empty()
                &&& keyboard.kept_inlet() matches Some(inlet) && inlet.is_fresh()
            },
            Err(_) => false,
        }
    }

    open spec fn picture(&self) -> Icon {
        ICON
    }

    fn describe(&self, params: &Params) -> (desc: ModuleDesc) {
        let outputs: Vec<PortDesc> = vec![
            PortDesc::sample("pitch"),
            PortDesc::sample("gate"),
            PortDesc::sample("velocity"),
        ];
        let desc = ModuleDesc { inputs: Inputs::Fixed(Vec::new()), outputs, params: Vec::new() };
        assert(desc@ =~~= midi_desc());
        desc
    }

    fn make(&self, params: &Params) -> (made: Result<MidiKeyboard<F>, SourceError>) {
        Ok(open(self.fp))
    }

    fn icon(&self) -> (icon: Icon) {
        ICON
    }
}

/// A note-on without velocity is a note-off, on whatever channel it comes.
pub proof fn law_note_on_without_velocity_is_note_off(message: Seq<u8>)
    requires
        message.len() >= 3,
        message[0] & 0xF0 == 0x90,
        message[2] == 0,
    ensures
        decoded(message) == Some(NoteEvent { note: message[1], velocity: 0, on: false }),
{
}

/// Whatever events come in, no note is held by two voices.
pub proof fn law_notes_are_held_once<F: Fn(FloatOp) -> u64>(
    fp: F,
    p: Playing,
    events: Seq<NoteEvent>,
    n: int,
)
    requires
        keys_once(p.held),
    ensures
        keys_once(after_events(fp, p, events, n).held),
    decreases n,
{
    if n > 0 {
        law_notes_are_held_once(fp, p, events, n - 1);
        let q = after_events(fp, p, events, n - 1);
        let ev = events[n - 1];
        law_keys_are_held_once(q, ev.note, ev.note, velocity_of(fp, ev.velocity));
    }
}

/// The place of the last of the first `n` events that is about `note`, or -1.
pub open spec fn last_about(events: Seq<NoteEvent>, note: u8, n: int) -> int
    decreases n,
{
    if n <= 0 {
        -1
    } else if events[n - 1].note == note {
        n - 1
    } else {
        last_about(events, note, n - 1)
    }
}

proof fn lemma_events_at_rest<F: Fn(FloatOp) -> u64>(
    fp: F,
    p: Playing,
    events: Seq<NoteEvent>,
    n: int,
)
    requires
        at_rest(p, 3),
    ensures
        at_rest(after_events(fp, p, events, n), 3),
    decreases n,
{
    if n > 0 {
        lemma_events_at_rest(fp, p, events, n - 1);
        let ev = events[n - 1];
        lemma_stays_at_rest(
            after_events(fp, p, events, n - 1),
            ev.note,
            ev.note,
            velocity_of(fp, ev.velocity),
            3,
        );
    }
}

/// After a block, whatever events came in: every held note has a held voice of its own, and that
/// voice carries the note's pitch, an open gate and the note's velocity.
pub proof fn law_held_notes_sound_after_a_block<F: Fn(FloatOp) -> u64>(
    fp: F,
    p: Playing,
    events: Seq<NoteEvent>,
)
    requires
        at_rest(p, 3),
    ensures
        at_rest(block_played(fp, p, events), 3),
        sounding(fp, block_played(fp, p, events), true),
{
    let n = events.len() as int;
    lemma_events_at_rest(fp, p, events, n);
    lemma_refreshed_sounds(fp, after_events(fp, p, events, n), true, 3);
}

proof fn lemma_last_event_decides<F: Fn(FloatOp) -> u64>(
    fp: F,
    p: Playing,
    events: Seq<NoteEvent>,
    n: int,
    note: u8,
)
    requires
        keys_once(p.held),
        0 <= n <= events.len(),
    ensures
        -1 <= last_about(events, note, n) < n,
        entry(after_events(fp, p, events, n).held, note) == decided(
            fp,
            p,
            events,
            last_about(events, note, n),
            note,
        ),
    decreases n,
{
    if n > 0 {
        lemma_last_event_decides(fp, p, events, n - 1, note);
        law_notes_are_held_once(fp, p, events, n - 1);
        let q = after_events(fp, p, events, n - 1);
        let ev = events[n - 1];
        if ev.on {
            lemma_struck_entry(q, ev.note, ev.note, velocity_of(fp, ev.velocity), note);
        } else {
            lemma_lifted_entry(q, ev.note, note);
        }
    }
}

/// What a note holds if event `i` was the last one about it, or none was.
pub open spec fn decided<F: Fn(FloatOp) -> u64>(
    fp: F,
    p: Playing,
    events: Seq<NoteEvent>,
    i: int,
    note: u8,
) -> Option<HeldVoice> {
    let free = after_events(fp, p, events, i).ctx.free;
    if i < 0 {
        entry(p.held, note)
    } else if events[i].on && free.len() > 0 {
        Some(
            HeldVoice {
                key: note,
                voice: VoiceId(free.last()),
                note,
                velocity: velocity_of(fp, events[i].velocity),
            },
        )
    } else {
        None
    }
}

/// After a block a note is held if and only if its last event was a note-on that found a free
/// voice, and then by that voice and with the velocity of that event; a note without an event is
/// held as before.
pub proof fn law_last_event_decides_a_note<F: Fn(FloatOp) -> u64>(
    fp: F,
    p: Playing,
    events: Seq<NoteEvent>,
    note: u8,
)
    requires
        keys_once(p.held),
    ensures
        entry(block_played(fp, p, events).held, note) == decided(
            fp,
            p,
            events,
            last_about(events, note, events.len() as int),
            note,
        ),
{
    lemma_last_event_decides(fp, p, events, events.len() as int, note);
}

/// On a float unit that computes, the velocity output is the velocity's part of the largest one: the
/// rounded quotient, 0 for none, 1 for all of it, and more for a harder stroke.
pub proof fn law_velocity_is_a_part_of_the_largest<F: Fn(FloatOp) -> u64>(
    fp: F,
    m: Arithmetic,
    velocity: u8,
    softer: u8,
)
    requires
        computes(fp, m),
        softer <= velocity,
    ensures
        ({
            let part = velocity_of(fp, velocity);
            &&& finite(part)
            &&& near(
                value(part),
                (velocity as int as real) / (127 as real),
                m.error * (4 as real),
            )
            &&& value(velocity_of(fp, softer)) <= value(part)
            &&& velocity == 0 ==> value(part) == 0 as real
            &&& velocity == 127 ==> value(part) == 1 as real
        }),
{
    law_constants_are_their_numbers();
    assert(value(ZERO) == 0 as real && value(ONE) == 1 as real);
    let v = velocity as int as real;
    let w = softer as int as real;
    let x = v / (127 as real);
    let y = w / (127 as real);
    assert(value(FULL_VELOCITY) == 127 as real);
    assert(stands_for(m, velocity_of(fp, velocity), x));
    assert(stands_for(m, velocity_of(fp, softer), y));
    let e = m.error;
    assert(e * ((1 as real) + size(x)) <= e * (4 as real)) by (nonlinear_arith)
        requires
            (0 as real) <= e,
            size(x) <= 3 as real,
    ;
}

/// The upper four bits of the status byte decide what a message stands for, and the lower four, the
/// channel, do not matter: 9 is a note-on, unless its velocity is 0, and 8 is a note-off. The note
/// is the second byte and the velocity the third.
pub proof fn law_every_channel_is_heard(message: Seq<u8>, kind: int, channel: int)
    requires
        message.len() >= 3,
        0 <= kind < 16,
        0 <= channel < 16,
        message[0] == 16 * kind + channel,
    ensures
        kind == 9 ==> decoded(message) == Some(
            NoteEvent { note: message[1], velocity: message[2], on: message[2] != 0 },
        ),
        kind == 8 ==> decoded(message) == Some(
            NoteEvent { note: message[1], velocity: message[2], on: false },
        ),
        kind != 9 && kind != 8 ==> decoded(message) is None,
{
    let status = message[0];
    assert((status & 0xF0 == 0x90) == (status / 16 == 9) && (status & 0xF0 == 0x80) == (status / 16
        == 8)) by (bit_vector);
}

/// A message of fewer than three bytes stands for nothing.
pub proof fn law_short_messages_stand_for_nothing(message: Seq<u8>)
    requires
        message.len() < 3,
    ensures
        decoded(message) is None,
{
}

/// The outputs have the names of what they carry.
pub proof fn law_outputs_are_named()
    ensures
        midi_desc().outputs.len() == 3,
        midi_desc().outputs[PITCH as int] == "pitch"@,
        midi_desc().outputs[GATE as int] == "gate"@,
        midi_desc().outputs[VELOCITY as int] == "velocity"@,
{
}

/// A port will do if its name contains the wish, wherever in the name it stands; every port will do
/// without a wish; and a name that could not be read contains nothing.
pub proof fn law_port_is_picked_by_part_of_its_name(
    before: Seq<char>,
    wish: Seq<char>,
    after: Seq<char>,
    name: Option<Seq<char>>,
)
    ensures
        port_suits(Some(before + wish + after), Some(wish)),
        port_suits(name, None),
        port_suits(name, Some(Seq::empty())),
        name matches Some(n) ==> wish.len() > n.len() ==> !port_suits(name, Some(wish)),
        wish.len() > 0 ==> !port_suits(None, Some(wish)),
{
    let n = before + wish + after;
    let at = before.len() as int;
    assert(n.subrange(at, at + wish.len()) =~= wish);
    assert(stands_at(wish, n, at));
}

/// A block of the keyboard leaves every held note sounding on a voice of its own, with its velocity; and
/// a block in which the queue was empty changes nothing of what is held.
pub proof fn law_source_sounds_its_held_notes<F: Fn(FloatOp) -> u64>(
    before: (MidiKeyboard<F>, SourceView),
    after: (MidiKeyboard<F>, SourceView),
    tail: Tail,
)
    requires
        MidiKeyboard::<F>::plays(before, after, tail),
        at_rest(Playing { held: before.0.holding(), ctx: before.1 }, 3),
    ensures
        ({
            let p = Playing { held: after.0.holding(), ctx: after.1 };
            &&& tail == Tail::Active
            &&& at_rest(p, 3)
            &&& sounding(before.0.unit(), p, true)
            &&& after.0.heard() == before.0.heard().push(None) ==> after.0.holding()
                == before.0.holding()
        }),
{
    let fp = before.0.unit();
    let p = Playing { held: before.0.holding(), ctx: before.1 };
    let q = Playing { held: after.0.holding(), ctx: after.1 };
    let events = choose|events: Seq<NoteEvent>|
        after.0.heard() == before.0.heard() + answers_of(events) && q == #[trigger] block_played(
            fp,
            p,
            events,
        );
    law_held_notes_sound_after_a_block(fp, p, events);
    if after.0.heard() == before.0.heard().push(None) {
        let n = before.0.heard().len() as int;
        assert(after.0.heard().len() == n + 1);
        assert(answers_of(events).len() == 1);
        assert(after.0.heard()[n] == answers_of(events)[0]);
        if events.len() > 0 {
            assert(answers_of(events)[0] == Some(events[0]));
        }
        assert(events.len() == 0);
    }
}

} // verus!
