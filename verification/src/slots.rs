//! Voice slots: which are free, held or released.

use vstd::prelude::*;

verus! {

/// What a slot is doing.
#[derive(Debug, Clone, Copy, PartialEq, Eq, Structural)]
pub enum SlotState {
    Free,
    Held,
    Released,
}

/// Engine-side voice bookkeeping: which slots are free / held / released. Pure bookkeeping:
/// it never touches the plan buffer (the engine reflects allocations into the plan).
pub struct SlotManager {
    state: Vec<SlotState>,
    free: Vec<usize>,
}

/// The released slots among the first `n` that nothing keeps alive, in ascending order.
pub open spec fn reapable(states: Seq<SlotState>, alive: Seq<bool>, n: int) -> Seq<usize>
    decreases n,
{
    if n <= 0 {
        Seq::empty()
    } else if states[n - 1] == SlotState::Released && !alive[n - 1] {
        reapable(states, alive, n - 1).push((n - 1) as usize)
    } else {
        reapable(states, alive, n - 1)
    }
}

/// The slots' states once the reapable ones are free.
pub open spec fn reaped(states: Seq<SlotState>, alive: Seq<bool>) -> Seq<SlotState> {
    Seq::new(
        states.len(),
        |i: int|
            if states[i] == SlotState::Released && !alive[i] {
                SlotState::Free
            } else {
                states[i]
            },
    )
}

/// Number of voices among the first `n` slots.
pub open spec fn voices(states: Seq<SlotState>, n: int) -> int
    decreases n,
{
    if n <= 0 {
        0
    } else {
        voices(states, n - 1) + if states[n - 1] == SlotState::Free {
            0int
        } else {
            1
        }
    }
}

/// The contents of a [`SlotManager`].
#[verifier::ext_equal]
pub struct SlotsView {
    /// What each slot is doing.
    pub states: Seq<SlotState>,
    /// The free slots; the last one is the next to be claimed.
    pub free: Seq<usize>,
}

/// The free list holds each free slot once, and nothing else.
pub open spec fn in_order(s: SlotsView) -> bool {
    &&& s.free.no_duplicates()
    &&& s.states.len() <= usize::MAX
    &&& forall|i: int|
        0 <= i < s.free.len() ==> #[trigger] s.free[i] < s.states.len()
            && s.states[s.free[i] as int] == SlotState::Free
    &&& forall|slot: usize|
        slot < s.states.len() && #[trigger] s.states[slot as int] == SlotState::Free
            ==> s.free.contains(slot)
}

/// `max_voices` free slots.
pub open spec fn all_free(max_voices: usize) -> SlotsView {
    SlotsView {
        states: Seq::new(max_voices as nat, |i: int| SlotState::Free),
        free: Seq::new(max_voices as nat, |i: int| (max_voices - 1 - i) as usize),
    }
}

/// What can be done to slots.
pub enum SlotOp {
    Claim,
    Release(usize),
    /// With which slots are still producing output.
    Reap(Seq<bool>),
}

/// The slots once something has been done to them.
pub open spec fn stepped(s: SlotsView, op: SlotOp) -> SlotsView {
    match op {
        SlotOp::Claim => if s.free.len() == 0 {
            s
        } else {
            SlotsView {
                states: s.states.update(s.free.last() as int, SlotState::Held),
                free: s.free.drop_last(),
            }
        },
        SlotOp::Release(slot) => if s.states[slot as int] == SlotState::Held {
            SlotsView {
                states: s.states.update(slot as int, SlotState::Released),
                free: s.free,
            }
        } else {
            s
        },
        SlotOp::Reap(alive) => SlotsView {
            states: reaped(s.states, alive),
            free: s.free + reapable(s.states, alive, s.states.len() as int),
        },
    }
}

impl View for SlotManager {
    type V = SlotsView;

    open spec fn view(&self) -> SlotsView {
        SlotsView { states: self.states(), free: self.free() }
    }
}

impl SlotManager {
    /// What each slot is doing.
    pub closed spec fn states(&self) -> Seq<SlotState> {
        self.state@
    }

    /// The free slots; the last one is the next to be claimed.
    pub closed spec fn free(&self) -> Seq<usize> {
        self.free@
    }

    /// The free list is in order.
    pub open spec fn wf(&self) -> bool {
        in_order(self@)
    }

    /// `max_voices` free slots.
    pub fn new(max_voices: usize) -> (slots: SlotManager)
        ensures
            slots.wf(),
            slots@ == all_free(max_voices),
    {
        let mut state: Vec<SlotState> = Vec::new();
        let mut free: Vec<usize> = Vec::new();
        let mut i: usize = 0;
        while i < max_voices
            invariant
                i <= max_voices,
                state@ =~= Seq::new(i as nat, |i: int| SlotState::Free),
                free@ =~= Seq::new(i as nat, |i: int| (max_voices - 1 - i) as usize),
            decreases max_voices - i,
        {
            state.push(SlotState::Free);
            free.push(max_voices - 1 - i);
            i = i + 1;
        }
        let slots = SlotManager { state, free };
        proof {
            assert forall|slot: usize|
                slot < max_voices && #[trigger] slots.states()[slot as int]
                    == SlotState::Free implies slots.free().contains(slot) by {
                assert(slots.free()[max_voices - 1 - slot] == slot);
            }
        }
        slots
    }

    /// Claims a free slot, if there is one.
    pub fn claim(&mut self) -> (slot: Option<usize>)
        requires
            old(self).wf(),
        ensures
            final(self).wf(),
            slot is None <==> old(self).free().len() == 0,
            slot is None <==> forall|s: int|
                0 <= s < old(self).states().len() ==> #[trigger] old(self).states()[s]
                    != SlotState::Free,
            final(self)@ == stepped(old(self)@, SlotOp::Claim),
            match slot {
                None => final(self).states() == old(self).states() && final(self).free() == old(
                    self,
                ).free(),
                Some(s) => {
                    &&& s == old(self).free().last()
                    &&& s < old(self).states().len()
                    &&& old(self).states()[s as int] == SlotState::Free
                    &&& final(self).free() == old(self).free().drop_last()
                    &&& final(self).states() == old(self).states().update(s as int, SlotState::Held)
                },
            },
    {
        let ghost before = *self;
        match self.free.pop() {
            None => {
                proof {
                    assert forall|s: int| 0 <= s < before.states().len() implies #[trigger]
                    before.states()[s] != SlotState::Free by {
                        if before.states()[s] == SlotState::Free {
                            assert(before@.states[(s as usize) as int] == SlotState::Free);
                            assert(before.free().contains(s as usize));
                        }
                    }
                }
                None
            },
            Some(slot) => {
                proof {
                    assert(before.free()[before.free().len() - 1] == slot);
                }
                self.state.set(slot, SlotState::Held);
                proof {
                    let n = before.free().len() as int;
                    assert forall|i: int| 0 <= i < self.free().len() implies #[trigger] self.free()[i]
                        < self.states().len() && self.states()[self.free()[i] as int]
                        == SlotState::Free by {
                        assert(before.free()[i] == self.free()[i]);
                        assert(before.free()[i] != before.free()[n - 1]);
                    }
                    assert forall|s: usize|
                        s < self.states().len() && #[trigger] self.states()[s as int]
                            == SlotState::Free implies self.free().contains(s) by {
                        assert(before.states()[s as int] == SlotState::Free);
                        let i = choose|i: int|
                            0 <= i < before.free().len() && before.free()[i] == s;
                        assert(self.free()[i] == s);
                    }
                }
                Some(slot)
            },
        }
    }

    /// Marks a held slot released.
    pub fn release(&mut self, slot: usize)
        requires
            old(self).wf(),
            slot < old(self).states().len(),
        ensures
            final(self).wf(),
            final(self)@ == stepped(old(self)@, SlotOp::Release(slot)),
            final(self).free() == old(self).free(),
            final(self).states() == if old(self).states()[slot as int] == SlotState::Held {
                old(self).states().update(slot as int, SlotState::Released)
            } else {
                old(self).states()
            },
    {
        let ghost before = *self;
        if self.state[slot] == SlotState::Held {
            self.state.set(slot, SlotState::Released);
            proof {
                assert forall|s: usize|
                    s < self.states().len() && #[trigger] self.states()[s as int]
                        == SlotState::Free implies self.free().contains(s) by {
                    assert(before.states()[s as int] == SlotState::Free);
                }
            }
        }
    }

    /// Whether slot `slot` currently holds a voice (so the engine sums it at the output).
    pub fn is_active(&self, slot: usize) -> (r: bool)
        requires
            slot < self.states().len(),
        ensures
            r == (self.states()[slot as int] != SlotState::Free),
    {
        self.state[slot] != SlotState::Free
    }

    /// Free released slots whose voice records all reported `Tail::Done` (`!alive`). Returns the
    /// freed slots so the engine can disable them in the plan.
    pub fn reap(&mut self, alive: &Vec<bool>) -> (freed: Vec<usize>)
        requires
            old(self).wf(),
            old(self).states().len() <= alive.len(),
        ensures
            final(self).wf(),
            freed@ == reapable(old(self).states(), alive@, old(self).states().len() as int),
            final(self)@ == stepped(old(self)@, SlotOp::Reap(alive@)),
            final(self).states() == reaped(old(self).states(), alive@),
            final(self).free() == old(self).free() + freed@,
    {
        let ghost before = self.states();
        let ghost was_free = self.free();
        let mut freed: Vec<usize> = Vec::new();
        let mut slot: usize = 0;
        while slot < self.state.len()
            invariant
                self.wf(),
                slot <= self.state.len() == before.len() <= alive.len(),
                freed@ == reapable(before, alive@, slot as int),
                self.states() =~= reaped(before.take(slot as int), alive@) + before.skip(
                    slot as int,
                ),
                self.free() == was_free + freed@,
            decreases self.state.len() - slot,
        {
            let ghost mid = *self;
            assert(self.states()[slot as int] == before[slot as int]);
            if self.state[slot] == SlotState::Released && !alive[slot] {
                self.state.set(slot, SlotState::Free);
                self.free.push(slot);
                freed.push(slot);
                proof {
                    lemma_freed(mid, *self, slot);
                    assert(self.free() =~= was_free + freed@);
                }
            }
            slot = slot + 1;
        }
        assert(self.states() =~= reaped(before, alive@));
        freed
    }
}

/// Freeing a slot that is not free keeps the free list in order.
proof fn lemma_freed(before: SlotManager, after: SlotManager, slot: usize)
    requires
        before.wf(),
        slot < before.states().len(),
        before.states()[slot as int] != SlotState::Free,
        after.states() == before.states().update(slot as int, SlotState::Free),
        after.free() == before.free().push(slot),
    ensures
        after.wf(),
{
    let n = before.free().len() as int;
    assert forall|i: int| 0 <= i < after.free().len() implies #[trigger] after.free()[i]
        < after.states().len() && after.states()[after.free()[i] as int] == SlotState::Free by {
        if i < n {
            assert(before.free()[i] == after.free()[i]);
        }
    }
    assert forall|i: int, j: int|
        0 <= i < after.free().len() && 0 <= j < after.free().len() && i != j implies after.free()[i]
        != after.free()[j] by {
        if i < n {
            assert(before.free()[i] == after.free()[i]);
            assert(before.states()[before.free()[i] as int] == SlotState::Free);
        }
        if j < n {
            assert(before.free()[j] == after.free()[j]);
            assert(before.states()[before.free()[j] as int] == SlotState::Free);
        }
    }
    assert forall|s: usize|
        s < after.states().len() && #[trigger] after.states()[s as int]
            == SlotState::Free implies after.free().contains(s) by {
        if s == slot {
            assert(after.free()[n] == slot);
        } else {
            assert(before.states()[s as int] == SlotState::Free);
            let i = choose|i: int| 0 <= i < before.free().len() && before.free()[i] == s;
            assert(after.free()[i] == s);
        }
    }
}

/// The free slots among the first `n`.
spec fn free_set(states: Seq<SlotState>, n: int) -> Set<usize> {
    Set::new(|s: usize| s < n && states[s as int] == SlotState::Free)
}

/// A slot is free or holds a voice.
proof fn lemma_count(states: Seq<SlotState>, n: int)
    requires
        0 <= n <= states.len() <= usize::MAX,
    ensures
        free_set(states, n).finite(),
        free_set(states, n).len() + voices(states, n) == n,
    decreases n,
{
    if n == 0 {
        assert(free_set(states, 0) =~= Set::empty());
    } else {
        lemma_count(states, n - 1);
        let last = (n - 1) as usize;
        if states[n - 1] == SlotState::Free {
            assert(free_set(states, n) =~= free_set(states, n - 1).insert(last));
        } else {
            assert(free_set(states, n) =~= free_set(states, n - 1));
        }
    }
}

/// No slot is lost or counted twice: the free slots and the voices make up all slots.
pub proof fn law_slots_add_up(slots: SlotManager)
    requires
        slots.wf(),
    ensures
        slots.free().len() + voices(slots.states(), slots.states().len() as int)
            == slots.states().len(),
{
    lemma_slots_add_up(slots@);
}

proof fn lemma_slots_add_up(s: SlotsView)
    requires
        in_order(s),
    ensures
        s.free.len() + voices(s.states, s.states.len() as int) == s.states.len(),
{
    let n = s.states.len() as int;
    lemma_count(s.states, n);
    s.free.unique_seq_to_set();
    assert(free_set(s.states, n) =~= s.free.to_set()) by {
        assert forall|slot: usize| free_set(s.states, n).contains(slot)
            <==> s.free.to_set().contains(slot) by {
            if free_set(s.states, n).contains(slot) {
                assert(s.states[slot as int] == SlotState::Free);
                assert(s.free.contains(slot));
            }
            if s.free.contains(slot) {
                let i = choose|i: int| 0 <= i < s.free.len() && s.free[i] == slot;
                assert(s.free[i] < n);
            }
        }
    }
}

/// Reaping frees a slot if and only if it was released and nothing keeps it alive; a held slot
/// is never freed.
pub proof fn law_reap_frees_finished_voices(states: Seq<SlotState>, alive: Seq<bool>, slot: usize)
    requires
        slot < states.len() <= usize::MAX,
        states.len() <= alive.len(),
    ensures
        reapable(states, alive, states.len() as int).contains(slot) <==> states[slot as int]
            == SlotState::Released && !alive[slot as int],
        reaped(states, alive)[slot as int] == SlotState::Free <==> states[slot as int]
            == SlotState::Free || reapable(states, alive, states.len() as int).contains(slot),
        states[slot as int] == SlotState::Held ==> reaped(states, alive)[slot as int]
            == SlotState::Held,
{
    lemma_reapable(states, alive, states.len() as int, slot);
}

proof fn lemma_reapable(states: Seq<SlotState>, alive: Seq<bool>, n: int, slot: usize)
    requires
        0 <= n <= states.len() <= alive.len(),
        n <= usize::MAX,
    ensures
        reapable(states, alive, n).contains(slot) <==> slot < n && states[slot as int]
            == SlotState::Released && !alive[slot as int],
    decreases n,
{
    if n > 0 {
        lemma_reapable(states, alive, n - 1, slot);
        let prev = reapable(states, alive, n - 1);
        if states[n - 1] == SlotState::Released && !alive[n - 1] {
            let all = prev.push((n - 1) as usize);
            assert(all[prev.len() as int] == n - 1);
            if prev.contains(slot) {
                let i = choose|i: int| 0 <= i < prev.len() && prev[i] == slot;
                assert(all[i] == slot);
            }
            if all.contains(slot) && slot != n - 1 {
                let i = choose|i: int| 0 <= i < all.len() && all[i] == slot;
                assert(prev[i] == slot);
            }
        }
    }
}

/// The slots after the first `k` of some steps.
pub open spec fn after_steps(start: SlotsView, ops: Seq<SlotOp>, k: int) -> SlotsView
    decreases k,
{
    if k <= 0 {
        start
    } else {
        stepped(after_steps(start, ops, k - 1), ops[k - 1])
    }
}

/// The steps are about slots that are there.
pub open spec fn about(ops: Seq<SlotOp>, max_voices: usize) -> bool {
    forall|i: int|
        0 <= i < ops.len() ==> match #[trigger] ops[i] {
            SlotOp::Claim => true,
            SlotOp::Release(slot) => slot < max_voices,
            SlotOp::Reap(alive) => max_voices <= alive.len(),
        }
}

/// Step `i` is a claim that returns `slot`.
pub open spec fn claims(start: SlotsView, ops: Seq<SlotOp>, i: int, slot: usize) -> bool {
    let s = after_steps(start, ops, i);
    ops[i] == SlotOp::Claim && s.free.len() > 0 && s.free.last() == slot
}

/// Step `i` is a reap that frees `slot`.
pub open spec fn reaps(start: SlotsView, ops: Seq<SlotOp>, i: int, slot: usize) -> bool {
    let s = after_steps(start, ops, i);
    ops[i] matches SlotOp::Reap(alive) && reapable(s.states, alive, s.states.len() as int).contains(
        slot,
    )
}

/// Some claim among the first `k` steps has returned `slot`, and no reap since has freed it.
pub open spec fn in_use(start: SlotsView, ops: Seq<SlotOp>, k: int, slot: usize) -> bool {
    exists|i: int|
        0 <= i < k && #[trigger] claims(start, ops, i, slot) && forall|j: int|
            i < j < k ==> !#[trigger] reaps(start, ops, j, slot)
}

/// Every step keeps the free list in order, and the number of slots.
pub proof fn lemma_stepped(s: SlotsView, op: SlotOp)
    requires
        in_order(s),
        op matches SlotOp::Release(slot) ==> slot < s.states.len(),
        op matches SlotOp::Reap(alive) ==> s.states.len() <= alive.len(),
    ensures
        in_order(stepped(s, op)),
        stepped(s, op).states.len() == s.states.len(),
{
    let t = stepped(s, op);
    match op {
        SlotOp::Claim => {
            if s.free.len() > 0 {
                let n = s.free.len() as int;
                let last = s.free.last();
                assert(s.free[n - 1] == last);
                assert forall|i: int| 0 <= i < t.free.len() implies #[trigger] t.free[i]
                    < t.states.len() && t.states[t.free[i] as int] == SlotState::Free by {
                    assert(s.free[i] == t.free[i]);
                    assert(s.free[i] != s.free[n - 1]);
                }
                assert forall|slot: usize|
                    slot < t.states.len() && #[trigger] t.states[slot as int]
                        == SlotState::Free implies t.free.contains(slot) by {
                    assert(s.states[slot as int] == SlotState::Free);
                    let i = choose|i: int| 0 <= i < s.free.len() && s.free[i] == slot;
                    assert(t.free[i] == slot);
                }
            }
        },
        SlotOp::Release(slot) => {
            assert forall|r: usize|
                r < t.states.len() && #[trigger] t.states[r as int]
                    == SlotState::Free implies t.free.contains(r) by {
                assert(s.states[r as int] == SlotState::Free);
            }
        },
        SlotOp::Reap(alive) => {
            lemma_reaped(s, alive);
        },
    }
}

proof fn lemma_reaped(s: SlotsView, alive: Seq<bool>)
    requires
        in_order(s),
        s.states.len() <= alive.len(),
    ensures
        in_order(stepped(s, SlotOp::Reap(alive))),
{
    let n = s.states.len() as int;
    let t = stepped(s, SlotOp::Reap(alive));
    let freed = reapable(s.states, alive, n);
    lemma_reapable_once(s.states, alive, n);
    assert forall|i: int| 0 <= i < t.free.len() implies #[trigger] t.free[i] < t.states.len()
        && t.states[t.free[i] as int] == SlotState::Free by {
        if i < s.free.len() {
            assert(t.free[i] == s.free[i]);
        } else {
            let slot = freed[i - s.free.len()];
            assert(t.free[i] == slot);
            assert(freed.contains(slot));
            lemma_reapable(s.states, alive, n, slot);
        }
    }
    assert forall|i: int, j: int|
        0 <= i < t.free.len() && 0 <= j < t.free.len() && i != j implies t.free[i]
        != t.free[j] by {
        let m = s.free.len() as int;
        if i >= m {
            assert(freed.contains(freed[i - m]));
            lemma_reapable(s.states, alive, n, freed[i - m]);
        } else {
            assert(s.states[s.free[i] as int] == SlotState::Free);
        }
        if j >= m {
            assert(freed.contains(freed[j - m]));
            lemma_reapable(s.states, alive, n, freed[j - m]);
        } else {
            assert(s.states[s.free[j] as int] == SlotState::Free);
        }
    }
    assert forall|slot: usize|
        slot < t.states.len() && #[trigger] t.states[slot as int]
            == SlotState::Free implies t.free.contains(slot) by {
        lemma_reapable(s.states, alive, n, slot);
        if s.states[slot as int] == SlotState::Free {
            let i = choose|i: int| 0 <= i < s.free.len() && s.free[i] == slot;
            assert(t.free[i] == slot);
        } else {
            let i = choose|i: int| 0 <= i < freed.len() && freed[i] == slot;
            assert(t.free[s.free.len() + i] == slot);
        }
    }
}

proof fn lemma_reapable_once(states: Seq<SlotState>, alive: Seq<bool>, n: int)
    requires
        0 <= n <= states.len() <= usize::MAX,
    ensures
        reapable(states, alive, n).no_duplicates(),
        forall|i: int|
            0 <= i < reapable(states, alive, n).len() ==> #[trigger] reapable(states, alive, n)[i] < n,
    decreases n,
{
    if n > 0 {
        lemma_reapable_once(states, alive, n - 1);
    }
}

/// However slots have been claimed, released and reaped: the free list is in order.
pub proof fn law_slots_stay_in_order(max_voices: usize, ops: Seq<SlotOp>, k: int)
    requires
        about(ops, max_voices),
        0 <= k <= ops.len(),
    ensures
        in_order(after_steps(all_free(max_voices), ops, k)),
        after_steps(all_free(max_voices), ops, k).states.len() == max_voices,
    decreases k,
{
    let start = all_free(max_voices);
    if k > 0 {
        law_slots_stay_in_order(max_voices, ops, k - 1);
        assert(match ops[k - 1] {
            SlotOp::Claim => true,
            SlotOp::Release(slot) => slot < max_voices,
            SlotOp::Reap(alive) => max_voices <= alive.len(),
        });
        lemma_stepped(after_steps(start, ops, k - 1), ops[k - 1]);
    } else {
        assert forall|slot: usize|
            slot < max_voices && #[trigger] start.states[slot as int]
                == SlotState::Free implies start.free.contains(slot) by {
            assert(start.free[max_voices - 1 - slot] == slot);
        }
    }
}

/// However slots have been claimed, released and reaped: a slot is active if and only if some claim
/// has returned it and no reap has freed it since. A slot that is released but not reaped is still
/// active.
pub proof fn law_active_since_claimed(max_voices: usize, ops: Seq<SlotOp>, k: int, slot: usize)
    requires
        about(ops, max_voices),
        0 <= k <= ops.len(),
        slot < max_voices,
    ensures
        after_steps(all_free(max_voices), ops, k).states[slot as int] != SlotState::Free <==> in_use(
            all_free(max_voices),
            ops,
            k,
            slot,
        ),
    decreases k,
{
    let start = all_free(max_voices);
    if k > 0 {
        law_active_since_claimed(max_voices, ops, k - 1, slot);
        law_slots_stay_in_order(max_voices, ops, k - 1);
        let s = after_steps(start, ops, k - 1);
        let t = after_steps(start, ops, k);
        assert(t == stepped(s, ops[k - 1]));
        assert(match ops[k - 1] {
            SlotOp::Claim => true,
            SlotOp::Release(slot) => slot < max_voices,
            SlotOp::Reap(alive) => max_voices <= alive.len(),
        });
        if let SlotOp::Reap(alive) = ops[k - 1] {
            lemma_reapable(s.states, alive, s.states.len() as int, slot);
        }
        if s.free.len() > 0 {
            assert(s.free[s.free.len() - 1] < s.states.len());
        }
        let now_claimed = claims(start, ops, k - 1, slot);
        let now_reaped = reaps(start, ops, k - 1, slot);
        assert(t.states[slot as int] != SlotState::Free <==> now_claimed || (s.states[slot as int]
            != SlotState::Free && !now_reaped));
        if in_use(start, ops, k, slot) {
            let i = choose|i: int|
                0 <= i < k && #[trigger] claims(start, ops, i, slot) && forall|j: int|
                    i < j < k ==> !#[trigger] reaps(start, ops, j, slot);
            if i < k - 1 {
                assert(!reaps(start, ops, k - 1, slot));
                assert(in_use(start, ops, k - 1, slot));
            }
        }
        if now_claimed {
            assert(in_use(start, ops, k, slot));
        } else if in_use(start, ops, k - 1, slot) && !now_reaped {
            let i = choose|i: int|
                0 <= i < k - 1 && #[trigger] claims(start, ops, i, slot) && forall|j: int|
                    i < j < k - 1 ==> !#[trigger] reaps(start, ops, j, slot);
            assert forall|j: int| i < j < k implies !#[trigger] reaps(start, ops, j, slot) by {
                if j < k - 1 {
                    assert(!reaps(start, ops, j, slot));
                }
            }
            assert(in_use(start, ops, k, slot));
        }
    }
}

/// The number of free slots is the number of claims in a row that succeed: each of as many claims
/// finds a slot, and then there is none left.
pub proof fn law_free_slots_can_be_claimed(s: SlotsView, k: nat)
    requires
        in_order(s),
    ensures
        ({
            let ops = Seq::new(k, |i: int| SlotOp::Claim);
            let free = s.states.len() - voices(s.states, s.states.len() as int);
            &&& s.free.len() == free
            &&& forall|i: int|
                0 <= i <= k ==> (#[trigger] after_steps(s, ops, i)).free.len() == if i < free {
                    free - i
                } else {
                    0
                }
        }),
{
    lemma_slots_add_up(s);
    let ops = Seq::new(k, |i: int| SlotOp::Claim);
    let free = s.free.len() as int;
    assert forall|i: int| 0 <= i <= k implies (#[trigger] after_steps(s, ops, i)).free.len() == if i
        < free {
        free - i
    } else {
        0
    } by {
        lemma_claims(s, k, i);
    }
}

proof fn lemma_claims(s: SlotsView, n: nat, k: int)
    requires
        0 <= k <= n,
    ensures
        after_steps(s, Seq::new(n, |i: int| SlotOp::Claim), k).free.len() == if k < s.free.len() {
            s.free.len() - k
        } else {
            0
        },
    decreases k,
{
    if k > 0 {
        lemma_claims(s, n, k - 1);
    }
}

/// A slot goes from free to held when it is claimed, from held to released when it is let go, and from
/// released to free when it is reaped with nothing left to sound; nothing else changes it. Among fresh
/// slots the first is claimed first.
pub proof fn law_slots_go_round(s: SlotsView, op: SlotOp, slot: usize)
    requires
        in_order(s),
        slot < s.states.len(),
        op matches SlotOp::Release(r) ==> r < s.states.len(),
        op matches SlotOp::Reap(alive) ==> s.states.len() <= alive.len(),
    ensures
        ({
            let t = stepped(s, op);
            let was = s.states[slot as int];
            let is = t.states[slot as int];
            &&& t.states.len() == s.states.len()
            &&& op is Claim ==> if s.free.len() > 0 && slot == s.free.last() {
                was == SlotState::Free && is == SlotState::Held
            } else {
                is == was
            }
            &&& op matches SlotOp::Release(r) ==> is == if r == slot && was == SlotState::Held {
                SlotState::Released
            } else {
                was
            }
            &&& op matches SlotOp::Reap(alive) ==> is == if was == SlotState::Released
                && !alive[slot as int] {
                SlotState::Free
            } else {
                was
            }
            &&& op is Release ==> t.free == s.free
            &&& op is Claim && s.free.len() > 0 ==> t.free == s.free.drop_last()
        }),
        forall|n: usize| n > 0 ==> (#[trigger] all_free(n)).free.last() == 0,
{
    if s.free.len() > 0 {
        assert(s.free[s.free.len() - 1] < s.states.len());
    }
}

} // verus!
