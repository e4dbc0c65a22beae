//! The requests in flight: which ids are taken, and the stop condition of each.
use crate::decoding::{StopCondition, StopState};
use vstd::prelude::*;

verus! {

/// One registered request, apart from how it is stored.
pub struct Slot {
    /// The id under which the engine knows the request.
    pub id: u32,
    /// Its stop condition.
    pub state: StopState,
}

/// The ids of the registered requests, in the order of their admission.
pub open spec fn slot_ids(slots: Seq<Slot>) -> Seq<u32> {
    slots.map_values(|s: Slot| s.id)
}

/// Whether a request is registered under `id`.
pub open spec fn registered(slots: Seq<Slot>, id: u32) -> bool {
    slot_ids(slots).contains(id)
}

/// Where the request with this id stands.
pub open spec fn place(slots: Seq<Slot>, id: u32) -> int {
    slot_ids(slots).index_of(id)
}

/// No id is registered twice, and every stop condition can take a step.
pub open spec fn well_formed(slots: Seq<Slot>) -> bool {
    &&& slot_ids(slots).no_duplicates()
    &&& forall|i: int| 0 <= i < slots.len() ==> (#[trigger] slots[i]).state.steps < usize::MAX
}

/// What is to be done with a piece of text that the engine produced.
#[derive(Clone, Copy, Debug, PartialEq, Eq, Structural)]
pub enum Dispatch {
    /// Nobody is registered under the id: the text is dropped.
    Discard,
    /// The text goes to the request, which stays registered.
    Deliver,
    /// The text goes to the request, and it is the last: the request has left
    /// the registry, the engine is to stop it and its channel is to be closed.
    DeliverAndClose,
}

/// The registry after a piece of text for `id`, and what is to be done with
/// the text. A request that is not registered gets nothing and changes
/// nothing. A registered one takes a step with the text; where its stop
/// condition then says stop it leaves the registry, else it stays, one step on.
pub open spec fn dispatched(slots: Seq<Slot>, id: u32, delta: Seq<char>) -> (Seq<Slot>, Dispatch) {
    if !registered(slots, id) {
        (slots, Dispatch::Discard)
    } else {
        let i = place(slots, id);
        let state = slots[i].state.next(delta);
        if state.stops() {
            (slots.remove(i), Dispatch::DeliverAndClose)
        } else {
            (slots.update(i, Slot { id, state }), Dispatch::Deliver)
        }
    }
}

/// The registry after `id` has been cancelled: without it, if it was there.
pub open spec fn cancelled(slots: Seq<Slot>, id: u32) -> Seq<Slot> {
    if registered(slots, id) {
        slots.remove(place(slots, id))
    } else {
        slots
    }
}

/// The id that is tried after `id`: the next number, and 0 after the largest.
pub open spec fn next_candidate(id: u32) -> u32 {
    if id == u32::MAX {
        0
    } else {
        (id + 1) as u32
    }
}

/// The first id from `start` on, in the order of `next_candidate`, that is not
/// among `ids`, looking at `tries + 1` candidates.
pub open spec fn first_free(ids: Seq<u32>, start: u32, tries: nat) -> Option<u32>
    decreases tries,
{
    if !ids.contains(start) {
        Some(start)
    } else if tries == 0 {
        None
    } else {
        first_free(ids, next_candidate(start), (tries - 1) as nat)
    }
}

/// The `k`-th candidate from `start` on.
pub open spec fn candidate(start: u32, k: int) -> u32 {
    ((start + k) % 0x1_0000_0000) as u32
}

proof fn lemma_candidate_step(start: u32, k: int)
    requires
        0 <= k,
    ensures
        candidate(next_candidate(start), k) == candidate(start, k + 1),
        candidate(start, 0) == start,
{
}

/// Where the search finds nothing, every candidate it looked at is taken.
proof fn lemma_none_means_taken(ids: Seq<u32>, start: u32, tries: nat)
    requires
        first_free(ids, start, tries) is None,
    ensures
        forall|k: int| 0 <= k <= tries ==> ids.contains(#[trigger] candidate(start, k)),
    decreases tries,
{
    lemma_candidate_step(start, 0);
    if tries > 0 {
        lemma_none_means_taken(ids, next_candidate(start), (tries - 1) as nat);
        assert forall|k: int| 0 <= k <= tries implies ids.contains(#[trigger] candidate(start, k)) by {
            if k > 0 {
                lemma_candidate_step(start, k - 1);
                assert(ids.contains(candidate(next_candidate(start), k - 1)));
            }
        }
    }
}

/// Among more candidates than there are ids one is free: the search succeeds
/// as long as fewer than 2^32 ids are taken.
pub proof fn lemma_free_id_exists(ids: Seq<u32>, start: u32)
    requires
        ids.no_duplicates(),
        ids.len() < 0x1_0000_0000,
    ensures
        first_free(ids, start, ids.len()) is Some,
{
    if first_free(ids, start, ids.len()) is None {
        let n = ids.len() as int;
        lemma_none_means_taken(ids, start, ids.len());
        let range = vstd::set_lib::set_int_range(0, n + 1);
        let f = |k: int| candidate(start, k);
        let tried = range.map(f);
        vstd::set_lib::lemma_int_range(0, n + 1);
        assert(vstd::relations::injective_on(f, range)) by {
            assert forall|a: int, b: int|
                range.contains(a) && range.contains(b) && #[trigger] f(a) == #[trigger] f(
                    b,
                ) implies a == b by {
                assert(candidate(start, a) == candidate(start, b));
            }
        }
        vstd::set_lib::lemma_map_size(range, tried, f);
        ids.unique_seq_to_set();
        assert(tried.subset_of(ids.to_set())) by {
            assert forall|id: u32| tried.contains(id) implies ids.to_set().contains(id) by {
                let k = choose|k: int| range.contains(k) && f(k) == id;
                assert(ids.contains(candidate(start, k)));
            }
        }
        vstd::seq_lib::seq_to_set_is_finite(ids);
        vstd::set_lib::lemma_len_subset(tried, ids.to_set());
    }
}

/// One registered request.
pub struct RunningRequest {
    id: u32,
    stop_condition: StopCondition,
}

impl View for RunningRequest {
    type V = Slot;

    closed spec fn view(&self) -> Slot {
        Slot { id: self.id, state: self.stop_condition@ }
    }
}

/// The registered requests, and the id at which the search for a free id begins.
pub struct Registry {
    requests: Vec<RunningRequest>,
    next_request_id: u32,
}

impl View for Registry {
    type V = Seq<Slot>;

    closed spec fn view(&self) -> Seq<Slot> {
        self.requests@.map_values(|r: RunningRequest| r@)
    }
}

/// The id of a slot found at `i` is registered, and `i` is its place.
pub proof fn lemma_place(slots: Seq<Slot>, id: u32, i: int)
    requires
        slot_ids(slots).no_duplicates(),
        0 <= i < slots.len(),
        slots[i].id == id,
    ensures
        registered(slots, id),
        place(slots, id) == i,
{
    let ids = slot_ids(slots);
    assert(ids[i] == id);
    let j = ids.index_of(id);
    assert(0 <= j < ids.len() && ids[j] == id);
}

/// Taking a slot out leaves the others well formed, and the id of the slot
/// unregistered.
pub proof fn lemma_remove_slot(slots: Seq<Slot>, i: int)
    requires
        well_formed(slots),
        0 <= i < slots.len(),
    ensures
        well_formed(slots.remove(i)),
        slot_ids(slots.remove(i)) == slot_ids(slots).remove(i),
        !registered(slots.remove(i), slots[i].id),
        forall|id: u32| id != slots[i].id ==> registered(slots.remove(i), id) == registered(slots, id),
{
    let ids = slot_ids(slots);
    let rest = slots.remove(i);
    assert(slot_ids(rest) =~= ids.remove(i));
    assert forall|a: int, b: int| 0 <= a < rest.len() && 0 <= b < rest.len() && a != b implies slot_ids(
        rest,
    )[a] != slot_ids(rest)[b] by {
        let a0 = if a < i { a } else { a + 1 };
        let b0 = if b < i { b } else { b + 1 };
        assert(slot_ids(rest)[a] == ids[a0]);
        assert(slot_ids(rest)[b] == ids[b0]);
    }
    assert forall|k: int| 0 <= k < rest.len() implies (#[trigger] rest[k]).state.steps < usize::MAX by {
        let k0 = if k < i { k } else { k + 1 };
        assert(rest[k] == slots[k0]);
    }
    if registered(rest, slots[i].id) {
        let a = slot_ids(rest).index_of(slots[i].id);
        let a0 = if a < i { a } else { a + 1 };
        assert(slot_ids(rest)[a] == ids[a0]);
        assert(ids[a0] == ids[i]);
    }
    assert forall|id: u32| id != slots[i].id implies registered(rest, id) == registered(slots, id) by {
        if registered(slots, id) {
            let a0 = ids.index_of(id);
            let a = if a0 < i { a0 } else { a0 - 1 };
            assert(slot_ids(rest)[a] == id);
        }
        if registered(rest, id) {
            let a = slot_ids(rest).index_of(id);
            let a0 = if a < i { a } else { a + 1 };
            assert(ids[a0] == id);
        }
    }
}

impl Registry {
    /// The id at which the next search for a free id begins.
    pub closed spec fn next_id(&self) -> u32 {
        self.next_request_id
    }

    /// No id is registered twice, and every stop condition can take a step.
    pub open spec fn wf(&self) -> bool {
        well_formed(self@)
    }

    /// A registry without requests. The first id that it gives out is 1.
    pub fn new() -> (registry: Self)
        ensures
            registry.wf(),
            registry@ == Seq::<Slot>::empty(),
            registry.next_id() == 1,
    {
        let registry = Registry { requests: Vec::new(), next_request_id: 1 };
        assert(registry@ =~= Seq::<Slot>::empty());
        registry
    }

    /// The number of registered requests.
    pub fn len(&self) -> (n: usize)
        ensures
            n == self@.len(),
    {
        self.requests.len()
    }

    /// Where the request with this id is stored, if it is registered.
    fn position(&self, id: u32) -> (r: Option<usize>)
        ensures
            r matches Some(i) ==> i < self@.len() && self@[i as int].id == id,
            r is None ==> !registered(self@, id),
    {
        let mut i: usize = 0;
        while i < self.requests.len()
            invariant
                i <= self.requests.len(),
                forall|j: int| 0 <= j < i ==> self@[j].id != id,
            decreases self.requests.len() - i,
        {
            if self.requests[i].id == id {
                return Some(i);
            }
            i += 1;
        }
        None
    }

    /// Whether a request is registered under `id`.
    pub fn contains(&self, id: u32) -> (found: bool)
        ensures
            found == registered(self@, id),
    {
        match self.position(id) {
            Some(i) => {
                assert(slot_ids(self@)[i as int] == id);
                true
            },
            None => false,
        }
    }

    /// The ids of the registered requests, in the order of their admission.
    pub fn ids(&self) -> (ids: Vec<u32>)
        ensures
            ids@ == slot_ids(self@),
    {
        let mut ids: Vec<u32> = Vec::new();
        let mut i: usize = 0;
        while i < self.requests.len()
            invariant
                i <= self.requests.len(),
                ids@ == slot_ids(self@).take(i as int),
            decreases self.requests.len() - i,
        {
            ids.push(self.requests[i].id);
            assert(slot_ids(self@).take(i + 1) =~= slot_ids(self@).take(i as int).push(self@[i as int].id));
            i += 1;
        }
        assert(slot_ids(self@).take(i as int) =~= slot_ids(self@));
        ids
    }

    /// The id that the next admission gets: the first free one from `next_id`
    /// on. There is none only where all 2^32 ids are taken.
    pub fn free_id(&self) -> (r: Option<u32>)
        requires
            self.wf(),
        ensures
            r == first_free(slot_ids(self@), self.next_id(), self@.len()),
            r matches Some(id) ==> !registered(self@, id),
            r is Some <==> self@.len() < 0x1_0000_0000,
    {
        let n = self.requests.len();
        let mut k: usize = 0;
        let mut id = self.next_request_id;
        let ghost ids = slot_ids(self@);
        loop
            invariant
                n == self@.len(),
                ids == slot_ids(self@),
                ids.no_duplicates(),
                k <= n,
                first_free(ids, self.next_id(), n as nat) == first_free(ids, id, (n - k) as nat),
            decreases n - k,
        {
            if !self.contains(id) {
                proof {
                    if n >= 0x1_0000_0000 {
                        lemma_all_taken(ids);
                        assert(ids.contains(id));
                    }
                }
                return Some(id);
            }
            if k == n {
                proof {
                    if n < 0x1_0000_0000 {
                        lemma_free_id_exists(ids, self.next_id());
                    }
                }
                return None;
            }
            k += 1;
            id = if id == u32::MAX { 0 } else { id + 1 };
        }
    }

    /// Registers a request with this stop condition under the first free id,
    /// which is returned. Without a free id nothing changes.
    pub fn register(&mut self, stop_condition: StopCondition) -> (r: Option<u32>)
        requires
            old(self).wf(),
            stop_condition@.steps < usize::MAX,
        ensures
            final(self).wf(),
            r == first_free(slot_ids(old(self)@), old(self).next_id(), old(self)@.len()),
            r is Some <==> old(self)@.len() < 0x1_0000_0000,
            r matches Some(id) ==> !registered(old(self)@, id) && registered(final(self)@, id)
                && final(self)@ == old(self)@.push(Slot { id, state: stop_condition@ })
                && final(self).next_id() == next_candidate(id),
            r is None ==> final(self)@ == old(self)@ && final(self).next_id() == old(self).next_id(),
    {
        match self.free_id() {
            None => None,
            Some(id) => {
                let ghost before = self@;
                let ghost slot = Slot { id, state: stop_condition@ };
                self.requests.push(RunningRequest { id, stop_condition });
                self.next_request_id = if id == u32::MAX { 0 } else { id + 1 };
                proof {
                    assert(self@ =~= before.push(slot));
                    assert(slot_ids(self@) =~= slot_ids(before).push(id));
                    assert(slot_ids(self@)[before.len() as int] == id);
                }
                Some(id)
            },
        }
    }

    /// Hands a piece of text that the engine produced for `id` to the request
    /// registered under it, and says what is to be done with the text.
    pub fn dispatch(&mut self, id: u32, delta: &str) -> (outcome: Dispatch)
        requires
            old(self).wf(),
        ensures
            final(self).wf(),
            final(self).next_id() == old(self).next_id(),
            (final(self)@, outcome) == dispatched(old(self)@, id, delta@),
    {
        match self.position(id) {
            None => Dispatch::Discard,
            Some(i) => {
                let ghost before = self@;
                proof {
                    lemma_place(before, id, i as int);
                    lemma_remove_slot(before, i as int);
                }
                let stop = self.requests[i].stop_condition.should_stop(delta);
                proof {
                    assert(self@ =~= before.update(i as int, self.requests[i as int]@));
                    assert(slot_ids(self@) =~= slot_ids(before));
                }
                if stop {
                    let _ = self.requests.remove(i);
                    assert(self@ =~= before.remove(i as int));
                    Dispatch::DeliverAndClose
                } else {
                    Dispatch::Deliver
                }
            },
        }
    }

    /// Takes the request with this id out of the registry, and says whether
    /// there was one: if so, the engine is to stop it and its channel is to be
    /// closed.
    pub fn cancel(&mut self, id: u32) -> (removed: bool)
        requires
            old(self).wf(),
        ensures
            final(self).wf(),
            final(self).next_id() == old(self).next_id(),
            removed == registered(old(self)@, id),
            final(self)@ == cancelled(old(self)@, id),
            !registered(final(self)@, id),
    {
        match self.position(id) {
            None => false,
            Some(i) => {
                let ghost before = self@;
                proof {
                    lemma_place(before, id, i as int);
                    lemma_remove_slot(before, i as int);
                }
                let _ = self.requests.remove(i);
                assert(self@ =~= before.remove(i as int));
                true
            },
        }
    }

    /// Takes every request out of the registry and returns their ids, in the
    /// order of their admission.
    pub fn drain(&mut self) -> (ids: Vec<u32>)
        ensures
            ids@ == slot_ids(old(self)@),
            final(self)@ == Seq::<Slot>::empty(),
            final(self).wf(),
            final(self).next_id() == old(self).next_id(),
    {
        let ids = self.ids();
        self.requests = Vec::new();
        assert(self@ =~= Seq::<Slot>::empty());
        ids
    }
}

/// Distinct ids that number 2^32 or more are all the ids there are.
proof fn lemma_all_taken(ids: Seq<u32>)
    requires
        ids.no_duplicates(),
        ids.len() >= 0x1_0000_0000,
    ensures
        forall|id: u32| ids.contains(id),
{
    let all = Set::new(|id: u32| true);
    let range = vstd::set_lib::set_int_range(0, 0x1_0000_0000);
    let f = |k: int| k as u32;
    vstd::set_lib::lemma_int_range(0, 0x1_0000_0000);
    assert(range.map(f) =~= all) by {
        assert forall|id: u32| #[trigger] all.contains(id) implies range.map(f).contains(id) by {
            assert(range.contains(id as int) && f(id as int) == id);
        }
    }
    vstd::set_lib::lemma_map_size_bound(range, all, f);
    ids.unique_seq_to_set();
    vstd::seq_lib::seq_to_set_is_finite(ids);
    assert(ids.to_set().subset_of(all));
    vstd::set_lib::lemma_len_subset(ids.to_set(), all);
    vstd::set_lib::lemma_subset_equality(ids.to_set(), all);
    assert forall|id: u32| ids.contains(id) by {
        assert(all.contains(id));
        assert(ids.to_set().contains(id));
    }
}

} // verus!
