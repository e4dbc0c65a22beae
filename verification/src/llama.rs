//! The driver's decisions: what to do on an admission, on the result of a
//! step of the engine, on a cancellation, and when to step next.
use crate::cache::Matchers;
use crate::decoding::{servable, served, sound, StopConditionFactory, StopState};
use crate::error::ServiceError;
use crate::registry::{
    cancelled, dispatched, first_free, next_candidate, place, registered, slot_ids, well_formed,
    Dispatch, Registry, Slot,
};
use vstd::prelude::*;

verus! {

/// What one step of the engine produced for one request.
pub struct StepOutput {
    pub request_id: u32,
    pub text: String,
}

/// A `StepOutput` with its text as a sequence of characters.
pub struct Produced {
    pub request_id: u32,
    pub text: Seq<char>,
}

impl DeepView for StepOutput {
    type V = Produced;

    open spec fn deep_view(&self) -> Produced {
        Produced { request_id: self.request_id, text: self.text@ }
    }
}

/// A piece of text on its way to the consumer of a request.
pub struct Delivery {
    pub request_id: u32,
    pub text: String,
    /// Whether the request ends with this text: the engine is then to stop the
    /// request, and the channel is to be closed once the text is sent.
    pub last: bool,
}

/// A `Delivery` with its text as a sequence of characters.
pub struct Sent {
    pub request_id: u32,
    pub text: Seq<char>,
    pub last: bool,
}

impl DeepView for Delivery {
    type V = Sent;

    open spec fn deep_view(&self) -> Sent {
        Sent { request_id: self.request_id, text: self.text@, last: self.last }
    }
}

/// The registry after the outputs of one step, handled in their order.
pub open spec fn after_batch(slots: Seq<Slot>, outputs: Seq<Produced>) -> Seq<Slot>
    decreases outputs.len(),
{
    if outputs.len() == 0 {
        slots
    } else {
        dispatched(
            after_batch(slots, outputs.drop_last()),
            outputs.last().request_id,
            outputs.last().text,
        ).0
    }
}

/// What the outputs of one step lead to, in their order: each output for a
/// registered request is delivered, and marked as the last where the request
/// stops with it; an output for an id that is not registered leads to nothing.
pub open spec fn deliveries(slots: Seq<Slot>, outputs: Seq<Produced>) -> Seq<Sent>
    decreases outputs.len(),
{
    if outputs.len() == 0 {
        Seq::empty()
    } else {
        let earlier = deliveries(slots, outputs.drop_last());
        let output = outputs.last();
        match dispatched(after_batch(slots, outputs.drop_last()), output.request_id, output.text).1 {
            Dispatch::Discard => earlier,
            Dispatch::Deliver => earlier.push(
                Sent { request_id: output.request_id, text: output.text, last: false },
            ),
            Dispatch::DeliverAndClose => earlier.push(
                Sent { request_id: output.request_id, text: output.text, last: true },
            ),
        }
    }
}

/// The longest wait between two steps, in milliseconds.
pub const IDLE_WAIT_CAP_MS: u64 = 64;

/// Two to the power of `k`.
pub open spec fn doubled(k: nat) -> nat
    decreases k,
{
    if k == 0 {
        1
    } else {
        2 * doubled((k - 1) as nat)
    }
}

/// How long to wait before the next step once `empty_steps` steps in a row
/// have produced nothing, in milliseconds: not at all after a step that
/// produced something, 1 after the first empty step, then twice as long after
/// each further one, and never longer than `IDLE_WAIT_CAP_MS`.
pub open spec fn idle_wait_ms(empty_steps: nat) -> nat {
    if empty_steps == 0 {
        0
    } else if empty_steps >= 7 {
        IDLE_WAIT_CAP_MS as nat
    } else {
        doubled((empty_steps - 1) as nat)
    }
}

/// Computes `idle_wait_ms`.
pub fn idle_wait(empty_steps: u32) -> (ms: u64)
    ensures
        ms == idle_wait_ms(empty_steps as nat),
        ms <= IDLE_WAIT_CAP_MS,
{
    if empty_steps == 0 {
        0
    } else if empty_steps >= 7 {
        IDLE_WAIT_CAP_MS
    } else {
        let mut ms: u64 = 1;
        let mut k: u32 = 1;
        proof {
            reveal_with_fuel(doubled, 7);
        }
        while k < empty_steps
            invariant
                1 <= k <= empty_steps < 7,
                ms == doubled((k - 1) as nat),
                ms <= 32,
            decreases empty_steps - k,
        {
            proof {
                reveal_with_fuel(doubled, 7);
            }
            ms = ms * 2;
            k += 1;
        }
        proof {
            reveal_with_fuel(doubled, 7);
        }
        ms
    }
}

/// Whether the driver still steps the engine.
#[derive(Clone, Copy, Debug, PartialEq, Eq, Structural)]
pub enum DriverState {
    /// The driver steps the engine and hands its outputs on.
    Running,
    /// A step has failed. Every request has been closed with an error, and no
    /// step follows.
    Faulted,
}

/// What the driver's loop does next.
#[derive(Clone, Copy, Debug, PartialEq, Eq, Structural)]
pub enum NextMove {
    /// Wait this many milliseconds, then step the engine.
    StepAfter(u64),
    /// Leave the loop: the driver is faulted.
    Halt,
}

/// The state that the driver's decisions rest on: whether it runs, the
/// requests in flight, the matchers compiled so far, and the number of steps
/// in a row that have produced nothing.
pub struct LlamaService {
    state: DriverState,
    requests: Registry,
    stop_condition_factory: StopConditionFactory,
    empty_steps: u32,
}

impl LlamaService {
    /// Whether the driver runs or is faulted.
    pub closed spec fn state(&self) -> DriverState {
        self.state
    }

    /// The requests in flight.
    pub closed spec fn requests(&self) -> Seq<Slot> {
        self.requests@
    }

    /// The id at which the search for a free id begins.
    pub closed spec fn next_id(&self) -> u32 {
        self.requests.next_id()
    }

    /// The matchers compiled so far.
    pub closed spec fn matchers(&self) -> Matchers {
        self.stop_condition_factory.entries()
    }

    /// The number of steps in a row that have produced nothing.
    pub closed spec fn empty_steps(&self) -> nat {
        self.empty_steps as nat
    }

    /// The registry and the cache are well formed, and a faulted driver has no
    /// requests.
    pub closed spec fn wf(&self) -> bool {
        &&& self.requests.wf()
        &&& self.stop_condition_factory.wf()
        &&& (self.state == DriverState::Faulted ==> self.requests@.len() == 0)
    }

    /// A driver in order holds requests with distinct ids, and a faulted one
    /// holds none.
    pub proof fn law_faulted_holds_nothing(&self)
        requires
            self.wf(),
        ensures
            well_formed(self.requests()),
            sound(self.matchers()),
            self.state() == DriverState::Faulted ==> self.requests().len() == 0,
    {
    }

    /// A running driver without requests and without matchers.
    pub fn new() -> (service: Self)
        ensures
            service.wf(),
            service.state() == DriverState::Running,
            service.requests() == Seq::<Slot>::empty(),
            service.next_id() == 1,
            service.matchers() == Matchers::empty(),
            service.empty_steps() == 0,
    {
        LlamaService {
            state: DriverState::Running,
            requests: Registry::new(),
            stop_condition_factory: StopConditionFactory::default(),
            empty_steps: 0,
        }
    }

    /// Whether the driver is faulted.
    pub fn is_faulted(&self) -> (faulted: bool)
        ensures
            faulted == (self.state() == DriverState::Faulted),
    {
        self.state == DriverState::Faulted
    }

    /// The number of requests in flight.
    pub fn active(&self) -> (n: usize)
        ensures
            n == self.requests().len(),
    {
        self.requests.len()
    }

    /// Whether a request is registered under `request_id`.
    pub fn is_active(&self, request_id: u32) -> (found: bool)
        ensures
            found == registered(self.requests(), request_id),
    {
        self.requests.contains(request_id)
    }

    /// Admits a request: gives it a free id and a stop condition made from its
    /// stop words and its step budget, and registers it. The id is returned;
    /// the engine is to be told of the request under it. Nothing here waits
    /// for the engine.
    ///
    /// A faulted driver admits nothing (`EngineStepError`). With all 2^32 ids
    /// taken there is `NoFreeId`. Stop words from which no matcher can be
    /// compiled are `InvalidOptions`.
    pub fn add_request(&mut self, max_decoding_length: usize, stop_words: Vec<String>) -> (r: Result<
        u32,
        ServiceError,
    >)
        requires
            old(self).wf(),
        ensures
            final(self).wf(),
            final(self).state() == old(self).state(),
            r is Ok <==> old(self).state() == DriverState::Running && old(self).requests().len()
                < 0x1_0000_0000 && servable(old(self).matchers(), stop_words.deep_view()),
            r matches Ok(id) ==> {
                let state = final(self).requests().last().state;
                &&& Some(id) == first_free(
                    slot_ids(old(self).requests()),
                    old(self).next_id(),
                    old(self).requests().len(),
                )
                &&& !registered(old(self).requests(), id)
                &&& registered(final(self).requests(), id)
                &&& final(self).next_id() == next_candidate(id)
                &&& final(self).requests() == old(self).requests().push(Slot { id, state })
                &&& state == StopState::initial(state.matcher, max_decoding_length as nat, Seq::empty())
                &&& served(old(self).matchers(), stop_words.deep_view(), final(self).matchers(), state.matcher)
                &&& final(self).empty_steps() == 0
            },
            r matches Err(e) ==> {
                &&& final(self).requests() == old(self).requests()
                &&& final(self).next_id() == old(self).next_id()
                &&& final(self).matchers() == old(self).matchers()
                &&& final(self).empty_steps() == old(self).empty_steps()
                &&& e == (if old(self).state() == DriverState::Faulted {
                    ServiceError::EngineStepError
                } else if old(self).requests().len() >= 0x1_0000_0000 {
                    ServiceError::NoFreeId
                } else {
                    ServiceError::InvalidOptions
                })
            },
    {
        if self.state == DriverState::Faulted {
            return Err(ServiceError::EngineStepError);
        }
        if self.requests.free_id().is_none() {
            return Err(ServiceError::NoFreeId);
        }
        match self.stop_condition_factory.create("", max_decoding_length, stop_words) {
            Err(e) => Err(e),
            Ok(stop_condition) => {
                proof {
                    reveal_strlit("");
                    assert(""@ =~= Seq::<char>::empty());
                }
                match self.requests.register(stop_condition) {
                    Some(id) => {
                        self.empty_steps = 0;
                        Ok(id)
                    },
                    None => Err(ServiceError::NoFreeId),
                }
            },
        }
    }

    /// Hands one piece of text from the engine to its request.
    pub fn dispatch(&mut self, request_id: u32, text: &str) -> (outcome: Dispatch)
        requires
            old(self).wf(),
        ensures
            final(self).wf(),
            final(self).state() == old(self).state(),
            final(self).next_id() == old(self).next_id(),
            final(self).matchers() == old(self).matchers(),
            final(self).empty_steps() == old(self).empty_steps(),
            (final(self).requests(), outcome) == dispatched(old(self).requests(), request_id, text@),
    {
        self.requests.dispatch(request_id, text)
    }

    /// Takes in the outputs of one step that succeeded: hands each to its
    /// request, in their order, and returns what is to be sent on. A step
    /// without outputs counts as empty, any other ends the run of empty steps.
    pub fn step_done(&mut self, outputs: Vec<StepOutput>) -> (sent: Vec<Delivery>)
        requires
            old(self).wf(),
        ensures
            final(self).wf(),
            final(self).state() == old(self).state(),
            final(self).next_id() == old(self).next_id(),
            final(self).matchers() == old(self).matchers(),
            final(self).requests() == after_batch(old(self).requests(), outputs.deep_view()),
            sent.deep_view() == deliveries(old(self).requests(), outputs.deep_view()),
            final(self).empty_steps() == (if outputs.len() > 0 {
                0
            } else if old(self).empty_steps() < u32::MAX {
                old(self).empty_steps() + 1
            } else {
                old(self).empty_steps()
            }),
    {
        if outputs.len() == 0 {
            if self.empty_steps < u32::MAX {
                self.empty_steps = self.empty_steps + 1;
            }
        } else {
            self.empty_steps = 0;
        }
        let ghost before = self.requests();
        let ghost counted = self.empty_steps();
        let ghost all = outputs.deep_view();
        let mut sent: Vec<Delivery> = Vec::new();
        let n = outputs.len();
        let mut i: usize = 0;
        assert(all.take(0) =~= Seq::<Produced>::empty());
        assert(sent.deep_view() =~= Seq::<Sent>::empty());
        while i < n
            invariant
                self.wf(),
                n == all.len(),
                i <= n,
                outputs.deep_view() == all,
                self.state() == old(self).state(),
                self.next_id() == old(self).next_id(),
                self.matchers() == old(self).matchers(),
                self.empty_steps() == counted,
                self.requests() == after_batch(before, all.take(i as int)),
                sent.deep_view() == deliveries(before, all.take(i as int)),
            decreases n - i,
        {
            let request_id = outputs[i].request_id;
            let text = outputs[i].text.clone();
            let ghost earlier = sent.deep_view();
            proof {
                assert(all.take(i + 1).drop_last() =~= all.take(i as int));
                assert(all.take(i + 1).last() == all[i as int]);
                assert(all[i as int] == outputs@[i as int].deep_view());
            }
            let outcome = self.dispatch(request_id, text.as_str());
            match outcome {
                Dispatch::Discard => {},
                Dispatch::Deliver => {
                    sent.push(Delivery { request_id, text, last: false });
                    assert(sent.deep_view() =~= earlier.push(
                        Sent { request_id, text: text@, last: false },
                    ));
                },
                Dispatch::DeliverAndClose => {
                    sent.push(Delivery { request_id, text, last: true });
                    assert(sent.deep_view() =~= earlier.push(
                        Sent { request_id, text: text@, last: true },
                    ));
                },
            }
            i += 1;
        }
        assert(all.take(n as int) =~= all);
        sent
    }

    /// Takes in the failure of a step. The driver is faulted from now on: the
    /// ids of all requests in flight are returned, in the order of their
    /// admission, so that each channel is closed with an error, and the
    /// registry is left empty.
    pub fn step_failed(&mut self) -> (closed: Vec<u32>)
        requires
            old(self).wf(),
        ensures
            final(self).wf(),
            final(self).state() == DriverState::Faulted,
            closed@ == slot_ids(old(self).requests()),
            final(self).requests() == Seq::<Slot>::empty(),
            final(self).next_id() == old(self).next_id(),
            final(self).matchers() == old(self).matchers(),
            final(self).empty_steps() == old(self).empty_steps(),
    {
        self.state = DriverState::Faulted;
        self.requests.drain()
    }

    /// Cancels a request. Where it was registered it is taken out: the engine
    /// is to stop the request and its channel is to be closed. Where it was
    /// not, nothing changes, and the answer is `RequestNotFound`, which a
    /// caller may pass over: the request has ended by itself.
    pub fn cancel(&mut self, request_id: u32) -> (r: Result<(), ServiceError>)
        requires
            old(self).wf(),
        ensures
            final(self).wf(),
            final(self).state() == old(self).state(),
            final(self).next_id() == old(self).next_id(),
            final(self).matchers() == old(self).matchers(),
            final(self).empty_steps() == old(self).empty_steps(),
            r is Ok <==> registered(old(self).requests(), request_id),
            r matches Err(e) ==> e == ServiceError::RequestNotFound,
            final(self).requests() == cancelled(old(self).requests(), request_id),
            !registered(final(self).requests(), request_id),
    {
        let removed = self.requests.cancel(request_id);
        proof {
            if self.state == DriverState::Faulted {
                assert(self.requests@ =~= old(self).requests@);
            }
        }
        if removed {
            Ok(())
        } else {
            Err(ServiceError::RequestNotFound)
        }
    }

    /// What the driver's loop does next: a faulted driver leaves the loop, a
    /// running one steps the engine, after the wait that the run of empty
    /// steps asks for.
    pub fn next_move(&self) -> (next: NextMove)
        ensures
            next == (if self.state() == DriverState::Faulted {
                NextMove::Halt
            } else {
                NextMove::StepAfter(idle_wait_ms(self.empty_steps()) as u64)
            }),
    {
        if self.state == DriverState::Faulted {
            NextMove::Halt
        } else {
            NextMove::StepAfter(idle_wait(self.empty_steps))
        }
    }
}

/// No text for a request that is not registered: whatever a step then
/// produces under its id, nothing is sent to it and it stays unregistered.
pub proof fn law_unregistered_gets_nothing(slots: Seq<Slot>, outputs: Seq<Produced>, id: u32)
    requires
        !registered(slots, id),
    ensures
        !registered(after_batch(slots, outputs), id),
        forall|k: int|
            0 <= k < deliveries(slots, outputs).len() ==> (#[trigger] deliveries(
                slots,
                outputs,
            )[k]).request_id != id,
    decreases outputs.len(),
{
    if outputs.len() > 0 {
        law_unregistered_gets_nothing(slots, outputs.drop_last(), id);
        let before = after_batch(slots, outputs.drop_last());
        let output = outputs.last();
        lemma_dispatch_registers_nothing(before, output.request_id, output.text, id);
        let earlier = deliveries(slots, outputs.drop_last());
        let all = deliveries(slots, outputs);
        assert forall|k: int| 0 <= k < all.len() implies (#[trigger] all[k]).request_id != id by {
            if k < earlier.len() {
                assert(all[k] == earlier[k]);
            }
        }
    }
}

/// A piece of text registers no request: an id that is not registered before
/// it is not registered after it.
pub proof fn lemma_dispatch_registers_nothing(slots: Seq<Slot>, to: u32, delta: Seq<char>, id: u32)
    requires
        !registered(slots, id),
    ensures
        !registered(dispatched(slots, to, delta).0, id),
        to == id ==> dispatched(slots, to, delta).1 == Dispatch::Discard,
{
    let after = dispatched(slots, to, delta).0;
    if registered(slots, to) {
        let i = place(slots, to);
        assert(0 <= i < slots.len() && slot_ids(slots)[i] == to);
        if registered(after, id) {
            let a = slot_ids(after).index_of(id);
            assert(0 <= a < after.len() && slot_ids(after)[a] == id);
            if after.len() == slots.len() {
                assert(slot_ids(slots)[a] == id);
            } else {
                let a0 = if a < i { a } else { a + 1 };
                assert(slot_ids(slots)[a0] == id);
            }
        }
    }
}

/// The texts that a step produced for one request, in their order.
pub open spec fn produced_for(outputs: Seq<Produced>, id: u32) -> Seq<Seq<char>>
    decreases outputs.len(),
{
    if outputs.len() == 0 {
        Seq::empty()
    } else if outputs.last().request_id == id {
        produced_for(outputs.drop_last(), id).push(outputs.last().text)
    } else {
        produced_for(outputs.drop_last(), id)
    }
}

/// The texts that are sent to one request, in their order.
pub open spec fn sent_to(sent: Seq<Sent>, id: u32) -> Seq<Seq<char>>
    decreases sent.len(),
{
    if sent.len() == 0 {
        Seq::empty()
    } else if sent.last().request_id == id {
        sent_to(sent.drop_last(), id).push(sent.last().text)
    } else {
        sent_to(sent.drop_last(), id)
    }
}

/// A piece of text for one request leaves the ids distinct, and leaves every
/// other request registered or not as it was. The request itself stays
/// registered exactly where the text is delivered and is not its last.
pub proof fn lemma_dispatch_keeps_ids(slots: Seq<Slot>, to: u32, delta: Seq<char>)
    requires
        slot_ids(slots).no_duplicates(),
    ensures
        slot_ids(dispatched(slots, to, delta).0).no_duplicates(),
        forall|id: u32|
            id != to ==> registered(dispatched(slots, to, delta).0, id) == registered(slots, id),
        registered(dispatched(slots, to, delta).0, to) <==> dispatched(slots, to, delta).1
            == Dispatch::Deliver,
        registered(slots, to) <==> dispatched(slots, to, delta).1 != Dispatch::Discard,
{
    let after = dispatched(slots, to, delta).0;
    let ids = slot_ids(slots);
    if registered(slots, to) {
        let i = place(slots, to);
        assert(0 <= i < slots.len() && ids[i] == to);
        if after.len() == slots.len() {
            assert(slot_ids(after) =~= ids);
        } else {
            assert(slot_ids(after) =~= ids.remove(i));
            assert forall|a: int, b: int|
                0 <= a < after.len() && 0 <= b < after.len() && a != b implies slot_ids(after)[a]
                != slot_ids(after)[b] by {
                let a0 = if a < i { a } else { a + 1 };
                let b0 = if b < i { b } else { b + 1 };
                assert(slot_ids(after)[a] == ids[a0]);
                assert(slot_ids(after)[b] == ids[b0]);
            }
            assert forall|id: u32| registered(after, id) == (id != to && registered(slots, id)) by {
                if registered(after, id) {
                    let a = slot_ids(after).index_of(id);
                    let a0 = if a < i { a } else { a + 1 };
                    assert(0 <= a < after.len() && slot_ids(after)[a] == id);
                    assert(ids[a0] == id);
                    assert(a0 != i);
                }
                if id != to && registered(slots, id) {
                    let a0 = ids.index_of(id);
                    assert(0 <= a0 < ids.len() && ids[a0] == id);
                    let a = if a0 < i { a0 } else { a0 - 1 };
                    assert(slot_ids(after)[a] == id);
                }
            }
        }
    }
}

/// First in, first out, for each request: what is sent to a request in one
/// step are the texts that the step produced for it, in their order, up to
/// the text with which it leaves the registry. A request that is still
/// registered after the step has been sent all of them.
pub proof fn law_first_in_first_out(slots: Seq<Slot>, outputs: Seq<Produced>, id: u32)
    requires
        slot_ids(slots).no_duplicates(),
    ensures
        slot_ids(after_batch(slots, outputs)).no_duplicates(),
        sent_to(deliveries(slots, outputs), id).is_prefix_of(produced_for(outputs, id)),
        registered(after_batch(slots, outputs), id) ==> registered(slots, id) && sent_to(
            deliveries(slots, outputs),
            id,
        ) == produced_for(outputs, id),
    decreases outputs.len(),
{
    if outputs.len() > 0 {
        let earlier = outputs.drop_last();
        let output = outputs.last();
        let before = after_batch(slots, earlier);
        law_first_in_first_out(slots, earlier, id);
        lemma_dispatch_keeps_ids(before, output.request_id, output.text);
        let sent_earlier = deliveries(slots, earlier);
        let sent = deliveries(slots, outputs);
        let outcome = dispatched(before, output.request_id, output.text).1;
        if outcome != Dispatch::Discard {
            assert(sent.drop_last() =~= sent_earlier);
            assert(sent.last().request_id == output.request_id);
            assert(sent.last().text == output.text);
        }
    }
}

} // verus!
