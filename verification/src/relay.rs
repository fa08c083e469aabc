//! The relay loop: what to send for a received frame, and the state
//! machine that decides what the loop does next.

use crate::artnet::{cap_payload, capped, ARTNET_PORT};
use crate::config::{all_paired, bindings_view, validated, Address, ConfigError, Mapping};
use crate::subscription::{distinct, inputs_of, subscription};
use crate::table::{entries_of, table_of, MappingTable, Target};
use vstd::prelude::*;

verus! {

/// One universe's worth of channel values, as received.
#[derive(Debug, Clone, PartialEq, Eq)]
pub struct DmxFrame {
    pub universe: u16,
    pub values: Vec<u8>,
}

/// Mathematical model of a [`DmxFrame`].
pub struct DmxFrameView {
    pub universe: u16,
    pub values: Seq<u8>,
}

impl View for DmxFrame {
    type V = DmxFrameView;

    open spec fn view(&self) -> DmxFrameView {
        DmxFrameView { universe: self.universe, values: self.values@ }
    }
}

/// One datagram to transmit: the channel data of an output universe, for
/// the controller at `address`, `port`.
#[derive(Debug, Clone, PartialEq, Eq)]
pub struct SendRequest {
    pub address: Address,
    pub port: u16,
    pub universe: u16,
    pub data: Vec<u8>,
}

/// Mathematical model of a [`SendRequest`].
pub struct SendRequestView {
    pub address: Address,
    pub port: u16,
    pub universe: u16,
    pub data: Seq<u8>,
}

impl View for SendRequest {
    type V = SendRequestView;

    open spec fn view(&self) -> SendRequestView {
        SendRequestView {
            address: self.address,
            port: self.port,
            universe: self.universe,
            data: self.data@,
        }
    }
}

/// What is sent for a frame: nothing where its universe is not in the
/// table; else its values, capped, for the mapped universe and address on
/// the Art-Net port.
pub open spec fn routed(table: Map<u16, Target>, frame: DmxFrameView) -> Option<SendRequestView> {
    if table.contains_key(frame.universe) {
        Some(
            SendRequestView {
                address: table[frame.universe].address,
                port: ARTNET_PORT,
                universe: table[frame.universe].universe,
                data: capped(frame.values),
            },
        )
    } else {
        None
    }
}

/// Decides what to send for one received frame. A frame of a universe that
/// the table does not hold is dropped; any other gives exactly one
/// request, with the mapped output universe and address and with at most
/// the first 512 channel values.
pub fn route(table: &MappingTable, frame: &DmxFrame) -> (r: Option<SendRequest>)
    ensures
        !table@.contains_key(frame.universe) ==> r is None,
        table@.contains_key(frame.universe) ==> {
            &&& r matches Some(request)
            &&& request.address == table@[frame.universe].address
            &&& request.port == ARTNET_PORT
            &&& request.universe == table@[frame.universe].universe
            &&& request.data@ == capped(frame.values@)
        },
        match r {
            Some(request) => routed(table@, frame@) == Some(request@),
            None => routed(table@, frame@) is None,
        },
{
    match table.lookup(frame.universe) {
        Some(target) => Some(
            SendRequest {
                address: target.address,
                port: ARTNET_PORT,
                universe: target.universe,
                data: cap_payload(&frame.values),
            },
        ),
        None => None,
    }
}

/// Where a relay stands.
#[derive(Debug, Clone, Copy, PartialEq, Eq)]
pub enum Phase {
    /// The table is built; nothing was asked of the network yet.
    Init,
    /// The subscription was asked for; its outcome is awaited.
    Subscribed,
    /// Frames are received and forwarded.
    Running,
    /// The subscription failed; the relay does nothing more.
    Failed,
}

/// What happened outside the relay.
#[derive(Debug, Clone, PartialEq, Eq)]
pub enum Event {
    /// The relay is asked to begin.
    Start,
    /// The receiver listens to the universes that were asked for.
    Listening,
    /// The receiver could not listen to them.
    ListenFailed,
    /// One packet arrived and held these frames, in this order.
    Frames(Vec<DmxFrame>),
    /// Receiving failed, or what arrived could not be decoded.
    ReceiveFailed,
    /// A datagram could not be encoded or transmitted.
    SendFailed,
}

/// What the relay asks to be done.
#[derive(Debug, Clone, PartialEq, Eq)]
pub enum Action {
    /// Listen to exactly these universes.
    Listen(Vec<u16>),
    /// Wait for the next packet.
    Receive,
    /// Encode and transmit this datagram.
    Send(SendRequest),
}

/// Mathematical model of an [`Event`].
pub enum EventView {
    Start,
    Listening,
    ListenFailed,
    Frames(Seq<DmxFrameView>),
    ReceiveFailed,
    SendFailed,
}

/// Mathematical model of an [`Action`].
pub enum ActionView {
    Listen(Seq<u16>),
    Receive,
    Send(SendRequestView),
}

/// The models of a list of frames, in the same order.
pub open spec fn frames_view(frames: Seq<DmxFrame>) -> Seq<DmxFrameView> {
    frames.map_values(|f: DmxFrame| f@)
}

/// The models of a list of actions, in the same order.
pub open spec fn actions_view(actions: Seq<Action>) -> Seq<ActionView> {
    actions.map_values(|a: Action| a@)
}

impl View for Event {
    type V = EventView;

    open spec fn view(&self) -> EventView {
        match *self {
            Event::Start => EventView::Start,
            Event::Listening => EventView::Listening,
            Event::ListenFailed => EventView::ListenFailed,
            Event::Frames(frames) => EventView::Frames(frames_view(frames@)),
            Event::ReceiveFailed => EventView::ReceiveFailed,
            Event::SendFailed => EventView::SendFailed,
        }
    }
}

impl View for Action {
    type V = ActionView;

    open spec fn view(&self) -> ActionView {
        match *self {
            Action::Listen(universes) => ActionView::Listen(universes@),
            Action::Receive => ActionView::Receive,
            Action::Send(request) => ActionView::Send(request@),
        }
    }
}

/// Mathematical model of a [`Relay`].
pub struct RelayView {
    pub phase: Phase,
    pub table: Map<u16, Target>,
    pub universes: Seq<u16>,
}

/// The datagrams to send for the frames of one packet: one for each frame
/// whose universe the table holds, in the order of the frames.
pub open spec fn sends(table: Map<u16, Target>, frames: Seq<DmxFrameView>) -> Seq<ActionView>
    decreases frames.len(),
{
    if frames.len() == 0 {
        Seq::empty()
    } else {
        let earlier = sends(table, frames.drop_last());
        match routed(table, frames.last()) {
            Some(request) => earlier.push(ActionView::Send(request)),
            None => earlier,
        }
    }
}

/// The relay's rule: the state after an event, and what is to be done
/// next, in order.
///
/// Starting asks for the subscription. Its success starts the receive
/// loop; its failure is the one thing that ends the relay. While running,
/// a packet's frames are forwarded and the next packet is awaited; a
/// failure to receive only asks for the next packet; a failure to send
/// asks for nothing. An event that the phase does not expect changes
/// nothing.
pub open spec fn transition(state: RelayView, event: EventView) -> (RelayView, Seq<ActionView>) {
    match (state.phase, event) {
        (Phase::Init, EventView::Start) => (
            RelayView { phase: Phase::Subscribed, ..state },
            seq![ActionView::Listen(state.universes)],
        ),
        (Phase::Subscribed, EventView::Listening) => (
            RelayView { phase: Phase::Running, ..state },
            seq![ActionView::Receive],
        ),
        (Phase::Subscribed, EventView::ListenFailed) => (
            RelayView { phase: Phase::Failed, ..state },
            Seq::empty(),
        ),
        (Phase::Running, EventView::Frames(frames)) => (
            state,
            sends(state.table, frames).push(ActionView::Receive),
        ),
        (Phase::Running, EventView::ReceiveFailed) => (state, seq![ActionView::Receive]),
        (Phase::Running, EventView::SendFailed) => (state, Seq::empty()),
        _ => (state, Seq::empty()),
    }
}

/// One relay: its phase, its table and the universes it listens to.
pub struct Relay {
    phase: Phase,
    table: MappingTable,
    universes: Vec<u16>,
}

impl View for Relay {
    type V = RelayView;

    closed spec fn view(&self) -> RelayView {
        RelayView { phase: self.phase, table: self.table@, universes: self.universes@ }
    }
}

impl Relay {
    /// A relay for the given bindings, before anything is asked of the
    /// network. Fails as [`MappingTable::build`] does.
    pub fn new(bindings: &Vec<Mapping>) -> (r: Result<Relay, ConfigError>)
        ensures
            r is Ok <==> all_paired(bindings_view(bindings@)),
            match r {
                Ok(relay) => {
                    &&& relay@ == (RelayView {
                        phase: Phase::Init,
                        table: table_of(entries_of(bindings_view(bindings@))),
                        universes: distinct(inputs_of(bindings_view(bindings@))),
                    })
                },
                Err(e) => validated(bindings_view(bindings@), Err(e)),
            },
    {
        match MappingTable::build(bindings) {
            Ok(table) => Ok(Relay { phase: Phase::Init, table, universes: subscription(bindings) }),
            Err(e) => Err(e),
        }
    }

    /// The phase the relay is in.
    pub fn phase(&self) -> (r: Phase)
        ensures
            r == self@.phase,
    {
        self.phase
    }

    /// The relay's table.
    pub fn table(&self) -> (r: &MappingTable)
        ensures
            r@ == self@.table,
    {
        &self.table
    }

    /// Takes one event and answers with what is to be done next, in order,
    /// as [`transition`] says.
    pub fn step(&mut self, event: Event) -> (actions: Vec<Action>)
        ensures
            final(self)@ == transition(old(self)@, event@).0,
            actions_view(actions@) == transition(old(self)@, event@).1,
    {
        let mut actions: Vec<Action> = Vec::new();
        match self.phase {
            Phase::Init => {
                if let Event::Start = event {
                    self.phase = Phase::Subscribed;
                    actions.push(Action::Listen(self.universes.clone()));
                    assert(actions_view(actions@) =~= seq![ActionView::Listen(self.universes@)]);
                } else {
                    assert(actions_view(actions@) =~= Seq::empty());
                }
            },
            Phase::Subscribed => {
                match event {
                    Event::Listening => {
                        self.phase = Phase::Running;
                        actions.push(Action::Receive);
                        assert(actions_view(actions@) =~= seq![ActionView::Receive]);
                    },
                    Event::ListenFailed => {
                        self.phase = Phase::Failed;
                        assert(actions_view(actions@) =~= Seq::empty());
                    },
                    _ => {
                        assert(actions_view(actions@) =~= Seq::empty());
                    },
                }
            },
            Phase::Running => {
                match event {
                    Event::Frames(frames) => {
                        let ghost models = frames_view(frames@);
                        let mut i: usize = 0;
                        assert(actions_view(actions@) =~= sends(self.table@, models.take(0)));
                        while i < frames.len()
                            invariant
                                i <= frames.len(),
                                models == frames_view(frames@),
                                *self == *old(self),
                                actions_view(actions@) == sends(self.table@, models.take(i as int)),
                            decreases frames.len() - i,
                        {
                            let ghost before = actions_view(actions@);
                            proof {
                                assert(models.take(i + 1).drop_last() =~= models.take(i as int));
                                assert(models.take(i + 1).last() == frames@[i as int]@);
                            }
                            match route(&self.table, &frames[i]) {
                                Some(request) => {
                                    actions.push(Action::Send(request));
                                    assert(actions_view(actions@) =~= before.push(
                                        ActionView::Send(request@),
                                    ));
                                },
                                None => {},
                            }
                            i += 1;
                        }
                        assert(models.take(i as int) =~= models);
                        let ghost forwarded = actions_view(actions@);
                        actions.push(Action::Receive);
                        assert(actions_view(actions@) =~= forwarded.push(ActionView::Receive));
                    },
                    Event::ReceiveFailed => {
                        actions.push(Action::Receive);
                        assert(actions_view(actions@) =~= seq![ActionView::Receive]);
                    },
                    _ => {
                        assert(actions_view(actions@) =~= Seq::empty());
                    },
                }
            },
            Phase::Failed => {
                assert(actions_view(actions@) =~= Seq::empty());
            },
        }
        actions
    }
}

/// A frame of a universe that the table does not hold is dropped: the
/// relay sends nothing for it and goes on receiving.
pub proof fn lemma_unmapped_frame_is_dropped(state: RelayView, frame: DmxFrameView)
    requires
        state.phase is Running,
        !state.table.contains_key(frame.universe),
    ensures
        transition(state, EventView::Frames(seq![frame])) == (state, seq![ActionView::Receive]),
{
    let frames = seq![frame];
    assert(frames.drop_last() =~= Seq::empty());
    assert(sends(state.table, frames.drop_last()) =~= Seq::empty());
    assert(sends(state.table, frames).push(ActionView::Receive) =~= seq![ActionView::Receive]);
}

/// A frame of a universe that the table holds is sent exactly once: to the
/// mapped address on the Art-Net port, for the mapped output universe,
/// with the frame's values cut to the first 512.
pub proof fn lemma_mapped_frame_is_sent_once(state: RelayView, frame: DmxFrameView)
    requires
        state.phase is Running,
        state.table.contains_key(frame.universe),
    ensures
        transition(state, EventView::Frames(seq![frame])) == (
            state,
            seq![
                ActionView::Send(
                    SendRequestView {
                        address: state.table[frame.universe].address,
                        port: 6454,
                        universe: state.table[frame.universe].universe,
                        data: capped(frame.values),
                    },
                ),
                ActionView::Receive,
            ],
        ),
        capped(frame.values).len() <= 512,
        capped(frame.values) == frame.values.take(capped(frame.values).len() as int),
{
    let frames = seq![frame];
    let request = routed(state.table, frame).unwrap();
    assert(frames.drop_last() =~= Seq::empty());
    assert(sends(state.table, frames.drop_last()) =~= Seq::empty());
    assert(sends(state.table, frames).push(ActionView::Receive) =~= seq![
        ActionView::Send(request),
        ActionView::Receive,
    ]);
    assert(frame.values.take(frame.values.len() as int) =~= frame.values);
}

/// The frames of a packet are forwarded one by one and in their order:
/// what is sent for two runs of frames is what is sent for the first, then
/// what is sent for the second.
pub proof fn lemma_sends_in_order(
    table: Map<u16, Target>,
    first: Seq<DmxFrameView>,
    second: Seq<DmxFrameView>,
)
    ensures
        sends(table, first + second) == sends(table, first) + sends(table, second),
    decreases second.len(),
{
    if second.len() == 0 {
        assert(first + second =~= first);
        assert(sends(table, first) + sends(table, second) =~= sends(table, first));
    } else {
        lemma_sends_in_order(table, first, second.drop_last());
        assert((first + second).drop_last() =~= first + second.drop_last());
        assert((first + second).last() == second.last());
        match routed(table, second.last()) {
            Some(request) => {
                assert((sends(table, first) + sends(table, second.drop_last())).push(
                    ActionView::Send(request),
                ) =~= sends(table, first) + sends(table, second.drop_last()).push(
                    ActionView::Send(request),
                ));
            },
            None => {},
        }
    }
}

/// The state after a series of events, and all that was asked for on the
/// way, in order.
pub open spec fn run(state: RelayView, events: Seq<EventView>) -> (RelayView, Seq<ActionView>)
    decreases events.len(),
{
    if events.len() == 0 {
        (state, Seq::empty())
    } else {
        let earlier = run(state, events.drop_last());
        let last = transition(earlier.0, events.last());
        (last.0, earlier.1 + last.1)
    }
}

/// The datagrams among a list of actions, in order.
pub open spec fn sent(actions: Seq<ActionView>) -> Seq<ActionView> {
    actions.filter(|a: ActionView| a is Send)
}

/// Running a series of events is running its first part, then the rest.
pub proof fn lemma_run_split(state: RelayView, first: Seq<EventView>, second: Seq<EventView>)
    ensures
        run(state, first + second).0 == run(run(state, first).0, second).0,
        run(state, first + second).1 == run(state, first).1 + run(run(state, first).0, second).1,
    decreases second.len(),
{
    if second.len() == 0 {
        assert(first + second =~= first);
        assert(run(state, first).1 + Seq::<ActionView>::empty() =~= run(state, first).1);
    } else {
        lemma_run_split(state, first, second.drop_last());
        assert((first + second).drop_last() =~= first + second.drop_last());
        assert((first + second).last() == second.last());
        let mid = run(state, first);
        let inner = run(mid.0, second.drop_last());
        let last = transition(inner.0, second.last());
        assert((mid.1 + inner.1) + last.1 =~= mid.1 + (inner.1 + last.1));
    }
}

/// No event ends a running relay or changes it: whatever is received, and
/// whatever fails to be received or sent, it stays as it is.
pub proof fn lemma_running_is_stable(state: RelayView, events: Seq<EventView>)
    requires
        state.phase is Running,
    ensures
        run(state, events).0 == state,
    decreases events.len(),
{
    if events.len() > 0 {
        lemma_running_is_stable(state, events.drop_last());
    }
}

/// Only a failed subscription ends a relay, and no event changes its table
/// or the universes it listens to.
pub proof fn lemma_only_subscription_failure_is_fatal(state: RelayView, event: EventView)
    ensures
        transition(state, event).0.table == state.table,
        transition(state, event).0.universes == state.universes,
        transition(state, event).0.phase is Failed ==> state.phase is Failed || (state.phase
            is Subscribed && event is ListenFailed),
{
}

/// A failure to receive is isolated: the relay asks for the next packet,
/// and everything it sends for the events before and after is what it
/// would have sent without the failure.
pub proof fn lemma_receive_failure_is_isolated(
    state: RelayView,
    before: Seq<EventView>,
    after: Seq<EventView>,
)
    requires
        state.phase is Running,
    ensures
        transition(state, EventView::ReceiveFailed) == (state, seq![ActionView::Receive]),
        run(state, before + seq![EventView::ReceiveFailed] + after).0 == run(
            state,
            before + after,
        ).0,
        sent(run(state, before + seq![EventView::ReceiveFailed] + after).1) == sent(
            run(state, before + after).1,
        ),
{
    let failure = seq![EventView::ReceiveFailed];
    let receive = seq![ActionView::Receive];
    let is_send = |a: ActionView| a is Send;
    lemma_running_is_stable(state, before);
    lemma_run_split(state, before, failure);
    lemma_run_split(state, before + failure, after);
    lemma_run_split(state, before, after);
    assert(run(state, failure).1 =~= receive) by {
        reveal_with_fuel(run, 2);
        assert(failure.drop_last() =~= Seq::empty());
        assert(failure.last() == EventView::ReceiveFailed);
        assert(Seq::<ActionView>::empty() + receive =~= receive);
    }
    lemma_running_is_stable(state, before + failure);
    let x = run(state, before).1;
    let y = run(state, after).1;
    assert(receive.filter(is_send) =~= Seq::empty()) by {
        reveal_with_fuel(Seq::filter, 2);
        assert(receive.drop_last() =~= Seq::empty());
    }
    Seq::filter_distributes_over_add(x, receive, is_send);
    Seq::filter_distributes_over_add(x + receive, y, is_send);
    Seq::filter_distributes_over_add(x, y, is_send);
    assert(x.filter(is_send) + Seq::<ActionView>::empty() =~= x.filter(is_send));
}

} // verus!
