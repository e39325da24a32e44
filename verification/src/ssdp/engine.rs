//! The life of the announcer as a state machine: what it sends at startup,
//! on every tick, on a search, and when it is told to stop.

use crate::ssdp::listener::Verdict;
use vstd::prelude::*;

verus! {

/// The port of the SSDP channel.
pub const SSDP_PORT: u16 = 1900;

/// The time, in seconds, that the farewell may take at shutdown.
pub const SHUTDOWN_DEADLINE_SECS: u64 = 2;

/// The least time, in seconds, for which listeners keep an announcement.
pub const MIN_CACHE_MAX_AGE: usize = 20;

/// An IPv4 address and a port.
#[derive(Debug, Clone, Copy, PartialEq, Eq, Structural)]
pub struct Endpoint {
    pub a: u8,
    pub b: u8,
    pub c: u8,
    pub d: u8,
    pub port: u16,
}

/// The multicast group of the SSDP channel, `239.255.255.250:1900`.
pub open spec fn ssdp_group() -> Endpoint {
    Endpoint { a: 239, b: 255, c: 255, d: 250, port: SSDP_PORT }
}

/// The multicast group of the SSDP channel.
pub fn ssdp_address() -> (e: Endpoint)
    ensures
        e == ssdp_group(),
{
    Endpoint { a: 239, b: 255, c: 255, d: 250, port: SSDP_PORT }
}

/// Where the socket that receives searches is bound: every interface, on
/// the port of the channel.
pub fn listen_address() -> (e: Endpoint)
    ensures
        e == (Endpoint { a: 0, b: 0, c: 0, d: 0, port: SSDP_PORT }),
{
    Endpoint { a: 0, b: 0, c: 0, d: 0, port: SSDP_PORT }
}

/// Where the socket that sends announcements is bound: every interface, on
/// a port that the system picks. Some listeners drop announcements that
/// come from the port of the channel.
pub fn broadcast_address() -> (e: Endpoint)
    ensures
        e == (Endpoint { a: 0, b: 0, c: 0, d: 0, port: 0 }),
{
    Endpoint { a: 0, b: 0, c: 0, d: 0, port: 0 }
}

/// The time, in seconds, for which listeners keep an announcement that is
/// repeated every `period_secs` seconds: twice the period, and no less than
/// twenty.
pub open spec fn max_age_for(period_secs: nat) -> nat {
    if 2 * period_secs < MIN_CACHE_MAX_AGE {
        MIN_CACHE_MAX_AGE as nat
    } else {
        2 * period_secs
    }
}

/// Computes the `max-age` of the announcements.
pub fn cache_max_age(period_secs: u64) -> (age: usize)
    requires
        2 * period_secs <= usize::MAX,
    ensures
        age == max_age_for(period_secs as nat),
{
    let doubled: usize = 2 * (period_secs as usize);
    if doubled < MIN_CACHE_MAX_AGE {
        MIN_CACHE_MAX_AGE
    } else {
        doubled
    }
}

/// The states of the announcer.
#[derive(Debug, Clone, Copy, PartialEq, Eq, Structural)]
pub enum EngineState {
    /// The first farewell, which clears what listeners remember, is on its
    /// way.
    Initial,
    /// The server is announced and searches are answered.
    Started,
    /// The last farewell is on its way.
    Draining,
    /// Nothing more is sent.
    Exited,
}

/// What happens to the announcer.
#[derive(Debug, Clone, Copy, PartialEq, Eq, Structural)]
pub enum Event {
    /// A farewell was sent.
    ByebyeSent,
    /// A farewell could not be sent.
    ByebyeFailed,
    /// A farewell was not sent within its deadline.
    DeadlineReached,
    /// The period has passed.
    Tick,
    /// An announcement was sent.
    AliveSent,
    /// An announcement could not be sent.
    AliveFailed,
    /// A datagram arrived from `from`, with the given verdict on it.
    Datagram { verdict: Verdict, from: Endpoint },
    /// The process was told to stop.
    Signal,
}

/// What the announcer is to do.
#[derive(Debug, Clone, Copy, PartialEq, Eq, Structural)]
pub enum Action {
    /// Nothing.
    Wait,
    /// Send a farewell to `to`; give up after `deadline_secs` seconds
    /// where a deadline is set.
    SendByebye { to: Endpoint, deadline_secs: Option<u64> },
    /// Send an announcement to `to`.
    SendAlive { to: Endpoint },
    /// Send an answer to `to`.
    Reply { to: Endpoint },
    /// End the process with `code`.
    Exit { code: u8 },
}

/// What the announcer does first, in the state `Initial`: it sends a
/// farewell, without a deadline.
pub open spec fn first_action() -> Action {
    Action::SendByebye { to: ssdp_group(), deadline_secs: None }
}

/// The state that follows and the action that is taken when `event`
/// happens in `state`.
///
/// The first farewell, once sent, starts the announcer with an
/// announcement; a first farewell that fails ends the process with a
/// failure. Once started, every tick brings an announcement, whether or not
/// the one before was sent, and every search for the server an answer to
/// its sender. A signal, before or after the start, brings the last
/// farewell, with a deadline; however a farewell ends after that, the
/// process ends with success. Nothing else has an effect.
pub open spec fn next(state: EngineState, event: Event) -> (EngineState, Action) {
    match (state, event) {
        (EngineState::Initial, Event::ByebyeSent) => (
            EngineState::Started,
            Action::SendAlive { to: ssdp_group() },
        ),
        (EngineState::Initial, Event::ByebyeFailed) => (
            EngineState::Exited,
            Action::Exit { code: 1 },
        ),
        (EngineState::Initial, Event::Signal) => (
            EngineState::Draining,
            Action::SendByebye {
                to: ssdp_group(),
                deadline_secs: Some(SHUTDOWN_DEADLINE_SECS),
            },
        ),
        (EngineState::Started, Event::Tick) => (
            EngineState::Started,
            Action::SendAlive { to: ssdp_group() },
        ),
        (EngineState::Started, Event::Datagram { verdict: Verdict::Respond, from }) => (
            EngineState::Started,
            Action::Reply { to: from },
        ),
        (EngineState::Started, Event::Signal) => (
            EngineState::Draining,
            Action::SendByebye {
                to: ssdp_group(),
                deadline_secs: Some(SHUTDOWN_DEADLINE_SECS),
            },
        ),
        (EngineState::Draining, Event::ByebyeSent) => (
            EngineState::Exited,
            Action::Exit { code: 0 },
        ),
        (EngineState::Draining, Event::ByebyeFailed) => (
            EngineState::Exited,
            Action::Exit { code: 0 },
        ),
        (EngineState::Draining, Event::DeadlineReached) => (
            EngineState::Exited,
            Action::Exit { code: 0 },
        ),
        _ => (state, Action::Wait),
    }
}

/// The first action of the announcer.
pub fn start() -> (r: (EngineState, Action))
    ensures
        r == (EngineState::Initial, first_action()),
{
    (EngineState::Initial, Action::SendByebye { to: ssdp_address(), deadline_secs: None })
}

/// Takes the step that `event` calls for in `state`.
pub fn step(state: EngineState, event: Event) -> (r: (EngineState, Action))
    ensures
        r == next(state, event),
{
    match state {
        EngineState::Initial => match event {
            Event::ByebyeSent => (EngineState::Started, Action::SendAlive { to: ssdp_address() }),
            Event::ByebyeFailed => (EngineState::Exited, Action::Exit { code: 1 }),
            Event::Signal => (
                EngineState::Draining,
                Action::SendByebye {
                    to: ssdp_address(),
                    deadline_secs: Some(SHUTDOWN_DEADLINE_SECS),
                },
            ),
            _ => (state, Action::Wait),
        },
        EngineState::Started => match event {
            Event::Tick => (EngineState::Started, Action::SendAlive { to: ssdp_address() }),
            Event::Datagram { verdict, from } => match verdict {
                Verdict::Respond => (EngineState::Started, Action::Reply { to: from }),
                _ => (state, Action::Wait),
            },
            Event::Signal => (
                EngineState::Draining,
                Action::SendByebye {
                    to: ssdp_address(),
                    deadline_secs: Some(SHUTDOWN_DEADLINE_SECS),
                },
            ),
            _ => (state, Action::Wait),
        },
        EngineState::Draining => match event {
            Event::ByebyeSent => (EngineState::Exited, Action::Exit { code: 0 }),
            Event::ByebyeFailed => (EngineState::Exited, Action::Exit { code: 0 }),
            Event::DeadlineReached => (EngineState::Exited, Action::Exit { code: 0 }),
            _ => (state, Action::Wait),
        },
        EngineState::Exited => (state, Action::Wait),
    }
}

/// The state after the events `events`, one after the other, from `state`.
pub open spec fn state_after(state: EngineState, events: Seq<Event>) -> EngineState
    decreases events.len(),
{
    if events.len() == 0 {
        state
    } else {
        next(state_after(state, events.drop_last()), events.last()).0
    }
}

/// The action that the last of the events `events` brings, from `state`.
pub open spec fn last_action(state: EngineState, events: Seq<Event>) -> Action
    recommends
        events.len() > 0,
{
    next(state_after(state, events.drop_last()), events.last()).1
}

/// How far a state is on the way from `Initial` to `Exited`.
pub open spec fn stage(state: EngineState) -> nat {
    match state {
        EngineState::Initial => 0,
        EngineState::Started => 1,
        EngineState::Draining => 2,
        EngineState::Exited => 3,
    }
}

/// No step leads back: the announcer moves from `Initial` towards `Exited`
/// only.
pub proof fn lemma_never_back(state: EngineState, event: Event)
    ensures
        stage(state) <= stage(next(state, event).0),
{
}

/// An announcement or an answer is sent only by a step that ends in
/// `Started`, and an answer goes to the sender of a search that is answered.
pub proof fn lemma_sends_while_started(state: EngineState, event: Event)
    ensures
        next(state, event).1 is SendAlive ==> next(state, event).0 == EngineState::Started,
        next(state, event).1 matches Action::Reply { to } ==> state == EngineState::Started
            && event == (Event::Datagram { verdict: Verdict::Respond, from: to }),
        state == EngineState::Started ==> (next(state, event).1 is Reply <==> event is Datagram
            && event->verdict == Verdict::Respond),
{
}

/// Every signal that comes before the end brings the last farewell, with
/// its deadline: before the start as well as after it.
pub proof fn lemma_signal_brings_farewell(state: EngineState)
    requires
        state == EngineState::Initial || state == EngineState::Started,
    ensures
        next(state, Event::Signal) == (
            EngineState::Draining,
            Action::SendByebye { to: ssdp_group(), deadline_secs: Some(SHUTDOWN_DEADLINE_SECS) },
        ),
{
}

/// The last farewell completes the shutdown however it ends: sent, failed
/// or late, the process ends with success.
pub proof fn lemma_shutdown_completes(event: Event)
    requires
        event == Event::ByebyeSent || event == Event::ByebyeFailed || event
            == Event::DeadlineReached,
    ensures
        next(EngineState::Draining, event) == (EngineState::Exited, Action::Exit { code: 0 }),
{
}

/// From `Initial`, no announcement and no answer is sent before the first
/// farewell was sent: as long as no event `ByebyeSent` has happened, the
/// announcer is not started and sends nothing but farewells.
pub proof fn lemma_byebye_comes_first(events: Seq<Event>)
    requires
        forall|i: int| 0 <= i < events.len() ==> events[i] != Event::ByebyeSent,
    ensures
        state_after(EngineState::Initial, events) != EngineState::Started,
        events.len() > 0 ==> !(last_action(EngineState::Initial, events) is SendAlive)
            && !(last_action(EngineState::Initial, events) is Reply),
    decreases events.len(),
{
    if events.len() > 0 {
        lemma_byebye_comes_first(events.drop_last());
    }
}

/// After a signal in `Started`, nothing but the farewell and the end of the
/// process follows: no announcement and no answer.
pub proof fn lemma_silent_after_signal(state: EngineState, events: Seq<Event>)
    requires
        state == EngineState::Draining || state == EngineState::Exited,
    ensures
        stage(state_after(state, events)) >= 2,
        events.len() > 0 ==> !(last_action(state, events) is SendAlive) && !(last_action(
            state,
            events,
        ) is Reply),
    decreases events.len(),
{
    if events.len() > 0 {
        lemma_silent_after_signal(state, events.drop_last());
    }
}

/// Whoever has announced the server says farewell before the end: where
/// the announcer has left `Started`, one of the events was the signal that
/// ordered the last farewell, and nothing was announced or answered after it.
pub proof fn lemma_farewell_follows(events: Seq<Event>)
    requires
        state_after(EngineState::Started, events) != EngineState::Started,
    ensures
        exists|i: int|
            0 <= i < events.len() && #[trigger] last_action(
                EngineState::Started,
                events.take(i + 1),
            ) == (Action::SendByebye {
                to: ssdp_group(),
                deadline_secs: Some(SHUTDOWN_DEADLINE_SECS),
            }) && forall|j: int|
                i < j < events.len() ==> !(#[trigger] last_action(
                    EngineState::Started,
                    events.take(j + 1),
                ) is SendAlive) && !(last_action(
                    EngineState::Started,
                    events.take(j + 1),
                ) is Reply),
    decreases events.len(),
{
    let start = EngineState::Started;
    if events.len() > 0 {
        let earlier = events.drop_last();
        let last = events.len() - 1;
        assert(events.take(last + 1) =~= events);
        if state_after(start, earlier) == EngineState::Started {
            assert(last_action(start, events.take(last + 1)) == (Action::SendByebye {
                to: ssdp_group(),
                deadline_secs: Some(SHUTDOWN_DEADLINE_SECS),
            }));
        } else {
            lemma_farewell_follows(earlier);
            let i = choose|i: int|
                0 <= i < earlier.len() && #[trigger] last_action(start, earlier.take(i + 1)) == (
                Action::SendByebye {
                    to: ssdp_group(),
                    deadline_secs: Some(SHUTDOWN_DEADLINE_SECS),
                }) && forall|j: int|
                    i < j < earlier.len() ==> !(#[trigger] last_action(
                        start,
                        earlier.take(j + 1),
                    ) is SendAlive) && !(last_action(start, earlier.take(j + 1)) is Reply);
            assert(earlier.take(i + 1) =~= events.take(i + 1));
            assert forall|j: int| i < j < events.len() implies !(#[trigger] last_action(
                start,
                events.take(j + 1),
            ) is SendAlive) && !(last_action(start, events.take(j + 1)) is Reply) by {
                if j < last {
                    assert(earlier.take(j + 1) =~= events.take(j + 1));
                } else {
                    lemma_stage_only_grows(start, earlier);
                }
            }
        }
    }
}

/// The announcer never moves back, however many events happen.
pub proof fn lemma_stage_only_grows(state: EngineState, events: Seq<Event>)
    ensures
        stage(state) <= stage(state_after(state, events)),
    decreases events.len(),
{
    if events.len() > 0 {
        lemma_stage_only_grows(state, events.drop_last());
        lemma_never_back(state_after(state, events.drop_last()), events.last());
    }
}

} // verus!
