//! The announcer's states, and what it sends in each.

use dlnaproxy::ssdp::engine::{
    broadcast_address, cache_max_age, listen_address, ssdp_address, start, step, Action, Endpoint,
    EngineState, Event, SHUTDOWN_DEADLINE_SECS,
};
use dlnaproxy::ssdp::listener::{handle_datagram, SsdpError, Verdict};

const GROUP: Endpoint = Endpoint { a: 239, b: 255, c: 255, d: 250, port: 1900 };

fn all_events() -> Vec<Event> {
    let peer = Endpoint { a: 192, b: 0, c: 2, d: 7, port: 50000 };
    vec![
        Event::ByebyeSent,
        Event::ByebyeFailed,
        Event::DeadlineReached,
        Event::Tick,
        Event::AliveSent,
        Event::AliveFailed,
        Event::Datagram { verdict: Verdict::Respond, from: peer },
        Event::Datagram { verdict: Verdict::Ignore, from: peer },
        Event::Datagram { verdict: Verdict::Reject(SsdpError::Malformed), from: peer },
        Event::Signal,
    ]
}

#[test]
fn test_addresses() {
    assert_eq!(ssdp_address(), GROUP);
    assert_eq!(listen_address(), Endpoint { a: 0, b: 0, c: 0, d: 0, port: 1900 });
    assert_eq!(broadcast_address(), Endpoint { a: 0, b: 0, c: 0, d: 0, port: 0 });
}

#[test]
fn test_cache_max_age() {
    assert_eq!(cache_max_age(0), 20);
    assert_eq!(cache_max_age(9), 20);
    assert_eq!(cache_max_age(10), 20);
    assert_eq!(cache_max_age(11), 22);
    assert_eq!(cache_max_age(15), 30);
    assert_eq!(cache_max_age(20), 40);
    assert_eq!(cache_max_age(895), 1790);
}

#[test]
fn test_starts_with_a_byebye() {
    assert_eq!(
        start(),
        (EngineState::Initial, Action::SendByebye { to: GROUP, deadline_secs: None })
    );
}

#[test]
fn test_initial_byebye_starts_the_announcer() {
    assert_eq!(
        step(EngineState::Initial, Event::ByebyeSent),
        (EngineState::Started, Action::SendAlive { to: GROUP })
    );
}

#[test]
fn test_initial_byebye_failure_is_fatal() {
    assert_eq!(
        step(EngineState::Initial, Event::ByebyeFailed),
        (EngineState::Exited, Action::Exit { code: 1 })
    );
}

#[test]
fn test_nothing_is_sent_before_the_first_byebye() {
    for event in all_events() {
        if event == Event::ByebyeSent || event == Event::ByebyeFailed || event == Event::Signal {
            continue;
        }
        assert_eq!(step(EngineState::Initial, event), (EngineState::Initial, Action::Wait));
    }
}

#[test]
fn test_signal_before_the_start_brings_a_byebye_and_the_exit() {
    let (state, action) = step(EngineState::Initial, Event::Signal);
    assert_eq!(state, EngineState::Draining);
    assert_eq!(action, Action::SendByebye { to: GROUP, deadline_secs: Some(2) });
    for outcome in [Event::ByebyeSent, Event::ByebyeFailed, Event::DeadlineReached] {
        assert_eq!(step(state, outcome), (EngineState::Exited, Action::Exit { code: 0 }));
    }
}

#[test]
fn test_every_tick_announces() {
    let mut state = EngineState::Started;
    for outcome in [Event::AliveSent, Event::AliveFailed, Event::AliveFailed, Event::AliveSent] {
        let (next, action) = step(state, Event::Tick);
        assert_eq!(action, Action::SendAlive { to: GROUP });
        let (next, action) = step(next, outcome);
        assert_eq!((next, action), (EngineState::Started, Action::Wait));
        state = next;
    }
}

#[test]
fn test_search_is_answered_to_its_sender() {
    let peer = Endpoint { a: 192, b: 0, c: 2, d: 7, port: 50000 };
    let first = b"M-SEARCH * HTTP/1.1\r\nHOST: 239.255.255.250:1900\r\nST: ssdp:all\r\n\r\n";
    let event = Event::Datagram { verdict: handle_datagram(first), from: peer };
    assert_eq!(
        step(EngineState::Started, event),
        (EngineState::Started, Action::Reply { to: peer })
    );
    let second = b"M-SEARCH * HTTP/1.1\r\nHOST: 239.255.255.250:1900\r\nST: urn:other\r\n\r\n";
    let event = Event::Datagram { verdict: handle_datagram(second), from: peer };
    assert_eq!(step(EngineState::Started, event), (EngineState::Started, Action::Wait));
}

#[test]
fn test_malformed_datagram_changes_nothing() {
    let peer = Endpoint { a: 10, b: 0, c: 0, d: 1, port: 1900 };
    let event = Event::Datagram { verdict: handle_datagram(b"\xff\xfe"), from: peer };
    assert_eq!(step(EngineState::Started, event), (EngineState::Started, Action::Wait));
}

#[test]
fn test_signal_brings_a_byebye_and_the_exit() {
    assert_eq!(SHUTDOWN_DEADLINE_SECS, 2);
    let (state, action) = step(EngineState::Started, Event::Signal);
    assert_eq!(state, EngineState::Draining);
    assert_eq!(action, Action::SendByebye { to: GROUP, deadline_secs: Some(2) });
    for outcome in [Event::ByebyeSent, Event::ByebyeFailed, Event::DeadlineReached] {
        assert_eq!(step(state, outcome), (EngineState::Exited, Action::Exit { code: 0 }));
    }
}

#[test]
fn test_nothing_is_announced_while_draining() {
    for event in all_events() {
        let (state, action) = step(EngineState::Draining, event);
        assert!(state == EngineState::Draining || state == EngineState::Exited);
        assert!(action == Action::Wait || action == Action::Exit { code: 0 });
    }
}

#[test]
fn test_exited_is_final() {
    for event in all_events() {
        assert_eq!(step(EngineState::Exited, event), (EngineState::Exited, Action::Wait));
    }
}
