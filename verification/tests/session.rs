use foxtime::binary64::reading_from_seconds;
use foxtime::estimator::ServerReading;
use foxtime::clock::{now, ClockError, Timestamp};
use foxtime::session::{answer, Lifecycle, Reaction, RemoteEndpoint, Session};
use foxtime::wire::parse_response;

fn ts(nanos: u128) -> Timestamp {
    Timestamp::from_nanos(nanos).unwrap()
}

fn peer(port: u16) -> RemoteEndpoint {
    RemoteEndpoint { address: 1, port }
}

#[test]
fn new_session_is_active() {
    let session = Session::open(peer(4433));
    assert_eq!(session.state, Lifecycle::Active);
    assert_eq!(session.remote, peer(4433));
    assert!(session.is_active());
}

#[test]
fn answer_is_token_and_reading() {
    let reaction = answer(&[1, 2, 3, 4, 5, 6, 7, 8], Ok(ts(1_000_000_000_000)));
    assert_eq!(
        reaction,
        Reaction::Reply(vec![1, 2, 3, 4, 5, 6, 7, 8, 0, 0, 0, 0, 0, 0x40, 0x8f, 0x40])
    );
}

#[test]
fn answer_copies_only_the_first_eight_bytes() {
    let reaction = answer(&[9, 9, 9, 9, 9, 9, 9, 9, 1, 2, 3], Ok(ts(1_500_000_000)));
    let mut expected = vec![9u8; 8];
    expected.extend_from_slice(&1.5f64.to_le_bytes());
    assert_eq!(reaction, Reaction::Reply(expected));
}

#[test]
fn answer_drops_the_request_when_the_clock_fails() {
    assert_eq!(answer(&[1, 2, 3, 4, 5, 6, 7, 8], Err(ClockError::BeforeEpoch)), Reaction::Wait);
}

#[test]
fn answer_to_a_short_datagram_is_silence() {
    assert_eq!(answer(&[], Ok(ts(5))), Reaction::Wait);
    assert_eq!(answer(&[1, 2, 3, 4, 5, 6, 7], Ok(ts(5))), Reaction::Wait);
}

#[test]
fn short_datagram_is_passed_over_and_the_next_is_served() {
    let mut session = Session::open(peer(1));
    for len in 0..8usize {
        assert_eq!(session.on_datagram(&vec![0x55; len]), Reaction::Wait);
        assert_eq!(session.state, Lifecycle::Active);
    }
    let before = now().unwrap();
    let reaction = session.on_datagram(&[10, 20, 30, 40, 50, 60, 70, 80]);
    let after = now().unwrap();
    assert_eq!(session.state, Lifecycle::Active);
    match reaction {
        Reaction::Reply(bytes) => {
            assert_eq!(bytes.len(), 16);
            let response = parse_response(&bytes).unwrap();
            assert_eq!(response.token, [10, 20, 30, 40, 50, 60, 70, 80]);
            // the reading went out as the binary64 nearest to it
            let served = match reading_from_seconds(response.timestamp_bits) {
                ServerReading::At { negative: false, nanos, .. } => nanos,
                other => panic!("no time: {:?}", other),
            };
            assert!(served + 1_000 >= before.as_nanos());
            assert!(served <= after.as_nanos() + 1_000);
        }
        other => panic!("no reply: {:?}", other),
    }
}

#[test]
fn two_sessions_echo_their_own_tokens() {
    let mut first = Session::open(peer(1));
    let mut second = Session::open(peer(2));
    let a = first.on_datagram(b"AAAAAAAA");
    let b = second.on_datagram(b"BBBBBBBB");
    let a2 = first.on_datagram(b"AAAAAAA2");
    match (a, b, a2) {
        (Reaction::Reply(a), Reaction::Reply(b), Reaction::Reply(a2)) => {
            assert_eq!(&a[0..8], b"AAAAAAAA");
            assert_eq!(&b[0..8], b"BBBBBBBB");
            assert_eq!(&a2[0..8], b"AAAAAAA2");
        }
        other => panic!("no reply: {:?}", other),
    }
}

#[test]
fn closed_session_answers_nothing() {
    let mut session = Session::open(peer(1));
    assert_eq!(session.on_closed(), Reaction::Stop);
    assert_eq!(session.state, Lifecycle::Closed);
    assert!(!session.is_active());
    assert_eq!(session.on_datagram(&[1, 2, 3, 4, 5, 6, 7, 8]), Reaction::Stop);
    assert_eq!(session.on_datagram(&[1]), Reaction::Stop);
    assert_eq!(session.on_wake(false, Some(&[1, 2, 3, 4, 5, 6, 7, 8])), Reaction::Stop);
    assert_eq!(session.on_wake(false, None), Reaction::Stop);
    assert_eq!(session.state, Lifecycle::Closed);
    assert_eq!(session.remote, peer(1));
}

#[test]
fn close_signal_wins_over_a_datagram_at_hand() {
    let mut session = Session::open(peer(1));
    assert_eq!(session.on_wake(true, Some(&[1, 2, 3, 4, 5, 6, 7, 8])), Reaction::Stop);
    assert_eq!(session.state, Lifecycle::Closed);
    let mut session = Session::open(peer(1));
    assert_eq!(session.on_wake(true, None), Reaction::Stop);
    assert_eq!(session.state, Lifecycle::Closed);
}

#[test]
fn wake_without_close_serves_the_datagram() {
    let mut session = Session::open(peer(1));
    assert_eq!(session.on_wake(false, None), Reaction::Wait);
    assert_eq!(session.on_wake(false, Some(&[1, 2, 3])), Reaction::Wait);
    match session.on_wake(false, Some(b"tokentok")) {
        Reaction::Reply(bytes) => assert_eq!(&bytes[0..8], b"tokentok"),
        other => panic!("no reply: {:?}", other),
    }
    assert_eq!(session.state, Lifecycle::Active);
}

#[test]
fn transport_failure_ends_the_session() {
    let mut session = Session::open(peer(7));
    let mut sibling = Session::open(peer(8));
    assert_eq!(session.on_transport_failure(), Reaction::Stop);
    assert_eq!(session.state, Lifecycle::Closed);
    assert_eq!(sibling.state, Lifecycle::Active);
    match sibling.on_datagram(b"siblings") {
        Reaction::Reply(bytes) => assert_eq!(&bytes[0..8], b"siblings"),
        other => panic!("no reply: {:?}", other),
    }
}
