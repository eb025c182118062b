use foxtime::acceptor::{Acceptor, AcceptorAction, AcceptorEvent, AcceptorState};
use foxtime::session::{Lifecycle, RemoteEndpoint, Session};

fn peer(port: u16) -> RemoteEndpoint {
    RemoteEndpoint { address: 0x0000_0000_0000_0000_0000_ffff_7f00_0001, port }
}

#[test]
fn acceptor_starts_idle_and_then_accepts() {
    let mut acceptor = Acceptor::new();
    assert_eq!(acceptor.state, AcceptorState::Idle);
    assert_eq!(acceptor.start(), AcceptorAction::AwaitSession);
    assert_eq!(acceptor.state, AcceptorState::Accepting);
}

#[test]
fn every_accepted_session_gets_a_handler() {
    let mut acceptor = Acceptor::new();
    acceptor.start();
    for port in 1..100u16 {
        let action = acceptor.on_accepted(peer(port));
        assert_eq!(
            action,
            AcceptorAction::Spawn(Session { remote: peer(port), state: Lifecycle::Active })
        );
        assert_eq!(acceptor.state, AcceptorState::Accepting);
    }
}

#[test]
fn finished_handlers_do_not_concern_the_acceptor() {
    let mut acceptor = Acceptor::new();
    acceptor.start();
    acceptor.on_accepted(peer(1));
    assert_eq!(acceptor.on_event(AcceptorEvent::HandlerFinished), AcceptorAction::Ignore);
    assert_eq!(acceptor.state, AcceptorState::Accepting);
    assert_eq!(
        acceptor.on_accepted(peer(2)),
        AcceptorAction::Spawn(Session::open(peer(2)))
    );
}

#[test]
fn accept_failure_is_fatal() {
    let mut acceptor = Acceptor::new();
    acceptor.start();
    assert_eq!(acceptor.on_accept_failed(), AcceptorAction::Shutdown);
    assert_eq!(acceptor.state, AcceptorState::Failed);
    assert_eq!(acceptor.on_accepted(peer(1)), AcceptorAction::Shutdown);
    assert_eq!(acceptor.start(), AcceptorAction::Shutdown);
    assert_eq!(acceptor.on_event(AcceptorEvent::HandlerFinished), AcceptorAction::Shutdown);
    assert_eq!(acceptor.state, AcceptorState::Failed);
}

#[test]
fn idle_acceptor_ignores_all_but_start() {
    let mut acceptor = Acceptor::new();
    assert_eq!(acceptor.on_accepted(peer(1)), AcceptorAction::Ignore);
    assert_eq!(acceptor.on_accept_failed(), AcceptorAction::Ignore);
    assert_eq!(acceptor.state, AcceptorState::Idle);
    let mut acceptor = Acceptor::new();
    acceptor.start();
    assert_eq!(acceptor.start(), AcceptorAction::Ignore);
    assert_eq!(acceptor.state, AcceptorState::Accepting);
}
