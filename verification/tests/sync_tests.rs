use rust_stuff::mux;
use rust_stuff::sync::{Event, Registry, ServerError, Uid};

#[test]
fn uid_next_counts_up() {
    let u = Uid(0);
    assert_eq!(u.next(), Uid(1));
    assert_eq!(u.next().next().next(), Uid(3));
    let m = mux::Uid(41);
    assert_eq!(m.next(), mux::Uid(42));
}

#[test]
fn connected_announces_a_pending_uid() {
    let mut reg = Registry::new();
    reg.accepted(Uid(1));
    match reg.on_event(Event::Connected(Uid(1))) {
        Ok(Event::Connected(u)) => assert_eq!(u, Uid(1)),
        _ => panic!("pending uid was not announced"),
    }
    assert!(reg.check_send(Uid(1)).is_ok());
}

#[test]
fn connected_without_accept_is_invalid() {
    let mut reg = Registry::new();
    match reg.on_event(Event::Connected(Uid(5))) {
        Err(ServerError::InvalidState(_)) => (),
        _ => panic!("unknown uid was announced"),
    }
}

#[test]
fn disconnected_retires_a_connected_uid() {
    let mut reg = Registry::new();
    reg.accepted(Uid(2));
    reg.on_event(Event::Connected(Uid(2))).unwrap();
    match reg.on_event(Event::Disconnected(Uid(2))) {
        Ok(Event::Disconnected(u)) => assert_eq!(u, Uid(2)),
        _ => panic!("connected uid was not retired"),
    }
    match reg.check_send(Uid(2)) {
        Err(ServerError::NotConnected) => (),
        _ => panic!("retired uid still accepts sends"),
    }
}

#[test]
fn disconnected_without_connection_is_invalid() {
    let mut reg = Registry::new();
    match reg.on_event(Event::Disconnected(Uid(9))) {
        Err(ServerError::InvalidState(_)) => (),
        _ => panic!("unknown uid was retired"),
    }
}

#[test]
fn other_events_pass_through() {
    let mut reg = Registry::new();
    match reg.on_event(Event::Recv(Uid(3), vec![1, 2, 3])) {
        Ok(Event::Recv(u, data)) => {
            assert_eq!(u, Uid(3));
            assert_eq!(data, vec![1, 2, 3]);
        },
        _ => panic!("a receive event was not passed through"),
    }
}

#[test]
fn mux_registry_mirrors_sync() {
    let mut reg = mux::Registry::new();
    reg.accepted(mux::Uid(1));
    assert!(matches!(
        reg.on_event(mux::Event::Connected(mux::Uid(1))),
        Ok(mux::Event::Connected(_))
    ));
    assert!(reg.check_send(mux::Uid(1)).is_ok());
    match reg.check_send(mux::Uid(2)) {
        Err(mux::MuxServerError::NotConnected) => (),
        _ => panic!("unknown uid accepted a send"),
    }
}
