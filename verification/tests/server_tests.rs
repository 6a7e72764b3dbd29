use rust_stuff::codec::encode_frame;
use rust_stuff::server::{HupOutcome, ReadOutcome, Server, TickAction, WriteReady};
use rust_stuff::types::{Addr, ConnectionUid, Error};

const MAX_MSG: usize = 32768;

fn addr(n: u16) -> Addr {
    Addr { ip: 0x7f000001, port: n }
}

/// Runs one tick and returns the admitted uids, in admission order.
fn admit_all(server: &mut Server) -> Vec<ConnectionUid> {
    let mut uids = Vec::new();
    for act in server.tick() {
        if let TickAction::Admitted(_, uid) = act {
            uids.push(uid);
        }
    }
    uids
}

#[test]
fn capacity_bound_on_accept() {
    // with two slots, the third concurrent accept is not admitted
    let mut server = Server::new(2, MAX_MSG);
    server.socket_accepted(addr(1));
    server.socket_accepted(addr(2));
    server.socket_accepted(addr(3));
    let acts = server.tick();
    let admitted = acts
        .iter()
        .filter(|a| matches!(a, TickAction::Admitted(_, _)))
        .count();
    let dropped = acts
        .iter()
        .filter(|a| matches!(a, TickAction::DroppedNew))
        .count();
    assert_eq!(admitted, 2);
    assert_eq!(dropped, 1);
}

#[test]
fn capacity_bound_on_connect() {
    // with two slots taken, a further connect returns ConnectionLimit
    let mut server = Server::new(2, MAX_MSG);
    server.connect_requested(addr(1)).unwrap();
    server.connect_requested(addr(2)).unwrap();
    match server.connect_requested(addr(3)) {
        Err(Error::ConnectionLimit) => (),
        _ => panic!("third connect was admitted past capacity"),
    }
}

#[test]
fn slot_reuse_rejects_stale_uid() {
    let mut server = Server::new(1, MAX_MSG);
    server.socket_accepted(addr(1));
    let uid_a = admit_all(&mut server)[0];

    // connection A closes; its slot is recycled for connection B
    server.close_connection(uid_a);
    let closed = server
        .tick()
        .into_iter()
        .filter(|a| matches!(a, TickAction::Closed(_, _)))
        .count();
    assert_eq!(closed, 1);

    server.socket_accepted(addr(2));
    let uid_b = admit_all(&mut server)[0];
    assert_eq!(uid_a.slot, uid_b.slot);
    assert_ne!(uid_a, uid_b);

    // a send through the stale uid must not reach B
    assert_eq!(server.send(&uid_a, b"ghost"), None);
    assert_eq!(server.pending_of(uid_b.slot).unwrap().len(), 0);

    // while the live uid does
    assert_eq!(server.send(&uid_b, b"real"), Some(uid_b.slot));
    assert_eq!(
        server.pending_of(uid_b.slot).unwrap().as_slice(),
        encode_frame(b"real").as_slice()
    );
}

#[test]
fn message_order_is_kept_across_split_reads() {
    let mut server = Server::new(1, MAX_MSG);
    server.socket_accepted(addr(1));
    let uid = admit_all(&mut server)[0];
    let slot = uid.slot;

    let mut stream = Vec::new();
    stream.extend_from_slice(&encode_frame(b"m1"));
    stream.extend_from_slice(&encode_frame(b"m2"));
    stream.extend_from_slice(&encode_frame(b"m3"));
    // deliver in awkward pieces, as partial socket reads would
    let (a, rest) = stream.split_at(3);
    let (b, c) = rest.split_at(8);

    let mut got = Vec::new();
    for chunk in [a, b, c] {
        server.feed_bytes(slot, chunk);
        loop {
            match server.next_message_at(slot) {
                ReadOutcome::Message(u, m) => {
                    assert_eq!(u, uid);
                    got.push(m);
                },
                ReadOutcome::NeedMore => break,
                _ => panic!("unexpected read outcome"),
            }
        }
    }
    assert_eq!(got, vec![b"m1".to_vec(), b"m2".to_vec(), b"m3".to_vec()]);
}

#[test]
fn oversize_frame_closes_without_message() {
    let mut server = Server::new(1, 8);
    server.socket_accepted(addr(1));
    let uid = admit_all(&mut server)[0];

    // a declared length past the maximum: violation, no message callback
    server.feed_bytes(uid.slot, &[0x00, 0x00, 0x00, 0x09]);
    match server.next_message_at(uid.slot) {
        ReadOutcome::Violation(u) => assert_eq!(u, uid),
        _ => panic!("oversize frame did not report a violation"),
    }
    // the slot is queued for close: connection_closed fires at tick end
    let acts = server.tick();
    assert!(acts
        .iter()
        .any(|a| matches!(a, TickAction::Closed(s, u) if *s == uid.slot && *u == uid)));
    assert!(server.uid_of(uid.slot).is_none());
}

#[test]
fn shutdown_closes_every_connection_then_reports() {
    let mut server = Server::new(4, MAX_MSG);
    server.socket_accepted(addr(1));
    server.socket_accepted(addr(2));
    server.socket_accepted(addr(3));
    let uids = admit_all(&mut server);
    assert_eq!(uids.len(), 3);

    // shutdown requested from within a callback: applied at tick end only
    server.shutdown();
    assert!(server.uid_of(uids[0].slot).is_some());

    let acts = server.tick();
    let closed = acts
        .iter()
        .filter(|a| matches!(a, TickAction::Closed(_, _)))
        .count();
    assert_eq!(closed, 3);
    assert!(matches!(acts.last(), Some(TickAction::ShuttingDown(None))));
    let shutting = acts
        .iter()
        .filter(|a| matches!(a, TickAction::ShuttingDown(_)))
        .count();
    assert_eq!(shutting, 1);
    for uid in uids {
        assert!(server.uid_of(uid.slot).is_none());
    }
}

#[test]
fn echo_scenario() {
    // handler echoes the message back: the peer gets the same frame
    let mut server = Server::new(1, MAX_MSG);
    server.socket_accepted(addr(9));
    let uid = admit_all(&mut server)[0];

    server.feed_bytes(uid.slot, &[0x00, 0x00, 0x00, 0x02, 0x68, 0x69]);
    let msg = match server.next_message_at(uid.slot) {
        ReadOutcome::Message(u, m) => {
            assert_eq!(u, uid);
            m
        },
        _ => panic!("no message decoded"),
    };
    assert_eq!(msg, b"hi".to_vec());

    server.send(&uid, &msg);
    assert_eq!(
        server.pending_of(uid.slot).unwrap().as_slice(),
        &[0x00, 0x00, 0x00, 0x02, 0x68, 0x69]
    );

    // the reactor writes it out and reports the bytes written
    server.on_wrote_at(uid.slot, 6);
    assert_eq!(server.pending_of(uid.slot).unwrap().len(), 0);
}

#[test]
fn failed_outbound_connect_reports_connect_failed() {
    let mut server = Server::new(2, MAX_MSG);
    let uid = server.connect_requested(addr(7)).unwrap();
    assert_eq!(uid.addr, addr(7));
    // hangup while still connecting: connect_failed, not connection_closed
    match server.on_hup(uid.slot) {
        HupOutcome::ConnectFailed(u) => assert_eq!(u, uid),
        _ => panic!("connecting hangup was not a connect failure"),
    }
    assert!(server.uid_of(uid.slot).is_none());
}

#[test]
fn writable_completes_the_handshake() {
    let mut server = Server::new(2, MAX_MSG);
    let uid = server.connect_requested(addr(7)).unwrap();
    match server.on_writable(uid.slot) {
        WriteReady::Connected(u) => assert_eq!(u, uid),
        _ => panic!("first writable event did not confirm the connect"),
    }
    match server.on_writable(uid.slot) {
        WriteReady::AlreadyReady => (),
        _ => panic!("second writable event should find it connected"),
    }
    // an established hangup queues the slot for close instead
    match server.on_hup(uid.slot) {
        HupOutcome::QueuedClose => (),
        _ => panic!("established hangup was not queued for close"),
    }
}

#[test]
fn multicast_reaches_live_uids_only() {
    let mut server = Server::new(2, MAX_MSG);
    server.socket_accepted(addr(1));
    server.socket_accepted(addr(2));
    let uids = admit_all(&mut server);
    let mut stale = uids[0];
    stale.id = stale.id.wrapping_add(1);
    let flushed = server.multicast(&vec![stale, uids[1]], b"x");
    assert_eq!(flushed, vec![uids[1].slot]);
    assert_eq!(server.pending_of(uids[0].slot).unwrap().len(), 0);
    assert_eq!(
        server.pending_of(uids[1].slot).unwrap().as_slice(),
        encode_frame(b"x").as_slice()
    );
}

#[test]
fn tick_actions_keep_the_fixed_order() {
    let mut server = Server::new(4, MAX_MSG);
    server.socket_accepted(addr(1));
    let uid = admit_all(&mut server)[0];

    // queue one of everything: an admission, a re-arm, a close
    server.socket_accepted(addr(2));
    server.queue_rereg(uid.slot);
    server.close_connection(uid);
    let acts = server.tick();

    let phase = |a: &TickAction| match a {
        TickAction::Admitted(_, _) | TickAction::DroppedNew => 0,
        TickAction::Reregister(_, _) => 1,
        TickAction::Closed(_, _) => 2,
        TickAction::ShuttingDown(_) => 3,
    };
    assert_eq!(acts.len(), 3);
    for w in acts.windows(2) {
        assert!(phase(&w[0]) <= phase(&w[1]));
    }
}

#[test]
fn multicast_sends_once_per_listed_uid() {
    let mut server = Server::new(1, MAX_MSG);
    server.socket_accepted(addr(1));
    let uid = admit_all(&mut server)[0];

    // the same uid listed twice gets the frame twice, in order
    let flushed = server.multicast(&vec![uid, uid], b"x");
    assert_eq!(flushed, vec![uid.slot, uid.slot]);
    let mut twice = encode_frame(b"x");
    twice.extend_from_slice(&encode_frame(b"x"));
    assert_eq!(server.pending_of(uid.slot).unwrap().as_slice(), twice.as_slice());
}

#[test]
fn admission_stops_exactly_at_capacity() {
    let mut server = Server::new(2, MAX_MSG);
    server.socket_accepted(addr(1));
    server.socket_accepted(addr(2));
    server.socket_accepted(addr(3));
    server.socket_accepted(addr(4));
    let acts = server.tick();
    // the k-th queued socket is admitted exactly while a slot is free
    let kinds: Vec<bool> = acts
        .iter()
        .filter_map(|a| match a {
            TickAction::Admitted(_, _) => Some(true),
            TickAction::DroppedNew => Some(false),
            _ => None,
        })
        .collect();
    assert_eq!(kinds, vec![true, true, false, false]);
    // and each admitted uid carries the accepted peer's address, in order
    let addrs: Vec<u16> = acts
        .iter()
        .filter_map(|a| match a {
            TickAction::Admitted(_, uid) => Some(uid.addr.port),
            _ => None,
        })
        .collect();
    assert_eq!(addrs, vec![1, 2]);
}
