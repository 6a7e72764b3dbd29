use rust_stuff::codec::{encode_frame, u32_to_network, FrameDecoder, NetError, MAX_MSG_SIZE};
use rust_stuff::network_to_u32;

#[test]
fn be_header_exact_values() {
    assert_eq!(u32_to_network(2), [0x00, 0x00, 0x00, 0x02]);
    assert_eq!(u32_to_network(0x12345678), [0x12, 0x34, 0x56, 0x78]);
    assert_eq!(network_to_u32(&[0x00, 0x00, 0x00, 0x02]), 2);
    assert_eq!(network_to_u32(&[0x12, 0x34, 0x56, 0x78, 0xff]), 0x12345678);
    assert_eq!(network_to_u32(&u32_to_network(0xdeadbeef)), 0xdeadbeef);
}

#[test]
fn encode_hi_is_the_wire_frame() {
    // the echo scenario's frame: b"hi" framed as 00 00 00 02 68 69
    let framed = encode_frame(b"hi");
    assert_eq!(framed, vec![0x00, 0x00, 0x00, 0x02, 0x68, 0x69]);
}

#[test]
fn round_trip_one_read() {
    let payload: Vec<u8> = (0u8..200).collect();
    let framed = encode_frame(&payload);
    let mut dec = FrameDecoder::new(MAX_MSG_SIZE);
    dec.push(&framed);
    let got = dec.next_frame().unwrap().unwrap();
    assert_eq!(got, payload);
    // nothing left
    assert!(dec.next_frame().unwrap().is_none());
}

#[test]
fn round_trip_split_reads() {
    let payload: Vec<u8> = (0u8..200).rev().collect();
    let framed = encode_frame(&payload);
    // one byte at a time: incomplete until the last byte arrives
    let mut dec = FrameDecoder::new(MAX_MSG_SIZE);
    for (i, b) in framed.iter().enumerate() {
        assert!(dec.next_frame().unwrap().is_none() || i == 0);
        dec.push(&[*b]);
    }
    let got = dec.next_frame().unwrap().unwrap();
    assert_eq!(got, payload);
}

#[test]
fn messages_keep_send_order() {
    let msgs: Vec<Vec<u8>> = vec![b"first".to_vec(), b"second".to_vec(), b"third".to_vec()];
    let mut stream = Vec::new();
    for m in &msgs {
        stream.extend_from_slice(&encode_frame(m));
    }
    // split the three frames across two odd-sized reads
    let (a, b) = stream.split_at(7);
    let mut dec = FrameDecoder::new(MAX_MSG_SIZE);
    dec.push(a);
    let mut got: Vec<Vec<u8>> = Vec::new();
    while let Ok(Some(m)) = dec.next_frame() {
        got.push(m);
    }
    dec.push(b);
    while let Ok(Some(m)) = dec.next_frame() {
        got.push(m);
    }
    assert_eq!(got, msgs);
}

#[test]
fn oversize_length_is_rejected() {
    let mut dec = FrameDecoder::new(8);
    // declares 9 bytes where at most 8 are allowed
    dec.push(&[0x00, 0x00, 0x00, 0x09]);
    match dec.next_frame() {
        Err(NetError::FrameTooBig(n)) => assert_eq!(n, 9),
        _ => panic!("oversize frame was not refused"),
    }
}

#[test]
fn empty_payload_round_trips() {
    let framed = encode_frame(b"");
    assert_eq!(framed, vec![0, 0, 0, 0]);
    let mut dec = FrameDecoder::new(MAX_MSG_SIZE);
    dec.push(&framed);
    let got = dec.next_frame().unwrap().unwrap();
    assert_eq!(got, Vec::<u8>::new());
}

#[test]
fn read_capacity_shrinks_and_recovers() {
    let mut dec = FrameDecoder::new(16);
    assert_eq!(dec.read_capacity(), 20);
    dec.push(&encode_frame(b"abcd"));
    assert_eq!(dec.read_capacity(), 12);
    let _ = dec.next_frame().unwrap().unwrap();
    assert_eq!(dec.read_capacity(), 20);
}

#[test]
fn largest_allowed_payload_round_trips() {
    let payload = vec![0xabu8; MAX_MSG_SIZE];
    let framed = encode_frame(&payload);
    let mut dec = FrameDecoder::new(MAX_MSG_SIZE);
    dec.push(&framed);
    let got = dec.next_frame().unwrap().unwrap();
    assert_eq!(got, payload);
}
