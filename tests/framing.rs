use pico_fido::framing::{
    error_message, fragment, Ingest, Message, Reassembler, TransportError, CTAPHID_CBOR,
    CTAPHID_ERROR, MAX_MESSAGE,
};

fn message(channel: u32, len: usize) -> Message {
    let payload: Vec<u8> = (0..len).map(|i| (i * 7 + 3) as u8).collect();
    Message { channel, command: CTAPHID_CBOR, payload }
}

fn reassemble(packets: &[Vec<u8>]) -> Option<Message> {
    let mut r = Reassembler::new();
    let mut out = None;
    for (k, p) in packets.iter().enumerate() {
        match r.ingest(p) {
            Ingest::Incomplete => assert!(k + 1 < packets.len()),
            Ingest::Complete(m) => {
                assert_eq!(k + 1, packets.len());
                out = Some(m);
            }
            _ => panic!("unexpected outcome"),
        }
    }
    out
}

#[test]
fn fragment_single_packet_layout() {
    let m = message(0x01020304, 10);
    let ps = fragment(&m);
    assert_eq!(ps.len(), 1);
    let p = &ps[0];
    assert_eq!(p.len(), 64);
    assert_eq!(&p[0..4], &[1, 2, 3, 4]);
    assert_eq!(p[4], 0x90);
    assert_eq!(p[5], 0);
    assert_eq!(p[6], 10);
    assert_eq!(&p[7..17], &m.payload[..]);
    assert!(p[17..].iter().all(|&b| b == 0));
}

#[test]
fn fragment_continuation_layout() {
    let m = message(0xAABBCCDD, 200);
    let ps = fragment(&m);
    assert_eq!(ps.len(), 4);
    assert_eq!(ps[0][5], 0);
    assert_eq!(ps[0][6], 200);
    for (k, p) in ps.iter().enumerate().skip(1) {
        assert_eq!(p.len(), 64);
        assert_eq!(&p[0..4], &[0xAA, 0xBB, 0xCC, 0xDD]);
        assert_eq!(p[4] as usize, k - 1);
    }
    assert_eq!(&ps[1][5..64], &m.payload[57..116]);
    assert_eq!(&ps[3][5..30], &m.payload[175..200]);
    assert!(ps[3][30..].iter().all(|&b| b == 0));
}

#[test]
fn round_trip_all_boundary_lengths() {
    for len in [0usize, 1, 56, 57, 58, 115, 116, 117, 1000, MAX_MESSAGE - 1, MAX_MESSAGE] {
        let m = message(7, len);
        let back = reassemble(&fragment(&m)).expect("complete");
        assert_eq!(back.channel, 7);
        assert_eq!(back.command, CTAPHID_CBOR);
        assert_eq!(back.payload, m.payload);
    }
}

#[test]
fn largest_message_uses_all_sequence_numbers() {
    let ps = fragment(&message(1, MAX_MESSAGE));
    assert_eq!(ps.len(), 129);
    assert_eq!(ps[128][4], 127);
}

#[test]
fn init_on_busy_channel_is_refused_other_channel_proceeds() {
    let a = fragment(&message(0xA, 300));
    let b = fragment(&message(0xB, 300));
    let mut r = Reassembler::new();
    assert!(matches!(r.ingest(&a[0]), Ingest::Incomplete));
    assert!(r.is_open(0xA));
    assert!(matches!(r.ingest(&a[0]), Ingest::Busy));
    assert!(!r.is_open(0xA));
    assert!(matches!(r.ingest(&b[0]), Ingest::Incomplete));
    for p in &b[1..b.len() - 1] {
        assert!(matches!(r.ingest(p), Ingest::Incomplete));
    }
    match r.ingest(&b[b.len() - 1]) {
        Ingest::Complete(m) => assert_eq!(m.payload, message(0xB, 300).payload),
        _ => panic!("channel B should complete"),
    }
}

#[test]
fn interleaved_channels_reassemble_independently() {
    let a = fragment(&message(1, 150));
    let b = fragment(&message(2, 150));
    let mut r = Reassembler::new();
    let mut done = Vec::new();
    for k in 0..a.len() {
        for p in [&a[k], &b[k]] {
            if let Ingest::Complete(m) = r.ingest(p) {
                done.push(m.channel);
            }
        }
    }
    assert_eq!(done, vec![1, 2]);
}

#[test]
fn declared_length_over_maximum_overflows() {
    let mut p = vec![0u8; 64];
    p[4] = 0x90;
    p[5] = ((MAX_MESSAGE + 1) / 256) as u8;
    p[6] = ((MAX_MESSAGE + 1) % 256) as u8;
    let mut r = Reassembler::new();
    assert!(matches!(r.ingest(&p), Ingest::Overflow));
    assert!(!r.is_open(0));
}

#[test]
fn continuation_without_open_message_is_malformed() {
    let ps = fragment(&message(3, 100));
    let mut r = Reassembler::new();
    assert!(matches!(r.ingest(&ps[1]), Ingest::Malformed));
}

#[test]
fn wrong_sequence_discards_message() {
    let ps = fragment(&message(3, 200));
    let mut r = Reassembler::new();
    assert!(matches!(r.ingest(&ps[0]), Ingest::Incomplete));
    assert!(matches!(r.ingest(&ps[2]), Ingest::Malformed));
    assert!(!r.is_open(3));
    assert!(matches!(r.ingest(&ps[1]), Ingest::Malformed));
}

#[test]
fn short_packet_is_malformed() {
    let mut r = Reassembler::new();
    assert!(matches!(r.ingest(&[0x90u8; 10]), Ingest::Malformed));
}

#[test]
fn reset_drops_open_messages() {
    let ps = fragment(&message(9, 200));
    let mut r = Reassembler::new();
    r.ingest(&ps[0]);
    r.reset();
    assert!(!r.is_open(9));
    assert!(matches!(r.ingest(&ps[1]), Ingest::Malformed));
}

#[test]
fn transport_errors_have_ctaphid_codes() {
    let m = error_message(5, TransportError::ChannelBusy);
    assert_eq!(m.command, CTAPHID_ERROR);
    assert_eq!(m.payload, vec![0x06]);
    assert_eq!(TransportError::BufferOverflow.code(), 0x03);
    assert_eq!(TransportError::Malformed.code(), 0x04);
    assert_eq!(Ingest::Busy.error(), Some(TransportError::ChannelBusy));
    assert_eq!(Ingest::Incomplete.error(), None);
}

#[test]
fn packet_channel_reads_big_endian() {
    assert_eq!(pico_fido::framing::packet_channel(&[0x12, 0x34, 0x56, 0x78, 0x90]), 0x12345678);
}

#[test]
fn reassemble_of_fragment_is_identity() {
    for len in [0usize, 57, 58, 500, MAX_MESSAGE] {
        let m = message(0xCAFE, len);
        let back = pico_fido::framing::reassemble(&fragment(&m)).expect("complete");
        assert_eq!(back.channel, 0xCAFE);
        assert_eq!(back.payload, m.payload);
    }
    let ps = fragment(&message(1, 300));
    assert!(pico_fido::framing::reassemble(&ps[..2].to_vec()).is_none());
}
