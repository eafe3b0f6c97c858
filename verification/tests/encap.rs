use sat_tunnel::crc::crc32_of;
use sat_tunnel::encap::{EncapError, EncapStatus, Encapsulator};
use sat_tunnel::frame::{decode, FragmentKind, MAX_PDU_LEN};
use sat_tunnel::label::{Label, Metadata, LABEL_COUNTER_MODULUS};

fn meta() -> Metadata {
    Metadata { protocol: 9029, label: Label::Full(0, 0, 0, 0, 0, 1) }
}

fn pattern(len: usize) -> Vec<u8> {
    (0..len).map(|i| (i * 31 + 7) as u8).collect()
}

fn expected_count(len: usize, width: usize, capacity: usize) -> usize {
    let limit = capacity.min(4097);
    let single = limit as i64 - (5 + width as i64) - 4;
    if (len as i64) <= single {
        return 1;
    }
    let first = limit - (7 + width) - 4;
    let next = limit - (3 + width) - 4;
    1 + (len - first + next - 1) / next
}

#[test]
fn new_encapsulator_is_idle() {
    let e = Encapsulator::new(1);
    assert!(e.is_idle());
}

#[test]
fn labels_count_up_from_the_start_value() {
    let mut e = Encapsulator::new(1);
    assert_eq!(e.next_label(), Label::Full(0, 0, 0, 0, 0, 1));
    assert_eq!(e.next_label(), Label::Full(0, 0, 0, 0, 0, 2));
    assert_eq!(e.next_label(), Label::Full(0, 0, 0, 0, 0, 3));
}

#[test]
fn label_counter_wraps_to_zero() {
    let mut e = Encapsulator::new(LABEL_COUNTER_MODULUS - 1);
    assert_eq!(e.next_label(), Label::Full(255, 255, 255, 255, 255, 255));
    assert_eq!(e.next_label(), Label::Full(0, 0, 0, 0, 0, 0));
    assert_eq!(e.next_label(), Label::Full(0, 0, 0, 0, 0, 1));
}

#[test]
fn start_value_is_taken_modulo_the_counter_width() {
    let mut e = Encapsulator::new(LABEL_COUNTER_MODULUS + 9);
    assert_eq!(e.next_label(), Label::Full(0, 0, 0, 0, 0, 9));
}

#[test]
fn short_frame_leaves_in_one_fragment() {
    let mut e = Encapsulator::new(1);
    let pdu = vec![0xDE, 0xAD, 0x99];
    let crc = crc32_of(&pdu);
    let r = e.begin_encap(pdu, 0, meta(), 64).expect("a fragment");
    let bytes = match r {
        EncapStatus::Completed(b) => b,
        EncapStatus::Fragmented(_) => panic!("one fragment was enough"),
    };
    let mut want = vec![0xC0, 16, 0, 0x23, 0x45, 0, 0, 0, 0, 0, 1, 0xDE, 0xAD, 0x99];
    want.extend_from_slice(&crc.to_be_bytes());
    assert_eq!(bytes, want);
    assert!(e.is_idle());
}

#[test]
fn empty_frame_leaves_in_one_fragment() {
    let mut e = Encapsulator::new(1);
    let r = e.begin_encap(Vec::new(), 3, meta(), 15).expect("a fragment");
    match r {
        EncapStatus::Completed(b) => {
            assert_eq!(b.len(), 15);
            assert_eq!(&b[11..], &0xFFFF_FFFFu32.to_be_bytes());
        }
        EncapStatus::Fragmented(_) => panic!("one fragment was enough"),
    }
}

#[test]
fn single_fragment_threshold() {
    // With a six-byte label a datagram of 64 bytes has room for 49 bytes
    // in a single fragment.
    let mut e = Encapsulator::new(1);
    let at = e.encapsulate(pattern(49), 0, meta(), 64).expect("fragments");
    assert_eq!(at.len(), 1);
    assert_eq!(at[0].len(), 64);
    let above = e.encapsulate(pattern(50), 0, meta(), 64).expect("fragments");
    assert_eq!(above.len(), 2);
}

#[test]
fn long_frame_step_by_step() {
    let mut e = Encapsulator::new(1);
    let pdu = pattern(120);
    let crc = crc32_of(&pdu);
    // first: 64 - 13 - 4 = 47 bytes
    let first = match e.begin_encap(pdu.clone(), 5, meta(), 64).expect("a fragment") {
        EncapStatus::Fragmented(b) => b,
        EncapStatus::Completed(_) => panic!("the frame does not fit"),
    };
    assert!(!e.is_idle());
    assert_eq!(first.len(), 60);
    let f = decode(&first).expect("a fragment");
    assert_eq!(f.header.kind, FragmentKind::First);
    assert_eq!(f.header.frag_id, 5);
    assert_eq!(f.header.total_len, 120);
    assert_eq!(f.header.protocol, 9029);
    assert_eq!(f.header.label, meta().label);
    assert_eq!(&first[f.start..f.end], &pdu[..47]);
    // continuation: 64 - 9 - 4 = 51 bytes
    let second = match e.continue_encap(64).expect("a fragment") {
        EncapStatus::Fragmented(b) => b,
        EncapStatus::Completed(_) => panic!("22 bytes are left"),
    };
    assert_eq!(second.len(), 60);
    let f = decode(&second).expect("a fragment");
    assert_eq!(f.header.kind, FragmentKind::Continuation);
    assert_eq!(f.header.frag_id, 5);
    assert_eq!(f.header.label, meta().label);
    assert_eq!(&second[f.start..f.end], &pdu[47..98]);
    // last: the 22 bytes left and the check sequence
    let third = match e.continue_encap(64).expect("a fragment") {
        EncapStatus::Completed(b) => b,
        EncapStatus::Fragmented(_) => panic!("nothing is left"),
    };
    assert_eq!(third.len(), 9 + 22 + 4);
    let f = decode(&third).expect("a fragment");
    assert_eq!(f.header.kind, FragmentKind::Last);
    assert_eq!(&third[f.start..f.end], &pdu[98..]);
    assert_eq!(f.crc, crc);
    assert!(e.is_idle());
}

#[test]
fn capacity_may_change_between_fragments() {
    let mut e = Encapsulator::new(1);
    let pdu = pattern(100);
    let a = match e.begin_encap(pdu.clone(), 0, meta(), 30).expect("a fragment") {
        EncapStatus::Fragmented(b) => b,
        EncapStatus::Completed(_) => panic!("the frame does not fit"),
    };
    assert_eq!(a.len(), 26);
    let b = match e.continue_encap(20).expect("a fragment") {
        EncapStatus::Fragmented(b) => b,
        EncapStatus::Completed(_) => panic!("more is left"),
    };
    assert_eq!(b.len(), 16);
    let c = match e.continue_encap(200).expect("a fragment") {
        EncapStatus::Completed(b) => b,
        EncapStatus::Fragmented(_) => panic!("nothing is left"),
    };
    let mut got = Vec::new();
    for bytes in [&a, &b, &c] {
        let f = decode(bytes).expect("a fragment");
        got.extend_from_slice(&bytes[f.start..f.end]);
    }
    assert_eq!(got, pdu);
}

#[test]
fn frame_above_the_limit_is_refused() {
    let mut e = Encapsulator::new(1);
    let r = e.begin_encap(vec![0; MAX_PDU_LEN + 1], 0, meta(), 1500);
    assert!(matches!(r, Err(EncapError::PduTooLarge)));
    assert!(e.is_idle());
    assert!(matches!(
        e.encapsulate(vec![0; MAX_PDU_LEN + 1], 0, meta(), 1500),
        Err(EncapError::PduTooLarge)
    ));
}

#[test]
fn frame_at_the_limit_leaves() {
    let mut e = Encapsulator::new(1);
    let frags = e.encapsulate(vec![0x55; MAX_PDU_LEN], 0, meta(), 1500).expect("fragments");
    assert_eq!(frags.len(), expected_count(MAX_PDU_LEN, 6, 1500));
}

#[test]
fn datagram_without_room_is_refused() {
    let mut e = Encapsulator::new(1);
    // 3 bytes need a first fragment; 17 bytes leave it no room.
    assert!(matches!(
        e.begin_encap(vec![1, 2, 3], 0, meta(), 17),
        Err(EncapError::OutputTooSmall)
    ));
    assert!(e.is_idle());
    assert!(matches!(
        e.begin_encap(vec![1, 2, 3], 0, meta(), 0),
        Err(EncapError::OutputTooSmall)
    ));
    // 18 bytes take the three bytes whole, and leave a first fragment room
    // for one byte of a longer frame.
    assert!(matches!(
        e.begin_encap(vec![1, 2, 3], 0, meta(), 18),
        Ok(EncapStatus::Completed(_))
    ));
    match e.begin_encap(vec![1, 2, 3, 4], 0, meta(), 18) {
        Ok(EncapStatus::Fragmented(b)) => assert_eq!(b.len(), 14),
        other => panic!("no first fragment: {:?}", other),
    }
}

#[test]
fn small_datagram_still_takes_a_frame_that_fits() {
    let mut e = Encapsulator::new(1);
    assert!(matches!(
        e.begin_encap(vec![1, 2], 0, meta(), 17),
        Ok(EncapStatus::Completed(_))
    ));
}

#[test]
fn continuing_without_room_keeps_the_frame_in_flight() {
    let mut e = Encapsulator::new(1);
    let pdu = pattern(60);
    let first = match e.begin_encap(pdu.clone(), 0, meta(), 40).expect("a fragment") {
        EncapStatus::Fragmented(b) => b,
        EncapStatus::Completed(_) => panic!("the frame does not fit"),
    };
    assert!(matches!(e.continue_encap(13), Err(EncapError::OutputTooSmall)));
    assert!(!e.is_idle());
    let last = match e.continue_encap(64).expect("a fragment") {
        EncapStatus::Completed(b) => b,
        EncapStatus::Fragmented(_) => panic!("nothing is left"),
    };
    let f0 = decode(&first).expect("a fragment");
    let f1 = decode(&last).expect("a fragment");
    let mut got = first[f0.start..f0.end].to_vec();
    got.extend_from_slice(&last[f1.start..f1.end]);
    assert_eq!(got, pdu);
    assert_eq!(f1.crc, crc32_of(&pdu));
}

#[test]
fn second_frame_is_refused_while_one_is_in_flight() {
    let mut e = Encapsulator::new(1);
    assert!(matches!(
        e.begin_encap(pattern(100), 0, meta(), 64),
        Ok(EncapStatus::Fragmented(_))
    ));
    assert!(matches!(e.begin_encap(vec![1], 0, meta(), 64), Err(EncapError::Busy)));
    assert!(matches!(e.encapsulate(vec![1], 0, meta(), 64), Err(EncapError::Busy)));
    assert!(!e.is_idle());
    // the frame in flight goes on untouched
    assert!(matches!(e.continue_encap(64), Ok(EncapStatus::Fragmented(_))));
    assert!(matches!(e.continue_encap(64), Ok(EncapStatus::Completed(_))));
    assert!(e.is_idle());
}

#[test]
fn continuing_when_idle_is_refused() {
    let mut e = Encapsulator::new(1);
    assert!(matches!(e.continue_encap(64), Err(EncapError::Idle)));
}

#[test]
fn fragment_count_exact_values() {
    let mut e = Encapsulator::new(1);
    assert_eq!(e.encapsulate(pattern(1500), 0, meta(), 64).unwrap().len(), 30);
    assert_eq!(e.encapsulate(pattern(1500), 0, meta(), 512).unwrap().len(), 4);
    assert_eq!(e.encapsulate(pattern(1500), 0, meta(), 1500).unwrap().len(), 2);
    assert_eq!(e.encapsulate(pattern(4096), 0, meta(), 512).unwrap().len(), 9);
    assert_eq!(e.encapsulate(pattern(65535), 0, meta(), 64).unwrap().len(), 1286);
}

#[test]
fn fragment_count_follows_the_formula() {
    let labels = [Label::Broadcast, Label::Short(1, 2, 3), Label::Full(1, 2, 3, 4, 5, 6)];
    for label in labels {
        let m = Metadata { protocol: 1, label };
        for capacity in [64usize, 512, 1500, 4097, 9000] {
            for len in [1usize, 45, 49, 50, 100, 1500, 4096, 65535] {
                let mut e = Encapsulator::new(1);
                let frags = e.encapsulate(pattern(len), 9, m, capacity).expect("fragments");
                assert_eq!(frags.len(), expected_count(len, label.len(), capacity));
                for f in &frags {
                    assert!(f.len() <= capacity);
                    assert!(f.len() <= 4097);
                }
                assert!(e.is_idle());
            }
        }
    }
}

#[test]
fn fragment_payloads_joined_are_the_frame() {
    for capacity in [64usize, 512, 1500] {
        for len in [1usize, 100, 1500, 4096, 65535] {
            let pdu = pattern(len);
            let mut e = Encapsulator::new(1);
            let frags = e.encapsulate(pdu.clone(), 0, meta(), capacity).expect("fragments");
            let mut got = Vec::new();
            for (i, bytes) in frags.iter().enumerate() {
                let f = decode(bytes).expect("a fragment");
                let want = if frags.len() == 1 {
                    FragmentKind::Single
                } else if i == 0 {
                    FragmentKind::First
                } else if i + 1 < frags.len() {
                    FragmentKind::Continuation
                } else {
                    FragmentKind::Last
                };
                assert_eq!(f.header.kind, want);
                assert_eq!(f.header.label, meta().label);
                got.extend_from_slice(&bytes[f.start..f.end]);
                if i + 1 == frags.len() {
                    assert_eq!(f.crc, crc32_of(&pdu));
                }
            }
            assert_eq!(got, pdu);
        }
    }
}

#[test]
fn oversized_capacity_is_capped_by_the_length_field() {
    let mut e = Encapsulator::new(1);
    let frags = e.encapsulate(pattern(5000), 0, meta(), 100_000).expect("fragments");
    assert_eq!(frags.len(), 2);
    assert_eq!(frags[0].len(), 4093);
}
