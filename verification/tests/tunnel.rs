use sat_tunnel::decap::{DecapError, Decapsulator};
use sat_tunnel::encap::{EncapError, EncapStatus, Encapsulator};
use sat_tunnel::frame::decode;
use sat_tunnel::label::{Label, Metadata};
use sat_tunnel::pool::BufferPool;
use sat_tunnel::tunnel::{egress, ingress, pad_to, IngressAction, FRAG_ID, PROTOCOL};

fn engine(blocks: usize) -> Decapsulator {
    let mut pool = BufferPool::new(blocks);
    for _ in 0..blocks {
        pool.provision(vec![0; 65535]).unwrap();
    }
    Decapsulator::new(pool)
}

#[test]
fn tunnel_constants() {
    assert_eq!(FRAG_ID, 0);
    assert_eq!(PROTOCOL, 9029);
}

#[test]
fn padding_fills_up_with_zeros() {
    let mut f = vec![1u8, 2, 3];
    pad_to(&mut f, 8);
    assert_eq!(f, vec![1, 2, 3, 0, 0, 0, 0, 0]);
}

#[test]
fn padding_to_zero_changes_nothing() {
    let mut f = vec![1u8, 2, 3];
    pad_to(&mut f, 0);
    assert_eq!(f, vec![1, 2, 3]);
}

#[test]
fn padding_never_cuts() {
    let mut f = vec![1u8, 2, 3];
    pad_to(&mut f, 2);
    assert_eq!(f, vec![1, 2, 3]);
    pad_to(&mut f, 3);
    assert_eq!(f, vec![1, 2, 3]);
}

#[test]
fn fixed_length_datagrams_all_have_that_length() {
    for fixed in [64usize, 512, 2048] {
        for len in [1usize, 100, 1500, 4096] {
            let mut e = Encapsulator::new(1);
            let frame: Vec<u8> = (0..len).map(|i| i as u8).collect();
            let datagrams = egress(&mut e, frame, fixed).expect("datagrams");
            for d in &datagrams {
                assert_eq!(d.len(), fixed);
                let f = decode(d).expect("a fragment");
                let real = f.end + if f.crc != 0 || f.header.kind.is_end() { 4 } else { 0 };
                assert!(d[real..].iter().all(|b| *b == 0));
            }
        }
    }
}

#[test]
fn variable_length_datagrams_are_the_fragments() {
    let frame: Vec<u8> = (0..5000usize).map(|i| i as u8).collect();
    let mut a = Encapsulator::new(1);
    let datagrams = egress(&mut a, frame.clone(), 0).expect("datagrams");
    let mut b = Encapsulator::new(1);
    let label = b.next_label();
    let frags = b
        .encapsulate(frame, FRAG_ID, Metadata { protocol: PROTOCOL, label }, 4097)
        .expect("fragments");
    assert_eq!(datagrams, frags);
    assert_eq!(datagrams.len(), 2);
    assert_eq!(datagrams[0].len(), 4093);
}

#[test]
fn every_frame_gets_the_next_label() {
    let mut e = Encapsulator::new(1);
    for k in 1..=3u8 {
        let datagrams = egress(&mut e, vec![1, 2, 3], 0).expect("datagrams");
        let f = decode(&datagrams[0]).expect("a fragment");
        assert_eq!(f.header.label, Label::Full(0, 0, 0, 0, 0, k));
        assert_eq!(f.header.protocol, PROTOCOL);
        assert_eq!(f.header.frag_id, FRAG_ID);
    }
}

#[test]
fn refused_frame_uses_up_its_label() {
    let mut e = Encapsulator::new(1);
    assert!(matches!(egress(&mut e, vec![0; 65536], 0), Err(EncapError::PduTooLarge)));
    assert!(matches!(egress(&mut e, vec![0; 100], 10), Err(EncapError::OutputTooSmall)));
    assert!(e.is_idle());
    let datagrams = egress(&mut e, vec![1], 0).expect("datagrams");
    let f = decode(&datagrams[0]).expect("a fragment");
    assert_eq!(f.header.label, Label::Full(0, 0, 0, 0, 0, 3));
}

#[test]
fn egress_is_refused_while_a_frame_is_in_flight() {
    let mut e = Encapsulator::new(1);
    let meta = Metadata { protocol: PROTOCOL, label: Label::Broadcast };
    assert!(matches!(
        e.begin_encap(vec![0; 100], 0, meta, 64),
        Ok(EncapStatus::Fragmented(_))
    ));
    assert!(matches!(egress(&mut e, vec![1], 0), Err(EncapError::Busy)));
    assert!(!e.is_idle());
    // no label was used up
    while !e.is_idle() {
        e.continue_encap(64).expect("a fragment");
    }
    assert_eq!(e.next_label(), Label::Full(0, 0, 0, 0, 0, 1));
}

#[test]
fn ingress_waits_then_delivers() {
    let frame: Vec<u8> = (0..300usize).map(|i| (i * 3) as u8).collect();
    let mut e = Encapsulator::new(7);
    let datagrams = egress(&mut e, frame.clone(), 128).expect("datagrams");
    assert_eq!(datagrams.len(), 3);
    let mut d = engine(1);
    assert!(matches!(ingress(&mut d, &datagrams[0]), IngressAction::Wait));
    assert!(matches!(ingress(&mut d, &datagrams[1]), IngressAction::Wait));
    match ingress(&mut d, &datagrams[2]) {
        IngressAction::Deliver(b, m) => {
            assert_eq!(b.as_slice(), &frame[..]);
            assert_eq!(m, Metadata { protocol: PROTOCOL, label: Label::Full(0, 0, 0, 0, 0, 7) });
            assert!(d.release(b).is_ok());
        }
        other => panic!("no frame came out: {:?}", other),
    }
    assert_eq!(d.free_blocks(), 1);
}

#[test]
fn ingress_drops_and_goes_on() {
    let mut e = Encapsulator::new(1);
    let mut d = engine(1);
    assert!(matches!(ingress(&mut d, &[1, 2]), IngressAction::Drop(DecapError::Malformed)));
    let lost = egress(&mut e, vec![5; 200], 128).expect("datagrams");
    // the first datagram is lost: what follows is dropped
    assert!(matches!(ingress(&mut d, &lost[1]), IngressAction::Drop(DecapError::UnknownContext)));
    // the next frame comes through
    let next = egress(&mut e, vec![6; 200], 128).expect("datagrams");
    assert!(matches!(ingress(&mut d, &next[0]), IngressAction::Wait));
    match ingress(&mut d, &next[1]) {
        IngressAction::Deliver(b, _) => assert_eq!(b.as_slice(), &[6u8; 200][..]),
        other => panic!("no frame came out: {:?}", other),
    }
}

#[test]
fn corrupted_datagram_is_never_delivered() {
    let mut e = Encapsulator::new(1);
    let mut datagrams = egress(&mut e, vec![5; 200], 128).expect("datagrams");
    let f = decode(&datagrams[1]).expect("a fragment");
    datagrams[1][f.start] ^= 0x10;
    let mut d = engine(1);
    assert!(matches!(ingress(&mut d, &datagrams[0]), IngressAction::Wait));
    assert!(matches!(ingress(&mut d, &datagrams[1]), IngressAction::Drop(DecapError::CrcMismatch)));
    assert_eq!(d.free_blocks(), 1);
    assert_eq!(d.open_frames(), 0);
}

#[test]
fn round_trip_through_the_tunnel_with_and_without_padding() {
    for fixed in [0usize, 64, 512, 1500] {
        for len in [1usize, 100, 1500, 4096, 65535] {
            let frame: Vec<u8> = (0..len).map(|i| (i ^ (i >> 8)) as u8).collect();
            let mut e = Encapsulator::new(1);
            let mut d = engine(1);
            let datagrams = egress(&mut e, frame.clone(), fixed).expect("datagrams");
            let n = datagrams.len();
            for (i, bytes) in datagrams.iter().enumerate() {
                match ingress(&mut d, bytes) {
                    IngressAction::Wait => assert!(i + 1 < n),
                    IngressAction::Deliver(b, _) => {
                        assert_eq!(i + 1, n);
                        assert_eq!(b.as_slice(), &frame[..]);
                        assert!(d.release(b).is_ok());
                    }
                    IngressAction::Drop(e) => panic!("dropped: {:?}", e),
                }
            }
        }
    }
}
