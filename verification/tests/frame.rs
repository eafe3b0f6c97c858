use sat_tunnel::crc::crc32_of;
use sat_tunnel::frame::{
    decode, encode, header_size, room, FragmentKind, Header, CRC_LEN, MAX_FRAGMENT_LEN,
    MAX_PDU_LEN,
};
use sat_tunnel::label::Label;

fn header(kind: FragmentKind, label: Label) -> Header {
    let total_len = if kind == FragmentKind::First { 300 } else { 0 };
    let protocol = match kind {
        FragmentKind::Single | FragmentKind::First => 0x2345,
        _ => 0,
    };
    Header { kind, frag_id: 7, label, total_len, protocol }
}

#[test]
fn layout_constants() {
    assert_eq!(MAX_PDU_LEN, 65535);
    assert_eq!(MAX_FRAGMENT_LEN, 4097);
    assert_eq!(CRC_LEN, 4);
}

#[test]
fn kinds_open_and_close() {
    assert!(FragmentKind::Single.is_start() && FragmentKind::Single.is_end());
    assert!(FragmentKind::First.is_start() && !FragmentKind::First.is_end());
    assert!(!FragmentKind::Continuation.is_start() && !FragmentKind::Continuation.is_end());
    assert!(!FragmentKind::Last.is_start() && FragmentKind::Last.is_end());
}

#[test]
fn header_sizes() {
    let none = Label::Broadcast;
    let short = Label::Short(1, 2, 3);
    let full = Label::Full(1, 2, 3, 4, 5, 6);
    assert_eq!(header_size(FragmentKind::Single, &none), 5);
    assert_eq!(header_size(FragmentKind::First, &none), 7);
    assert_eq!(header_size(FragmentKind::Continuation, &none), 3);
    assert_eq!(header_size(FragmentKind::Last, &none), 3);
    assert_eq!(header_size(FragmentKind::Single, &short), 8);
    assert_eq!(header_size(FragmentKind::First, &full), 13);
    assert_eq!(header_size(FragmentKind::Last, &full), 9);
}

#[test]
fn room_sets_the_check_sequence_aside() {
    let full = Label::Full(1, 2, 3, 4, 5, 6);
    assert_eq!(room(FragmentKind::Single, &full, 512), Some(497));
    assert_eq!(room(FragmentKind::First, &full, 512), Some(495));
    assert_eq!(room(FragmentKind::Continuation, &full, 512), Some(499));
    assert_eq!(room(FragmentKind::Last, &full, 512), Some(499));
    assert_eq!(room(FragmentKind::Single, &Label::Broadcast, 9), Some(0));
    assert_eq!(room(FragmentKind::Single, &Label::Broadcast, 8), None);
    assert_eq!(room(FragmentKind::First, &full, 16), None);
    assert_eq!(room(FragmentKind::First, &full, 17), Some(0));
}

#[test]
fn room_is_capped_by_the_length_field() {
    let none = Label::Broadcast;
    assert_eq!(room(FragmentKind::Continuation, &none, 4097), Some(4090));
    assert_eq!(room(FragmentKind::Continuation, &none, 4098), Some(4090));
    assert_eq!(room(FragmentKind::Continuation, &none, usize::MAX), Some(4090));
}

#[test]
fn single_fragment_bytes() {
    let h = header(FragmentKind::Single, Label::Broadcast);
    let out = encode(&h, &[1, 2, 3], 0, 3, 0xA1B2_C3D4);
    assert_eq!(
        out,
        vec![0xE0, 10, 7, 0x23, 0x45, 1, 2, 3, 0xA1, 0xB2, 0xC3, 0xD4]
    );
}

#[test]
fn first_fragment_bytes() {
    let h = header(FragmentKind::First, Label::Short(0xAA, 0xBB, 0xCC));
    let out = encode(&h, &[9, 8, 7, 6], 1, 3, 0x1111_1111);
    assert_eq!(
        out,
        vec![0x90, 10, 7, 0x01, 0x2C, 0x23, 0x45, 0xAA, 0xBB, 0xCC, 8, 7]
    );
}

#[test]
fn continuation_fragment_bytes() {
    let h = header(FragmentKind::Continuation, Label::Full(1, 2, 3, 4, 5, 6));
    let out = encode(&h, &[5, 5], 0, 2, 0);
    assert_eq!(out, vec![0x00, 9, 7, 1, 2, 3, 4, 5, 6, 5, 5]);
}

#[test]
fn last_fragment_bytes() {
    let h = header(FragmentKind::Last, Label::Broadcast);
    let out = encode(&h, &[0x42], 0, 1, 0x0102_0304);
    assert_eq!(out, vec![0x60, 6, 7, 0x42, 1, 2, 3, 4]);
}

#[test]
fn length_field_uses_twelve_bits() {
    let h = header(FragmentKind::Continuation, Label::Broadcast);
    let data = vec![0x5Au8; 4094];
    let out = encode(&h, &data, 0, 4094, 0);
    assert_eq!(out.len(), 4097);
    assert_eq!(out[0], 0x20 | 0x0F);
    assert_eq!(out[1], 0xFF);
}

#[test]
fn decode_gives_back_what_encode_took() {
    let data: Vec<u8> = (0..200u8).collect();
    let labels = [Label::Broadcast, Label::Short(1, 2, 3), Label::Full(6, 5, 4, 3, 2, 1)];
    let kinds = [
        FragmentKind::Single,
        FragmentKind::First,
        FragmentKind::Continuation,
        FragmentKind::Last,
    ];
    for label in labels {
        for kind in kinds {
            for n in [0usize, 1, 57, 200] {
                let h = header(kind, label);
                let crc = crc32_of(&data[..n]);
                let bytes = encode(&h, &data, 0, n, crc);
                let f = decode(&bytes).expect("a fragment");
                assert_eq!(f.header, h);
                assert_eq!(&bytes[f.start..f.end], &data[..n]);
                let closes = kind == FragmentKind::Single || kind == FragmentKind::Last;
                assert_eq!(f.crc, if closes { crc } else { 0 });
            }
        }
    }
}

#[test]
fn decode_ignores_padding() {
    let h = header(FragmentKind::Last, Label::Short(1, 2, 3));
    let mut bytes = encode(&h, &[10, 20, 30], 0, 3, 0xDEAD_BEEF);
    let natural = bytes.len();
    bytes.resize(64, 0);
    let f = decode(&bytes).expect("a fragment");
    assert_eq!(f.header, h);
    assert_eq!(&bytes[f.start..f.end], &[10, 20, 30]);
    assert_eq!(f.crc, 0xDEAD_BEEF);
    assert_eq!(f.end + 4, natural);
}

#[test]
fn decode_refuses_short_datagrams() {
    assert!(decode(&[]).is_none());
    assert!(decode(&[0xE0]).is_none());
    assert!(decode(&[0xE0, 10]).is_none());
}

#[test]
fn decode_refuses_the_reserved_label_code() {
    let bytes = vec![0x30, 1, 7];
    assert!(decode(&bytes).is_none());
    let ok = vec![0x20, 1, 7];
    assert!(decode(&ok).is_some());
}

#[test]
fn decode_refuses_a_length_beyond_the_datagram() {
    let h = header(FragmentKind::Single, Label::Broadcast);
    let mut bytes = encode(&h, &[1, 2, 3], 0, 3, 0);
    bytes.pop();
    assert!(decode(&bytes).is_none());
}

#[test]
fn decode_refuses_a_length_below_the_header() {
    // A single fragment without label needs 3 + 4 bytes behind the length.
    let bytes = vec![0xE0, 6, 7, 0, 0, 0, 0, 0, 0, 0];
    assert!(decode(&bytes).is_none());
    let bytes = vec![0xE0, 7, 7, 0, 0, 0, 0, 0, 0, 0];
    let f = decode(&bytes).expect("an empty single fragment");
    assert_eq!(f.start, f.end);
}
