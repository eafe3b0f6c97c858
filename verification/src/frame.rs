//! The layout of one fragment on the wire.
//!
//! ```text
//! byte 0      start flag, end flag, label width code (2 bits), length bits 11..8
//! byte 1      length bits 7..0: the number of bytes that follow byte 1
//! byte 2      fragment id
//! 2 bytes     length of the whole frame       (first of several only)
//! 2 bytes     protocol identifier             (fragments with the start flag)
//! 0, 3 or 6   label
//! ...         payload
//! 4 bytes     check sequence of the frame     (fragments with the end flag)
//! ```
//!
//! Whatever follows the announced length in a datagram is padding.

use crate::label::Label;
use vstd::prelude::*;

verus! {

/// The longest frame that can be carried.
pub const MAX_PDU_LEN: usize = 65535;

/// The longest fragment that the twelve bits of the length field can announce.
pub const MAX_FRAGMENT_LEN: usize = 4097;

/// The length of the check sequence that ends a frame.
pub const CRC_LEN: usize = 4;

/// The place of a fragment in its frame.
#[derive(Clone, Copy, Debug, PartialEq, Eq, Structural)]
pub enum FragmentKind {
    /// The whole frame in one fragment.
    Single,
    /// The first of several fragments.
    First,
    /// A fragment between the first and the last.
    Continuation,
    /// The last of several fragments.
    Last,
}

impl FragmentKind {
    /// Whether the fragment opens a frame.
    pub open spec fn starts(self) -> bool {
        self is Single || self is First
    }

    /// Whether the fragment closes a frame.
    pub open spec fn ends(self) -> bool {
        self is Single || self is Last
    }

    /// The two flag bits as a number: twice the start flag plus the end flag.
    pub open spec fn code(self) -> nat {
        match self {
            FragmentKind::Single => 3,
            FragmentKind::First => 2,
            FragmentKind::Last => 1,
            FragmentKind::Continuation => 0,
        }
    }

    /// The kind that two flag bits announce.
    pub open spec fn of_code(code: nat) -> FragmentKind {
        if code == 3 {
            FragmentKind::Single
        } else if code == 2 {
            FragmentKind::First
        } else if code == 1 {
            FragmentKind::Last
        } else {
            FragmentKind::Continuation
        }
    }

    /// Whether the fragment opens a frame.
    pub fn is_start(&self) -> (b: bool)
        ensures
            b == self.starts(),
    {
        match self {
            FragmentKind::Single => true,
            FragmentKind::First => true,
            _ => false,
        }
    }

    /// Whether the fragment closes a frame.
    pub fn is_end(&self) -> (b: bool)
        ensures
            b == self.ends(),
    {
        match self {
            FragmentKind::Single => true,
            FragmentKind::Last => true,
            _ => false,
        }
    }
}

/// What a fragment's header says. A field that a kind does not carry is zero.
#[derive(Clone, Copy, Debug, PartialEq, Eq, Structural)]
pub struct Header {
    /// The place of the fragment in its frame.
    pub kind: FragmentKind,
    /// The stream of fragments that this one belongs to.
    pub frag_id: u8,
    /// The label of the frame.
    pub label: Label,
    /// The length of the whole frame; on a first fragment only.
    pub total_len: u16,
    /// The protocol of the frame; on fragments that open a frame only.
    pub protocol: u16,
}

impl Header {
    /// The fields that the kind does not carry are zero.
    pub open spec fn wf(self) -> bool {
        &&& (self.kind is First || self.total_len == 0)
        &&& (self.kind.starts() || self.protocol == 0)
    }
}

/// A fragment as the decoder reads it.
pub struct Parsed {
    /// The header's fields.
    pub header: Header,
    /// The piece of the frame that the fragment carries.
    pub payload: Seq<u8>,
    /// The check sequence, or zero where the fragment closes no frame.
    pub crc: u32,
}

/// Where the decoder found a fragment's parts in a datagram.
#[derive(Clone, Copy, Debug)]
pub struct Fragment {
    /// The header's fields.
    pub header: Header,
    /// The index of the first payload byte.
    pub start: usize,
    /// The index behind the last payload byte.
    pub end: usize,
    /// The check sequence, or zero where the fragment closes no frame.
    pub crc: u32,
}

/// The number of bytes in front of the payload.
pub open spec fn header_len(kind: FragmentKind, label_width: nat) -> nat {
    3 + (if kind is First {
        2nat
    } else {
        0nat
    }) + (if kind.starts() {
        2nat
    } else {
        0nat
    }) + label_width
}

/// The number of bytes behind the payload.
pub open spec fn trailer_len(kind: FragmentKind) -> nat {
    if kind.ends() {
        4
    } else {
        0
    }
}

/// The length of a fragment that carries `payload_len` bytes.
pub open spec fn fragment_len(kind: FragmentKind, label_width: nat, payload_len: nat) -> nat {
    header_len(kind, label_width) + payload_len + trailer_len(kind)
}

/// A 16-bit number, most significant byte first.
pub open spec fn be16(v: u16) -> Seq<u8> {
    seq![(v / 256) as u8, (v % 256) as u8]
}

/// A 32-bit number, most significant byte first.
pub open spec fn be32(v: u32) -> Seq<u8> {
    seq![
        (v / 0x100_0000) as u8,
        ((v / 0x1_0000) % 256) as u8,
        ((v / 0x100) % 256) as u8,
        (v % 256) as u8,
    ]
}

/// The 16-bit number at `bytes[at..at + 2]`.
pub open spec fn read16(bytes: Seq<u8>, at: int) -> u16 {
    (bytes[at] as int * 256 + bytes[at + 1] as int) as u16
}

/// The 32-bit number at `bytes[at..at + 4]`.
pub open spec fn read32(bytes: Seq<u8>, at: int) -> u32 {
    (bytes[at] as int * 0x100_0000 + bytes[at + 1] as int * 0x1_0000 + bytes[at + 2] as int
        * 0x100 + bytes[at + 3] as int) as u32
}

/// The part of a fragment in front of its label: the two length bytes, the
/// fragment id, and the fields that only opening fragments have.
#[verifier::opaque]
pub open spec fn encode_fixed(h: Header, payload_len: nat) -> Seq<u8> {
    let rest = (fragment_len(h.kind, h.label.width(), payload_len) - 2) as nat;
    seq![(h.kind.code() * 64 + h.label.code() * 16 + rest / 256) as u8, (rest % 256) as u8, h.frag_id]
        + (if h.kind is First {
        be16(h.total_len)
    } else {
        Seq::empty()
    }) + (if h.kind.starts() {
        be16(h.protocol)
    } else {
        Seq::empty()
    })
}

/// The part of a fragment behind its payload.
pub open spec fn encode_trailer(kind: FragmentKind, crc: u32) -> Seq<u8> {
    if kind.ends() {
        be32(crc)
    } else {
        Seq::empty()
    }
}

/// The bytes of a fragment.
pub open spec fn encode_spec(h: Header, payload: Seq<u8>, crc: u32) -> Seq<u8> {
    encode_fixed(h, payload.len()) + h.label.bytes() + payload + encode_trailer(h.kind, crc)
}

/// Whether a header with a payload of this length makes a fragment.
pub open spec fn encodable(h: Header, payload_len: nat) -> bool {
    h.wf() && fragment_len(h.kind, h.label.width(), payload_len) <= MAX_FRAGMENT_LEN
}

/// The fragment at the front of a datagram, if there is one.
#[verifier::opaque]
pub open spec fn decode_spec(bytes: Seq<u8>) -> Option<Parsed> {
    if bytes.len() < 3 {
        None
    } else {
        let b0 = bytes[0] as nat;
        let kind = FragmentKind::of_code(b0 / 64);
        let code = (b0 / 16) % 4;
        let width = Label::width_of_code(code);
        let hlen = header_len(kind, width);
        let end = 2 + (b0 % 16) * 256 + bytes[1] as nat;
        if code == 3 || end > bytes.len() || end < hlen + trailer_len(kind) {
            None
        } else {
            Some(
                Parsed {
                    header: Header {
                        kind,
                        frag_id: bytes[2],
                        label: Label::read(code, bytes, hlen - width),
                        total_len: if kind is First {
                            read16(bytes, 3)
                        } else {
                            0
                        },
                        protocol: if kind.starts() {
                            read16(bytes, hlen - width - 2)
                        } else {
                            0
                        },
                    },
                    payload: bytes.subrange(hlen as int, end - trailer_len(kind)),
                    crc: if kind.ends() {
                        read32(bytes, end - 4)
                    } else {
                        0
                    },
                },
            )
        }
    }
}

/// The length of what `encode_spec` gives.
pub proof fn lemma_encode_len(h: Header, payload: Seq<u8>, crc: u32)
    ensures
        encode_spec(h, payload, crc).len() == fragment_len(
            h.kind,
            h.label.width(),
            payload.len(),
        ),
        encode_fixed(h, payload.len()).len() + h.label.width() == header_len(
            h.kind,
            h.label.width(),
        ),
{
    reveal(encode_fixed);
}

proof fn lemma_flag_byte(kind: nat, code: nat, rest: nat)
    requires
        kind < 4,
        code < 4,
        rest < 4096,
    ensures
        kind * 64 + code * 16 + rest / 256 < 256,
        (kind * 64 + code * 16 + rest / 256) / 64 == kind,
        ((kind * 64 + code * 16 + rest / 256) / 16) % 4 == code,
        ((kind * 64 + code * 16 + rest / 256) % 16) * 256 + rest % 256 == rest,
{
}

proof fn lemma_joined(a: Seq<u8>, b: Seq<u8>, c: Seq<u8>, d: Seq<u8>, e: Seq<u8>)
    ensures
        (a + b + c + d + e).len() == a.len() + b.len() + c.len() + d.len() + e.len(),
        forall|i: int| 0 <= i < a.len() ==> (a + b + c + d + e)[i] == a[i],
        forall|i: int| 0 <= i < b.len() ==> (a + b + c + d + e)[a.len() + i] == b[i],
        forall|i: int| 0 <= i < c.len() ==> (a + b + c + d + e)[a.len() + b.len() + i] == c[i],
        forall|i: int|
            0 <= i < d.len() ==> (a + b + c + d + e)[a.len() + b.len() + c.len() + i] == d[i],
{
}

proof fn lemma_read16(v: u16, bytes: Seq<u8>, at: int)
    requires
        0 <= at,
        at + 1 < bytes.len(),
        bytes[at] == (v / 256) as u8,
        bytes[at + 1] == (v % 256) as u8,
    ensures
        read16(bytes, at) == v,
{
}

proof fn lemma_read32(v: u32, bytes: Seq<u8>, at: int)
    requires
        0 <= at,
        at + 3 < bytes.len(),
        bytes[at] == (v / 0x100_0000) as u8,
        bytes[at + 1] == ((v / 0x1_0000) % 256) as u8,
        bytes[at + 2] == ((v / 0x100) % 256) as u8,
        bytes[at + 3] == (v % 256) as u8,
    ensures
        read32(bytes, at) == v,
{
}

proof fn lemma_read_label(label: Label, bytes: Seq<u8>, at: int)
    requires
        0 <= at,
        at + label.width() <= bytes.len(),
        forall|i: int| 0 <= i < label.width() ==> bytes[at + i] == label.bytes()[i],
    ensures
        Label::read(label.code(), bytes, at) == label,
{
    match label {
        Label::Broadcast => {},
        Label::Short(a, b, c) => {
            assert(bytes[at + 0] == label.bytes()[0]);
            assert(bytes[at + 1] == label.bytes()[1]);
            assert(bytes[at + 2] == label.bytes()[2]);
        },
        Label::Full(a, b, c, d, e, f) => {
            assert(bytes[at + 0] == label.bytes()[0]);
            assert(bytes[at + 1] == label.bytes()[1]);
            assert(bytes[at + 2] == label.bytes()[2]);
            assert(bytes[at + 3] == label.bytes()[3]);
            assert(bytes[at + 4] == label.bytes()[4]);
            assert(bytes[at + 5] == label.bytes()[5]);
        },
    }
}

/// A datagram that begins with an encoded fragment decodes to that fragment,
/// whatever padding follows it.
#[verifier::rlimit(40)]
pub proof fn lemma_decode_encode(h: Header, payload: Seq<u8>, crc: u32, padding: Seq<u8>)
    requires
        encodable(h, payload.len()),
    ensures
        decode_spec(encode_spec(h, payload, crc) + padding) == Some(
            Parsed {
                header: h,
                payload,
                crc: if h.kind.ends() {
                    crc
                } else {
                    0
                },
            },
        ),
{
    reveal(encode_fixed);
    reveal(decode_spec);
    let fixed = encode_fixed(h, payload.len());
    let lab = h.label.bytes();
    let tail = encode_trailer(h.kind, crc);
    let bytes = encode_spec(h, payload, crc) + padding;
    let width = h.label.width();
    let hlen = header_len(h.kind, width);
    let rest = (fragment_len(h.kind, width, payload.len()) - 2) as nat;
    let end = 2 + rest;
    lemma_encode_len(h, payload, crc);
    lemma_joined(fixed, lab, payload, tail, padding);
    lemma_flag_byte(h.kind.code(), h.label.code(), rest);
    assert(fixed.len() == hlen - width);
    assert(lab.len() == width);
    assert(bytes[0] == fixed[0]);
    assert(bytes[1] == fixed[1]);
    assert(bytes[2] == fixed[2]);
    let b0 = bytes[0] as nat;
    assert(b0 == h.kind.code() * 64 + h.label.code() * 16 + rest / 256);
    assert(bytes[1] as nat == rest % 256);
    assert(FragmentKind::of_code(b0 / 64) == h.kind);
    assert((b0 / 16) % 4 == h.label.code());
    assert(2 + (b0 % 16) * 256 + bytes[1] as nat == end);
    assert(Label::width_of_code(h.label.code()) == width);
    assert forall|i: int| 0 <= i < width implies bytes[hlen - width + i] == lab[i] by {
        assert(bytes[fixed.len() + i] == lab[i]);
    }
    lemma_read_label(h.label, bytes, hlen - width);
    if h.kind is First {
        assert(bytes[3] == fixed[3]);
        assert(bytes[4] == fixed[4]);
        assert(bytes[5] == fixed[5]);
        assert(bytes[6] == fixed[6]);
        lemma_read16(h.total_len, bytes, 3);
        lemma_read16(h.protocol, bytes, 5);
    } else if h.kind.starts() {
        assert(bytes[3] == fixed[3]);
        assert(bytes[4] == fixed[4]);
        lemma_read16(h.protocol, bytes, 3);
    }
    if h.kind.ends() {
        let at_tail: int = (fixed.len() + lab.len() + payload.len()) as int;
        assert(bytes[at_tail + 0] == tail[0]);
        assert(bytes[at_tail + 1] == tail[1]);
        assert(bytes[at_tail + 2] == tail[2]);
        assert(bytes[at_tail + 3] == tail[3]);
        lemma_read32(crc, bytes, end - 4);
    }
    assert(bytes.subrange(hlen as int, end - trailer_len(h.kind)) =~= payload) by {
        assert forall|i: int| 0 <= i < payload.len() implies bytes[hlen + i] == payload[i] by {
            assert(bytes[fixed.len() + lab.len() + i] == payload[i]);
        }
    }
}

proof fn lemma_be16_of_read(bytes: Seq<u8>, at: int)
    requires
        0 <= at,
        at + 1 < bytes.len(),
    ensures
        be16(read16(bytes, at)) == seq![bytes[at], bytes[at + 1]],
{
    assert(be16(read16(bytes, at)) =~= seq![bytes[at], bytes[at + 1]]);
}

proof fn lemma_be32_of_read(bytes: Seq<u8>, at: int)
    requires
        0 <= at,
        at + 3 < bytes.len(),
    ensures
        be32(read32(bytes, at)) == seq![bytes[at], bytes[at + 1], bytes[at + 2], bytes[at + 3]],
{
    let a = bytes[at] as u32;
    let b = bytes[at + 1] as u32;
    let c = bytes[at + 2] as u32;
    let d = bytes[at + 3] as u32;
    let v = read32(bytes, at);
    assert(v == a * 0x100_0000 + b * 0x1_0000 + c * 0x100 + d);
    let w: u32 = (a * 0x100_0000 + b * 0x1_0000 + c * 0x100 + d) as u32;
    assert(w / 0x100_0000u32 == a && (w / 0x1_0000u32) % 256u32 == b && (w / 0x100u32) % 256u32
        == c && w % 256u32 == d) by (bit_vector)
        requires
            a < 256u32,
            b < 256u32,
            c < 256u32,
            d < 256u32,
            w == a * 0x100_0000u32 + b * 0x1_0000u32 + c * 0x100u32 + d,
    ;
    assert(be32(v) =~= seq![bytes[at], bytes[at + 1], bytes[at + 2], bytes[at + 3]]);
}

proof fn lemma_label_of_read(code: nat, bytes: Seq<u8>, at: int)
    requires
        code < 3,
        0 <= at,
        at + Label::width_of_code(code) <= bytes.len(),
    ensures
        Label::read(code, bytes, at).code() == code,
        Label::read(code, bytes, at).width() == Label::width_of_code(code),
        Label::read(code, bytes, at).bytes() == bytes.subrange(
            at,
            at + Label::width_of_code(code),
        ),
{
    assert(Label::read(code, bytes, at).bytes() =~= bytes.subrange(
        at,
        at + Label::width_of_code(code),
    ));
}

proof fn lemma_flag_byte_of_read(b0: nat, b1: nat)
    requires
        b0 < 256,
        b1 < 256,
    ensures
        FragmentKind::of_code(b0 / 64).code() == b0 / 64,
        (b0 / 64) * 64 + ((b0 / 16) % 4) * 16 + ((b0 % 16) * 256 + b1) / 256 == b0,
        ((b0 % 16) * 256 + b1) % 256 == b1,
{
}

/// What decodes is an encoded fragment: the front of the datagram, as far
/// as the fragment announces its length, is the encoding of what the decoder
/// read. So a datagram decodes in one way only, and nothing decodes that the
/// encoder could not have written.
#[verifier::rlimit(40)]
pub proof fn lemma_encode_decode(bytes: Seq<u8>)
    requires
        decode_spec(bytes) is Some,
    ensures
        ({
            let p = decode_spec(bytes).unwrap();
            let len = fragment_len(p.header.kind, p.header.label.width(), p.payload.len());
            &&& encodable(p.header, p.payload.len())
            &&& len <= bytes.len()
            &&& bytes.take(len as int) == encode_spec(p.header, p.payload, p.crc)
        }),
{
    reveal(decode_spec);
    reveal(encode_fixed);
    let p = decode_spec(bytes).unwrap();
    let h = p.header;
    let b0 = bytes[0] as nat;
    let b1 = bytes[1] as nat;
    let code = (b0 / 16) % 4;
    let width = Label::width_of_code(code);
    let hlen = header_len(h.kind, width);
    let end = 2 + (b0 % 16) * 256 + b1;
    let at_label = hlen - width;
    lemma_flag_byte_of_read(b0, b1);
    lemma_label_of_read(code, bytes, at_label);
    let fixed = encode_fixed(h, p.payload.len());
    let lab = h.label.bytes();
    let tail = encode_trailer(h.kind, p.crc);
    let enc = encode_spec(h, p.payload, p.crc);
    lemma_joined(fixed, lab, p.payload, tail, Seq::empty());
    assert(enc + Seq::<u8>::empty() =~= enc);
    assert(enc.len() == end);
    if h.kind is First {
        lemma_be16_of_read(bytes, 3);
        lemma_be16_of_read(bytes, 5);
    } else if h.kind.starts() {
        lemma_be16_of_read(bytes, 3);
    }
    if h.kind.ends() {
        lemma_be32_of_read(bytes, end - 4);
    }
    assert(fixed =~= bytes.subrange(0, at_label));
    assert forall|i: int| 0 <= i < end implies enc[i] == bytes[i] by {
        if i < fixed.len() {
            assert(enc[i] == fixed[i]);
        } else if i < fixed.len() + lab.len() {
            assert(enc[fixed.len() + (i - fixed.len())] == lab[i - fixed.len()]);
        } else if i < fixed.len() + lab.len() + p.payload.len() {
            let k = i - fixed.len() - lab.len();
            assert(enc[fixed.len() + lab.len() + k] == p.payload[k]);
        } else {
            let k = i - fixed.len() - lab.len() - p.payload.len();
            assert(enc[fixed.len() + lab.len() + p.payload.len() + k] == tail[k]);
        }
    }
    assert(bytes.take(end as int) =~= enc);
}

fn push_be16(out: &mut Vec<u8>, v: u16)
    ensures
        final(out)@ == old(out)@ + be16(v),
{
    out.push((v / 256) as u8);
    out.push((v % 256) as u8);
    assert(out@ =~= old(out)@ + be16(v));
}

fn push_be32(out: &mut Vec<u8>, v: u32)
    ensures
        final(out)@ == old(out)@ + be32(v),
{
    out.push((v / 0x100_0000) as u8);
    out.push(((v / 0x1_0000) % 256) as u8);
    out.push(((v / 0x100) % 256) as u8);
    out.push((v % 256) as u8);
    assert(out@ =~= old(out)@ + be32(v));
}

fn get_be16(bytes: &[u8], at: usize) -> (v: u16)
    requires
        at + 1 < bytes@.len(),
    ensures
        v == read16(bytes@, at as int),
{
    let hi: u16 = bytes[at] as u16;
    let lo: u16 = bytes[at + 1] as u16;
    hi * 256 + lo
}

fn get_be32(bytes: &[u8], at: usize) -> (v: u32)
    requires
        at + 3 < bytes@.len(),
    ensures
        v == read32(bytes@, at as int),
{
    let b0: u32 = bytes[at] as u32;
    let b1: u32 = bytes[at + 1] as u32;
    let b2: u32 = bytes[at + 2] as u32;
    let b3: u32 = bytes[at + 3] as u32;
    b0 * 0x100_0000 + b1 * 0x1_0000 + b2 * 0x100 + b3
}

/// The number of bytes in front of the payload.
pub fn header_size(kind: FragmentKind, label: &Label) -> (n: usize)
    ensures
        n == header_len(kind, label.width()),
        3 <= n <= 13,
{
    let opening: usize = match kind {
        FragmentKind::First => 4,
        FragmentKind::Single => 2,
        _ => 0,
    };
    3 + opening + label.len()
}

/// Writes a fragment: the header, the bytes `data[from..to]` as its payload,
/// and the check sequence where the kind closes a frame.
pub fn encode(h: &Header, data: &[u8], from: usize, to: usize, crc: u32) -> (out: Vec<u8>)
    requires
        from <= to <= data@.len(),
        fragment_len(h.kind, h.label.width(), (to - from) as nat) <= MAX_FRAGMENT_LEN,
    ensures
        out@ == encode_spec(*h, data@.subrange(from as int, to as int), crc),
        out@.len() == fragment_len(h.kind, h.label.width(), (to - from) as nat),
{
    let ghost payload = data@.subrange(from as int, to as int);
    proof {
        reveal(encode_fixed);
    }
    let kind_code: usize = match h.kind {
        FragmentKind::Single => 3,
        FragmentKind::First => 2,
        FragmentKind::Last => 1,
        FragmentKind::Continuation => 0,
    };
    let label_code: usize = match h.label {
        Label::Full(..) => 0,
        Label::Short(..) => 1,
        Label::Broadcast => 2,
    };
    let closes: bool = h.kind.is_end();
    let trailer: usize = if closes {
        4
    } else {
        0
    };
    let rest: usize = header_size(h.kind, &h.label) + (to - from) + trailer - 2;
    let mut out: Vec<u8> = Vec::with_capacity(rest + 2);
    out.push((kind_code * 64 + label_code * 16 + rest / 256) as u8);
    out.push((rest % 256) as u8);
    out.push(h.frag_id);
    match h.kind {
        FragmentKind::First => {
            push_be16(&mut out, h.total_len);
            push_be16(&mut out, h.protocol);
        },
        FragmentKind::Single => {
            push_be16(&mut out, h.protocol);
        },
        _ => {},
    }
    assert(out@ =~= encode_fixed(*h, payload.len()));
    h.label.append_to(&mut out);
    let ghost front = out@;
    let mut i: usize = from;
    while i < to
        invariant
            from <= i <= to <= data@.len(),
            out@ == front + data@.subrange(from as int, i as int),
        decreases to - i,
    {
        out.push(data[i]);
        i = i + 1;
        assert(out@ =~= front + data@.subrange(from as int, i as int));
    }
    if closes {
        push_be32(&mut out, crc);
    }
    assert(out@ =~= encode_spec(*h, payload, crc));
    proof {
        lemma_encode_len(*h, payload, crc);
    }
    out
}

/// Reads the fragment at the front of a datagram. What follows the length
/// that the fragment announces is padding and is not looked at.
pub fn decode(bytes: &[u8]) -> (r: Option<Fragment>)
    ensures
        match r {
            Some(f) => f.start <= f.end <= bytes@.len() && decode_spec(bytes@) == Some(
                Parsed {
                    header: f.header,
                    payload: bytes@.subrange(f.start as int, f.end as int),
                    crc: f.crc,
                },
            ),
            None => decode_spec(bytes@) is None,
        },
{
    proof {
        reveal(decode_spec);
    }
    if bytes.len() < 3 {
        return None;
    }
    let b0: usize = bytes[0] as usize;
    let b1: usize = bytes[1] as usize;
    let flags: usize = b0 / 64;
    let code: usize = (b0 / 16) % 4;
    let end: usize = 2 + (b0 % 16) * 256 + b1;
    if code == 3 || end > bytes.len() {
        return None;
    }
    let kind = if flags == 3 {
        FragmentKind::Single
    } else if flags == 2 {
        FragmentKind::First
    } else if flags == 1 {
        FragmentKind::Last
    } else {
        FragmentKind::Continuation
    };
    let width: usize = if code == 0 {
        6
    } else if code == 1 {
        3
    } else {
        0
    };
    let opening: usize = match kind {
        FragmentKind::First => 4,
        FragmentKind::Single => 2,
        _ => 0,
    };
    let closes: bool = kind.is_end();
    let trailer: usize = if closes {
        4
    } else {
        0
    };
    let hlen: usize = 3 + opening + width;
    if end < hlen + trailer {
        return None;
    }
    let at_label: usize = hlen - width;
    let label = if code == 0 {
        Label::Full(
            bytes[at_label],
            bytes[at_label + 1],
            bytes[at_label + 2],
            bytes[at_label + 3],
            bytes[at_label + 4],
            bytes[at_label + 5],
        )
    } else if code == 1 {
        Label::Short(bytes[at_label], bytes[at_label + 1], bytes[at_label + 2])
    } else {
        Label::Broadcast
    };
    let total_len: u16 = match kind {
        FragmentKind::First => get_be16(bytes, 3),
        _ => 0,
    };
    let protocol: u16 = if kind.is_start() {
        get_be16(bytes, at_label - 2)
    } else {
        0
    };
    let crc: u32 = if closes {
        get_be32(bytes, end - 4)
    } else {
        0
    };
    Some(
        Fragment {
            header: Header { kind, frag_id: bytes[2], label, total_len, protocol },
            start: hlen,
            end: end - trailer,
            crc,
        },
    )
}

/// The longest fragment that a datagram of `capacity` bytes can hold.
pub open spec fn fragment_limit(capacity: nat) -> nat {
    if capacity < MAX_FRAGMENT_LEN {
        capacity
    } else {
        MAX_FRAGMENT_LEN as nat
    }
}

/// The number of payload bytes that a fragment of a kind can carry in a
/// datagram of `capacity` bytes. Room for the check sequence is set aside in
/// every fragment, so that the fragment that turns out to be the last can
/// carry it. Negative where not even the header fits.
pub open spec fn payload_room(kind: FragmentKind, label_width: nat, capacity: nat) -> int {
    fragment_limit(capacity) - header_len(kind, label_width) - CRC_LEN
}

/// The number of payload bytes that a fragment of a kind can carry in a
/// datagram of `capacity` bytes, or `None` where not even the header and the
/// check sequence fit.
pub fn room(kind: FragmentKind, label: &Label, capacity: usize) -> (r: Option<usize>)
    ensures
        match r {
            Some(n) => n == payload_room(kind, label.width(), capacity as nat),
            None => payload_room(kind, label.width(), capacity as nat) < 0,
        },
{
    let limit: usize = if capacity < MAX_FRAGMENT_LEN {
        capacity
    } else {
        MAX_FRAGMENT_LEN
    };
    let overhead: usize = header_size(kind, label) + CRC_LEN;
    if limit < overhead {
        None
    } else {
        Some(limit - overhead)
    }
}

} // verus!
