//! Addressing labels and the attributes that travel with a frame.

use vstd::prelude::*;

verus! {

/// The number of distinct values of the label counter: labels drawn from the
/// counter use all six bytes, so the counter has 48 bits and wraps to zero.
pub const LABEL_COUNTER_MODULUS: u64 = 0x1_0000_0000_0000;

/// The addressing tag of a frame: absent, three bytes, or six bytes.
#[derive(Clone, Copy, Debug, PartialEq, Eq, Structural)]
pub enum Label {
    /// No label on the wire: the frame is for every receiver.
    Broadcast,
    /// A three-byte label.
    Short(u8, u8, u8),
    /// A six-byte label.
    Full(u8, u8, u8, u8, u8, u8),
}

/// What the first fragment of a frame says about the frame as a whole.
#[derive(Clone, Copy, Debug, PartialEq, Eq, Structural)]
pub struct Metadata {
    /// The identifier of the protocol that the frame belongs to.
    pub protocol: u16,
    /// The label that every fragment of the frame repeats.
    pub label: Label,
}

impl Label {
    /// The number of bytes the label takes on the wire.
    pub open spec fn width(self) -> nat {
        match self {
            Label::Broadcast => 0,
            Label::Short(..) => 3,
            Label::Full(..) => 6,
        }
    }

    /// The label's bytes in wire order.
    pub open spec fn bytes(self) -> Seq<u8> {
        match self {
            Label::Broadcast => Seq::empty(),
            Label::Short(a, b, c) => seq![a, b, c],
            Label::Full(a, b, c, d, e, f) => seq![a, b, c, d, e, f],
        }
    }

    /// The two-bit code that announces the label's width in a header.
    pub open spec fn code(self) -> nat {
        match self {
            Label::Full(..) => 0,
            Label::Short(..) => 1,
            Label::Broadcast => 2,
        }
    }

    /// The label that a header with width code `code` holds at `bytes[at..]`.
    pub open spec fn read(code: nat, bytes: Seq<u8>, at: int) -> Label {
        if code == 0 {
            Label::Full(
                bytes[at],
                bytes[at + 1],
                bytes[at + 2],
                bytes[at + 3],
                bytes[at + 4],
                bytes[at + 5],
            )
        } else if code == 1 {
            Label::Short(bytes[at], bytes[at + 1], bytes[at + 2])
        } else {
            Label::Broadcast
        }
    }

    /// The width that belongs to a width code.
    pub open spec fn width_of_code(code: nat) -> nat {
        if code == 0 {
            6
        } else if code == 1 {
            3
        } else {
            0
        }
    }

    /// The six-byte label that stands for a counter value, most significant
    /// byte first.
    pub open spec fn of_counter(counter: u64) -> Label {
        Label::Full(
            ((counter / 0x100_0000_0000) % 256) as u8,
            ((counter / 0x1_0000_0000) % 256) as u8,
            ((counter / 0x100_0000) % 256) as u8,
            ((counter / 0x1_0000) % 256) as u8,
            ((counter / 0x100) % 256) as u8,
            (counter % 256) as u8,
        )
    }

    /// The number of bytes the label takes on the wire.
    pub fn len(&self) -> (n: usize)
        ensures
            n == self.width(),
            n <= 6,
    {
        match self {
            Label::Broadcast => 0,
            Label::Short(..) => 3,
            Label::Full(..) => 6,
        }
    }

    /// The label's bytes in wire order.
    pub fn to_bytes(&self) -> (out: Vec<u8>)
        ensures
            out@ == self.bytes(),
    {
        let mut out: Vec<u8> = Vec::new();
        self.append_to(&mut out);
        assert(out@ =~= self.bytes());
        out
    }

    /// Appends the label's bytes to `out`.
    pub fn append_to(&self, out: &mut Vec<u8>)
        ensures
            final(out)@ == old(out)@ + self.bytes(),
    {
        match self {
            Label::Broadcast => {},
            Label::Short(a, b, c) => {
                out.push(*a);
                out.push(*b);
                out.push(*c);
            },
            Label::Full(a, b, c, d, e, f) => {
                out.push(*a);
                out.push(*b);
                out.push(*c);
                out.push(*d);
                out.push(*e);
                out.push(*f);
            },
        }
        assert(out@ =~= old(out)@ + self.bytes());
    }

    /// Reads a label from a byte string: one of no, three or six bytes.
    /// Any other length is no label.
    pub fn from_bytes(bytes: &[u8]) -> (label: Option<Label>)
        ensures
            label is Some <==> (bytes@.len() == 0 || bytes@.len() == 3 || bytes@.len() == 6),
            label is Some ==> label.unwrap().bytes() == bytes@,
    {
        let n: usize = bytes.len();
        if n == 0 {
            assert(Label::Broadcast.bytes() =~= bytes@);
            Some(Label::Broadcast)
        } else if n == 3 {
            let l = Label::Short(bytes[0], bytes[1], bytes[2]);
            assert(l.bytes() =~= bytes@);
            Some(l)
        } else if n == 6 {
            let l = Label::Full(bytes[0], bytes[1], bytes[2], bytes[3], bytes[4], bytes[5]);
            assert(l.bytes() =~= bytes@);
            Some(l)
        } else {
            None
        }
    }

    /// The six-byte label that stands for a counter value, most significant
    /// byte first. Only the counter's low 48 bits count.
    pub fn from_counter(counter: u64) -> (label: Label)
        ensures
            label == Label::of_counter(counter),
    {
        Label::Full(
            ((counter / 0x100_0000_0000) % 256) as u8,
            ((counter / 0x1_0000_0000) % 256) as u8,
            ((counter / 0x100_0000) % 256) as u8,
            ((counter / 0x1_0000) % 256) as u8,
            ((counter / 0x100) % 256) as u8,
            (counter % 256) as u8,
        )
    }
}

/// Two counter values below the modulus never share a label.
pub proof fn lemma_counter_labels_distinct(a: u64, b: u64)
    requires
        a < LABEL_COUNTER_MODULUS,
        b < LABEL_COUNTER_MODULUS,
        a != b,
    ensures
        Label::of_counter(a) != Label::of_counter(b),
{
    if Label::of_counter(a) == Label::of_counter(b) {
        assert(a == b) by (bit_vector)
            requires
                a < 0x1_0000_0000_0000u64,
                b < 0x1_0000_0000_0000u64,
                (a / 0x100_0000_0000u64) % 256u64 == (b / 0x100_0000_0000u64) % 256u64,
                (a / 0x1_0000_0000u64) % 256u64 == (b / 0x1_0000_0000u64) % 256u64,
                (a / 0x100_0000u64) % 256u64 == (b / 0x100_0000u64) % 256u64,
                (a / 0x1_0000u64) % 256u64 == (b / 0x1_0000u64) % 256u64,
                (a / 0x100u64) % 256u64 == (b / 0x100u64) % 256u64,
                a % 256u64 == b % 256u64,
        ;
    }
}

} // verus!
