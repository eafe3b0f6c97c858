//! The two directions of the tunnel, one step at a time.
//!
//! Outbound, a frame read from the interface becomes the datagrams to send,
//! in order. Inbound, a datagram received becomes what to do next: deliver a
//! frame, wait for more, or drop. Reading, sending and writing are the
//! caller's.

use crate::decap::{DecapError, DecapStatus, Decapsulator, Outcome};
use crate::encap::{
    can_encapsulate, fragment_at, fragment_count, EncapError, Encapsulator,
};
use crate::frame::{MAX_FRAGMENT_LEN, MAX_PDU_LEN};
use crate::label::{Label, Metadata, LABEL_COUNTER_MODULUS};
use crate::pool::Buffer;
use vstd::prelude::*;

verus! {

/// The fragment id of all outbound traffic: one frame is in flight at a time.
pub const FRAG_ID: u8 = 0;

/// The protocol identifier of the frames that the tunnel carries.
pub const PROTOCOL: u16 = 9029;

/// A fragment as it is sent where datagrams have a fixed length: shorter
/// fragments are filled up with zero bytes. A fixed length of zero means
/// none: the datagram is the fragment.
pub open spec fn pad_spec(fragment: Seq<u8>, fixed_len: nat) -> Seq<u8> {
    if fragment.len() < fixed_len {
        fragment + Seq::new((fixed_len - fragment.len()) as nat, |i: int| 0u8)
    } else {
        fragment
    }
}

/// The longest fragment made for datagrams of a fixed length, or of any
/// length where the fixed length is zero.
pub open spec fn egress_capacity(fixed_len: nat) -> nat {
    if fixed_len == 0 {
        MAX_FRAGMENT_LEN as nat
    } else {
        fixed_len
    }
}

/// Fills a fragment up with zero bytes to the fixed length.
pub fn pad_to(fragment: &mut Vec<u8>, fixed_len: usize)
    ensures
        final(fragment)@ == pad_spec(old(fragment)@, fixed_len as nat),
        fixed_len == 0 ==> final(fragment)@ == old(fragment)@,
        fixed_len > 0 && old(fragment)@.len() <= fixed_len ==> final(fragment)@.len()
            == fixed_len,
{
    let ghost before = fragment@;
    let start: usize = fragment.len();
    assert(fragment@ =~= before + Seq::new(0nat, |i: int| 0u8));
    while fragment.len() < fixed_len
        invariant
            before == old(fragment)@,
            start == before.len(),
            start <= fragment@.len(),
            start < fixed_len ==> fragment@.len() <= fixed_len,
            start >= fixed_len ==> fragment@.len() == start,
            fragment@ == before + Seq::new((fragment@.len() - start) as nat, |i: int| 0u8),
        decreases fixed_len - fragment@.len(),
    {
        fragment.push(0u8);
        assert(fragment@ =~= before + Seq::new((fragment@.len() - start) as nat, |i: int| 0u8));
    }
    assert(fragment@ =~= pad_spec(before, fixed_len as nat));
}

/// Turns one frame into the datagrams to send, in order.
///
/// The frame gets the next label of the engine's counter and leaves in
/// fragments no longer than the fixed length, each filled up to it; with a
/// fixed length of zero the fragments are as long as the frame layout lets
/// them be and leave as they are. Refused with `Busy`, and nothing changed,
/// while a frame is in flight. A frame that cannot leave is refused and
/// still uses up its label.
pub fn egress(enc: &mut Encapsulator, frame: Vec<u8>, fixed_len: usize) -> (r: Result<
    Vec<Vec<u8>>,
    EncapError,
>)
    requires
        old(enc).wf(),
    ensures
        final(enc).wf(),
        old(enc)@.flow is Some ==> r == Err::<Vec<Vec<u8>>, EncapError>(EncapError::Busy)
            && final(enc)@ == old(enc)@,
        old(enc)@.flow is None ==> {
            let label = Label::of_counter(old(enc)@.counter as u64);
            let metadata = Metadata { protocol: PROTOCOL, label };
            let capacity = egress_capacity(fixed_len as nat);
            &&& final(enc)@.flow is None
            &&& final(enc)@.counter == (old(enc)@.counter + 1) % (LABEL_COUNTER_MODULUS as nat)
            &&& match r {
                Ok(datagrams) => {
                    &&& can_encapsulate(frame@.len(), 6, capacity)
                    &&& datagrams@.len() == fragment_count(frame@.len(), 6, capacity)
                    &&& forall|i: int|
                        0 <= i < datagrams@.len() ==> (#[trigger] datagrams@[i])@ == pad_spec(
                            fragment_at(frame@, FRAG_ID, metadata, capacity, i as nat),
                            fixed_len as nat,
                        )
                    &&& fixed_len > 0 ==> forall|i: int|
                        0 <= i < datagrams@.len() ==> (#[trigger] datagrams@[i])@.len()
                            == fixed_len
                },
                Err(e) => {
                    &&& !can_encapsulate(frame@.len(), 6, capacity)
                    &&& e == (if frame@.len() > MAX_PDU_LEN {
                        EncapError::PduTooLarge
                    } else {
                        EncapError::OutputTooSmall
                    })
                },
            }
        },
{
    if !enc.is_idle() {
        return Err(EncapError::Busy);
    }
    let label = enc.next_label();
    let metadata = Metadata { protocol: PROTOCOL, label };
    let capacity: usize = if fixed_len == 0 {
        MAX_FRAGMENT_LEN
    } else {
        fixed_len
    };
    let mut datagrams = match enc.encapsulate(frame, FRAG_ID, metadata, capacity) {
        Ok(frags) => frags,
        Err(e) => {
            return Err(e);
        },
    };
    let ghost frags = datagrams@;
    let mut i: usize = 0;
    while i < datagrams.len()
        invariant
            i <= datagrams@.len(),
            datagrams@.len() == frags.len(),
            capacity == egress_capacity(fixed_len as nat),
            forall|k: int| 0 <= k < frags.len() ==> (#[trigger] frags[k])@.len() <= capacity,
            forall|k: int| i <= k < frags.len() ==> datagrams@[k] == frags[k],
            forall|k: int|
                0 <= k < i ==> (#[trigger] datagrams@[k])@ == pad_spec(
                    frags[k]@,
                    fixed_len as nat,
                ),
            fixed_len > 0 ==> forall|k: int|
                0 <= k < i ==> (#[trigger] datagrams@[k])@.len() == fixed_len,
        decreases datagrams@.len() - i,
    {
        assert(datagrams@[i as int] == frags[i as int]);
        assert(frags[i as int]@.len() <= capacity);
        pad_to(&mut datagrams[i], fixed_len);
        i = i + 1;
    }
    Ok(datagrams)
}

/// What the inbound loop does next.
#[derive(Debug)]
pub enum IngressAction {
    /// Write the frame to the interface, then give its block back by
    /// `Decapsulator::release`.
    Deliver(Buffer, Metadata),
    /// Nothing to write: a frame is in reassembly.
    Wait,
    /// The datagram was dropped. Go on with the next.
    Drop(DecapError),
}

/// Takes one datagram and says what to do next. The engine steps as `decap`
/// says. A dropped datagram never ends the loop and never hands out a frame.
pub fn ingress(dec: &mut Decapsulator, datagram: &[u8]) -> (a: IngressAction)
    requires
        old(dec).wf(),
    ensures
        final(dec).wf(),
        final(dec)@ == old(dec)@.step(datagram@).0,
        match old(dec)@.step(datagram@).1 {
            Outcome::Completed { pdu, metadata, size } => a matches IngressAction::Deliver(b, m)
                && b@ == pdu && m == metadata && b.size() == size && b.wf(),
            Outcome::Fragmented(_) => a is Wait,
            Outcome::Failed(e) => a == IngressAction::Drop(e),
        },
{
    match dec.decap(datagram) {
        Ok(DecapStatus::Completed(buffer, metadata)) => IngressAction::Deliver(buffer, metadata),
        Ok(DecapStatus::Fragmented(_)) => IngressAction::Wait,
        Err(e) => IngressAction::Drop(e),
    }
}

} // verus!
