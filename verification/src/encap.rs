//! Fragmentation: one frame in, a sequence of fragments out.
//!
//! The encapsulator is idle or in the middle of one frame. A frame that fits
//! a datagram leaves as a single fragment. A longer one leaves as a first
//! fragment, continuation fragments, and a last fragment that carries the
//! check sequence of the whole frame. One frame is in flight at a time: the
//! next begins only when the last fragment of the one before has left.

use crate::crc::{crc32, crc32_of, crc_run, crc_update, lemma_crc_run_concat, CRC_INIT};
use crate::frame::{
    encode, encode_spec, payload_room, room, FragmentKind, Header, MAX_PDU_LEN,
};
use crate::label::{Label, Metadata, LABEL_COUNTER_MODULUS};
use vstd::prelude::*;

verus! {

/// Why no fragment was made.
#[derive(Clone, Copy, Debug, PartialEq, Eq, Structural)]
pub enum EncapError {
    /// The frame is longer than `MAX_PDU_LEN`.
    PduTooLarge,
    /// The datagram cannot hold the header, the check sequence and one byte.
    OutputTooSmall,
    /// A frame is in flight and another was begun.
    Busy,
    /// No frame is in flight and a next fragment was asked for.
    Idle,
}

/// One fragment, and whether the frame goes on behind it.
#[derive(Debug)]
pub enum EncapStatus {
    /// The fragment closes its frame.
    Completed(Vec<u8>),
    /// More fragments of the frame follow.
    Fragmented(Vec<u8>),
}

/// A frame in flight, for contracts.
pub struct FlowModel {
    /// The whole frame.
    pub pdu: Seq<u8>,
    /// The number of bytes that have left.
    pub offset: nat,
    /// The stream that the fragments belong to.
    pub frag_id: u8,
    /// The protocol and label of the frame.
    pub metadata: Metadata,
}

/// An encapsulator, for contracts.
pub struct EncapModel {
    /// The frame in flight, if there is one.
    pub flow: Option<FlowModel>,
    /// The counter that the next label is drawn from.
    pub counter: nat,
}

/// What one step gives.
pub enum StepModel {
    /// A fragment that closes its frame.
    Done(Seq<u8>),
    /// A fragment, and the frame in flight behind it.
    More(Seq<u8>, FlowModel),
    /// No fragment.
    Refused(EncapError),
}

/// The header of a fragment that holds a whole frame.
pub open spec fn single_header(frag_id: u8, metadata: Metadata) -> Header {
    Header {
        kind: FragmentKind::Single,
        frag_id,
        label: metadata.label,
        total_len: 0,
        protocol: metadata.protocol,
    }
}

/// The header of the first fragment of a frame of `total` bytes.
pub open spec fn first_header(frag_id: u8, metadata: Metadata, total: nat) -> Header {
    Header {
        kind: FragmentKind::First,
        frag_id,
        label: metadata.label,
        total_len: total as u16,
        protocol: metadata.protocol,
    }
}

/// The header of a fragment behind the first.
pub open spec fn next_header(kind: FragmentKind, frag_id: u8, label: Label) -> Header {
    Header { kind, frag_id, label, total_len: 0, protocol: 0 }
}

/// The first step on a frame. A frame no longer than the room of a single
/// fragment leaves whole, with its check sequence. A longer one leaves its
/// first bytes, as many as a first fragment has room for.
pub open spec fn begin_step(
    pdu: Seq<u8>,
    frag_id: u8,
    metadata: Metadata,
    capacity: nat,
) -> StepModel {
    let width = metadata.label.width();
    let first = payload_room(FragmentKind::First, width, capacity);
    if pdu.len() > MAX_PDU_LEN {
        StepModel::Refused(EncapError::PduTooLarge)
    } else if pdu.len() <= payload_room(FragmentKind::Single, width, capacity) {
        StepModel::Done(encode_spec(single_header(frag_id, metadata), pdu, crc32(pdu)))
    } else if first >= 1 {
        StepModel::More(
            encode_spec(first_header(frag_id, metadata, pdu.len()), pdu.subrange(0, first), 0),
            FlowModel { pdu, offset: first as nat, frag_id, metadata },
        )
    } else {
        StepModel::Refused(EncapError::OutputTooSmall)
    }
}

/// A later step on a frame in flight. What is left leaves in a last fragment
/// with the check sequence of the whole frame if it fits; else as many bytes
/// leave as a fragment has room for.
pub open spec fn continue_step(flow: FlowModel, capacity: nat) -> StepModel {
    let label = flow.metadata.label;
    let room = payload_room(FragmentKind::Continuation, label.width(), capacity);
    let len = flow.pdu.len() as int;
    let offset = flow.offset as int;
    if room < 1 {
        StepModel::Refused(EncapError::OutputTooSmall)
    } else if len - offset <= room {
        StepModel::Done(
            encode_spec(
                next_header(FragmentKind::Last, flow.frag_id, label),
                flow.pdu.subrange(offset, len),
                crc32(flow.pdu),
            ),
        )
    } else {
        StepModel::More(
            encode_spec(
                next_header(FragmentKind::Continuation, flow.frag_id, label),
                flow.pdu.subrange(offset, offset + room),
                0,
            ),
            FlowModel { offset: (offset + room) as nat, ..flow },
        )
    }
}

/// The quotient of `a` by `b`, rounded up.
#[verifier::opaque]
pub open spec fn ceil_div(a: int, b: int) -> int {
    (a + b - 1) / b
}

/// Whether a frame of `len` bytes with a label of `label_width` bytes can
/// leave in datagrams of `capacity` bytes.
pub open spec fn can_encapsulate(len: nat, label_width: nat, capacity: nat) -> bool {
    &&& len <= MAX_PDU_LEN
    &&& (len <= payload_room(FragmentKind::Single, label_width, capacity) || payload_room(
        FragmentKind::First,
        label_width,
        capacity,
    ) >= 1)
}

/// The number of fragments that a frame of `len` bytes leaves in, where every
/// datagram has `capacity` bytes.
pub open spec fn fragment_count(len: nat, label_width: nat, capacity: nat) -> nat {
    if len <= payload_room(FragmentKind::Single, label_width, capacity) {
        1
    } else {
        (1 + ceil_div(
            len - payload_room(FragmentKind::First, label_width, capacity),
            payload_room(FragmentKind::Continuation, label_width, capacity),
        )) as nat
    }
}

/// The index in the frame of the first byte that fragment `i` carries.
#[verifier::opaque]
pub open spec fn chunk_start(i: nat, label_width: nat, capacity: nat) -> int {
    if i == 0 {
        0
    } else {
        payload_room(FragmentKind::First, label_width, capacity) + (i - 1) * payload_room(
            FragmentKind::Continuation,
            label_width,
            capacity,
        )
    }
}

/// The index in the frame behind the last byte that fragment `i` carries.
pub open spec fn chunk_end(len: nat, i: nat, label_width: nat, capacity: nat) -> int {
    let end = chunk_start(i + 1, label_width, capacity);
    if len <= payload_room(FragmentKind::Single, label_width, capacity) || end > len {
        len as int
    } else {
        end
    }
}

/// The kind of fragment `i` of `count`.
pub open spec fn kind_at(count: nat, i: nat) -> FragmentKind {
    if count == 1 {
        FragmentKind::Single
    } else if i == 0 {
        FragmentKind::First
    } else if i + 1 < count {
        FragmentKind::Continuation
    } else {
        FragmentKind::Last
    }
}

/// The header of fragment `i` of a frame of `len` bytes.
pub open spec fn header_at(
    len: nat,
    frag_id: u8,
    metadata: Metadata,
    capacity: nat,
    i: nat,
) -> Header {
    let kind = kind_at(fragment_count(len, metadata.label.width(), capacity), i);
    match kind {
        FragmentKind::Single => single_header(frag_id, metadata),
        FragmentKind::First => first_header(frag_id, metadata, len),
        _ => next_header(kind, frag_id, metadata.label),
    }
}

/// The piece of the frame that fragment `i` carries.
pub open spec fn payload_at(pdu: Seq<u8>, label_width: nat, capacity: nat, i: nat) -> Seq<u8> {
    pdu.subrange(
        chunk_start(i, label_width, capacity),
        chunk_end(pdu.len(), i, label_width, capacity),
    )
}

/// The check sequence that fragment `i` carries: that of the whole frame on
/// the fragment that closes it, zero on the others.
pub open spec fn crc_at(pdu: Seq<u8>, label_width: nat, capacity: nat, i: nat) -> u32 {
    if kind_at(fragment_count(pdu.len(), label_width, capacity), i).ends() {
        crc32(pdu)
    } else {
        0
    }
}

/// Fragment `i` of a frame, where every datagram has `capacity` bytes.
pub open spec fn fragment_at(
    pdu: Seq<u8>,
    frag_id: u8,
    metadata: Metadata,
    capacity: nat,
    i: nat,
) -> Seq<u8> {
    let width = metadata.label.width();
    encode_spec(
        header_at(pdu.len(), frag_id, metadata, capacity, i),
        payload_at(pdu, width, capacity, i),
        crc_at(pdu, width, capacity, i),
    )
}

/// Rounding up gives the least multiple that is not below.
pub proof fn lemma_ceil_div(a: int, b: int)
    requires
        a > 0,
        b > 0,
    ensures
        ceil_div(a, b) >= 1,
        (ceil_div(a, b) - 1) * b < a <= ceil_div(a, b) * b,
{
    reveal(ceil_div);
    let q = (a + b - 1) / b;
    let r = (a + b - 1) % b;
    vstd::arithmetic::div_mod::lemma_fundamental_div_mod(a + b - 1, b);
    vstd::arithmetic::div_mod::lemma_mod_bound(a + b - 1, b);
    assert(a + b - 1 == b * q + r);
    assert(b * q == q * b) by (nonlinear_arith);
    assert((q - 1) * b == q * b - b) by (nonlinear_arith);
    assert(q >= 1) by (nonlinear_arith)
        requires
            q * b + r == a + b - 1,
            0 <= r < b,
            a > 0,
            b > 0,
    ;
}

/// Only one number of steps of `b` reaches `a` without a step to spare.
pub proof fn lemma_ceil_div_unique(a: int, b: int, k: int)
    requires
        a > 0,
        b > 0,
        (k - 1) * b < a <= k * b,
    ensures
        k == ceil_div(a, b),
{
    lemma_ceil_div(a, b);
    let q = ceil_div(a, b);
    assert(k - 1 < q) by (nonlinear_arith)
        requires
            (k - 1) * b < q * b,
            b > 0,
    ;
    assert(q - 1 < k) by (nonlinear_arith)
        requires
            (q - 1) * b < k * b,
            b > 0,
    ;
}

/// The progress of one frame through the encapsulator.
#[derive(Debug)]
pub struct EncapContext {
    pdu: Vec<u8>,
    offset: usize,
    crc: u32,
    frag_id: u8,
    metadata: Metadata,
}

impl View for EncapContext {
    type V = FlowModel;

    closed spec fn view(&self) -> FlowModel {
        FlowModel {
            pdu: self.pdu@,
            offset: self.offset as nat,
            frag_id: self.frag_id,
            metadata: self.metadata,
        }
    }
}

impl EncapContext {
    /// Something has left, something is left, and the running check
    /// sequence stands for what has left.
    pub closed spec fn wf(&self) -> bool {
        &&& self.offset < self.pdu@.len() <= MAX_PDU_LEN
        &&& self.crc == crc_run(CRC_INIT, self.pdu@.subrange(0, self.offset as int))
    }
}

/// The fragmentation engine of one tunnel.
#[derive(Debug)]
pub struct Encapsulator {
    context: Option<EncapContext>,
    counter: u64,
}

impl View for Encapsulator {
    type V = EncapModel;

    closed spec fn view(&self) -> EncapModel {
        EncapModel {
            flow: match self.context {
                Some(c) => Some(c@),
                None => None,
            },
            counter: self.counter as nat,
        }
    }
}

impl Encapsulator {
    /// The counter is in range and the frame in flight, if any, is sound.
    pub closed spec fn wf(&self) -> bool {
        &&& self.counter < LABEL_COUNTER_MODULUS
        &&& self.context matches Some(c) ==> c.wf()
    }

    /// What `wf` says of the model.
    pub proof fn lemma_wf(&self)
        requires
            self.wf(),
        ensures
            self@.counter < LABEL_COUNTER_MODULUS,
            self@.flow matches Some(f) ==> f.offset < f.pdu.len() <= MAX_PDU_LEN,
    {
    }

    /// An idle encapsulator whose first label is drawn from `counter`, taken
    /// modulo `LABEL_COUNTER_MODULUS`.
    pub fn new(counter: u64) -> (e: Encapsulator)
        ensures
            e.wf(),
            e@ == (EncapModel { flow: None, counter: (counter % LABEL_COUNTER_MODULUS) as nat }),
    {
        Encapsulator { context: None, counter: counter % LABEL_COUNTER_MODULUS }
    }

    /// Whether no frame is in flight.
    pub fn is_idle(&self) -> (b: bool)
        ensures
            b == (self@.flow is None),
    {
        self.context.is_none()
    }

    /// Draws the label for the next frame: the counter's value as six bytes.
    /// The counter goes up by one and wraps to zero at
    /// `LABEL_COUNTER_MODULUS`.
    pub fn next_label(&mut self) -> (label: Label)
        requires
            old(self).wf(),
        ensures
            final(self).wf(),
            label == Label::of_counter(old(self)@.counter as u64),
            final(self)@.counter == (old(self)@.counter + 1) % (LABEL_COUNTER_MODULUS as nat),
            final(self)@.flow == old(self)@.flow,
    {
        let label = Label::from_counter(self.counter);
        self.counter = if self.counter + 1 == LABEL_COUNTER_MODULUS {
            0
        } else {
            self.counter + 1
        };
        label
    }

    /// Begins a frame and makes its first fragment, no longer than
    /// `capacity`. Refused with `Busy` while another frame is in flight.
    pub fn begin_encap(
        &mut self,
        pdu: Vec<u8>,
        frag_id: u8,
        metadata: Metadata,
        capacity: usize,
    ) -> (r: Result<EncapStatus, EncapError>)
        requires
            old(self).wf(),
        ensures
            final(self).wf(),
            final(self)@.counter == old(self)@.counter,
            old(self)@.flow is Some ==> r == Err::<EncapStatus, EncapError>(EncapError::Busy)
                && final(self)@ == old(self)@,
            old(self)@.flow is None ==> match begin_step(
                pdu@,
                frag_id,
                metadata,
                capacity as nat,
            ) {
                StepModel::Done(f) => r matches Ok(EncapStatus::Completed(v)) && v@ == f
                    && final(self)@.flow is None,
                StepModel::More(f, flow) => r matches Ok(EncapStatus::Fragmented(v)) && v@ == f
                    && final(self)@.flow == Some(flow),
                StepModel::Refused(e) => r == Err::<EncapStatus, EncapError>(e)
                    && final(self)@.flow is None,
            },
            r matches Ok(EncapStatus::Completed(v)) ==> v@.len() <= capacity,
            r matches Ok(EncapStatus::Fragmented(v)) ==> v@.len() <= capacity,
    {
        if self.context.is_some() {
            return Err(EncapError::Busy);
        }
        let len: usize = pdu.len();
        if len > MAX_PDU_LEN {
            return Err(EncapError::PduTooLarge);
        }
        let single = room(FragmentKind::Single, &metadata.label, capacity);
        let fits: bool = match single {
            Some(n) => len <= n,
            None => false,
        };
        if fits {
            let h = Header {
                kind: FragmentKind::Single,
                frag_id,
                label: metadata.label,
                total_len: 0,
                protocol: metadata.protocol,
            };
            let crc = crc32_of(pdu.as_slice());
            assert(pdu@.subrange(0, len as int) =~= pdu@);
            let out = encode(&h, pdu.as_slice(), 0, len, crc);
            return Ok(EncapStatus::Completed(out));
        }
        let first = room(FragmentKind::First, &metadata.label, capacity);
        let chunk: usize = match first {
            Some(n) => n,
            None => 0,
        };
        if chunk < 1 {
            return Err(EncapError::OutputTooSmall);
        }
        let h = Header {
            kind: FragmentKind::First,
            frag_id,
            label: metadata.label,
            total_len: len as u16,
            protocol: metadata.protocol,
        };
        let crc = crc_update(CRC_INIT, pdu.as_slice(), 0, chunk);
        let out = encode(&h, pdu.as_slice(), 0, chunk, 0);
        self.context = Some(EncapContext { pdu, offset: chunk, crc, frag_id, metadata });
        Ok(EncapStatus::Fragmented(out))
    }

    /// Makes the next fragment of the frame in flight, no longer than
    /// `capacity`. Refused with `Idle` when no frame is in flight; refused
    /// with `OutputTooSmall`, the frame staying in flight, when the datagram
    /// has no room for a byte of it.
    pub fn continue_encap(&mut self, capacity: usize) -> (r: Result<EncapStatus, EncapError>)
        requires
            old(self).wf(),
        ensures
            final(self).wf(),
            final(self)@.counter == old(self)@.counter,
            old(self)@.flow is None ==> r == Err::<EncapStatus, EncapError>(EncapError::Idle)
                && final(self)@ == old(self)@,
            old(self)@.flow matches Some(before) ==> match continue_step(before, capacity as nat) {
                StepModel::Done(f) => r matches Ok(EncapStatus::Completed(v)) && v@ == f
                    && final(self)@.flow is None,
                StepModel::More(f, flow) => r matches Ok(EncapStatus::Fragmented(v)) && v@ == f
                    && final(self)@.flow == Some(flow),
                StepModel::Refused(e) => r == Err::<EncapStatus, EncapError>(e) && final(self)@
                    == old(self)@,
            },
            r matches Ok(EncapStatus::Completed(v)) ==> v@.len() <= capacity,
            r matches Ok(EncapStatus::Fragmented(v)) ==> v@.len() <= capacity,
    {
        let taken = self.context.take();
        let c = match taken {
            Some(c) => c,
            None => {
                return Err(EncapError::Idle);
            },
        };
        let space = room(FragmentKind::Continuation, &c.metadata.label, capacity);
        let chunk: usize = match space {
            Some(n) => n,
            None => 0,
        };
        if chunk < 1 {
            self.context = Some(c);
            return Err(EncapError::OutputTooSmall);
        }
        let len: usize = c.pdu.len();
        let ghost sent = c.pdu@.subrange(0, c.offset as int);
        if len - c.offset <= chunk {
            let h = Header {
                kind: FragmentKind::Last,
                frag_id: c.frag_id,
                label: c.metadata.label,
                total_len: 0,
                protocol: 0,
            };
            let crc = crc_update(c.crc, c.pdu.as_slice(), c.offset, len);
            proof {
                lemma_crc_run_concat(CRC_INIT, sent, c.pdu@.subrange(c.offset as int, len as int));
                assert(sent + c.pdu@.subrange(c.offset as int, len as int) =~= c.pdu@);
            }
            let out = encode(&h, c.pdu.as_slice(), c.offset, len, crc);
            Ok(EncapStatus::Completed(out))
        } else {
            let h = Header {
                kind: FragmentKind::Continuation,
                frag_id: c.frag_id,
                label: c.metadata.label,
                total_len: 0,
                protocol: 0,
            };
            let end: usize = c.offset + chunk;
            let crc = crc_update(c.crc, c.pdu.as_slice(), c.offset, end);
            proof {
                lemma_crc_run_concat(CRC_INIT, sent, c.pdu@.subrange(c.offset as int, end as int));
                assert(sent + c.pdu@.subrange(c.offset as int, end as int) =~= c.pdu@.subrange(
                    0,
                    end as int,
                ));
            }
            let out = encode(&h, c.pdu.as_slice(), c.offset, end, 0);
            self.context = Some(
                EncapContext {
                    pdu: c.pdu,
                    offset: end,
                    crc,
                    frag_id: c.frag_id,
                    metadata: c.metadata,
                },
            );
            Ok(EncapStatus::Fragmented(out))
        }
    }

    /// Makes all the fragments of one frame, each no longer than `capacity`,
    /// in the order in which they leave. Refused with `Busy` while another
    /// frame is in flight; else the engine is idle afterwards, whether the
    /// frame left or was refused.
    pub fn encapsulate(
        &mut self,
        pdu: Vec<u8>,
        frag_id: u8,
        metadata: Metadata,
        capacity: usize,
    ) -> (r: Result<Vec<Vec<u8>>, EncapError>)
        requires
            old(self).wf(),
        ensures
            final(self).wf(),
            final(self)@.counter == old(self)@.counter,
            old(self)@.flow is Some ==> r == Err::<Vec<Vec<u8>>, EncapError>(EncapError::Busy)
                && final(self)@ == old(self)@,
            old(self)@.flow is None ==> final(self)@.flow is None && match r {
                Ok(frags) => {
                    &&& can_encapsulate(pdu@.len(), metadata.label.width(), capacity as nat)
                    &&& frags@.len() == fragment_count(
                        pdu@.len(),
                        metadata.label.width(),
                        capacity as nat,
                    )
                    &&& forall|i: int|
                        0 <= i < frags@.len() ==> (#[trigger] frags@[i])@ == fragment_at(
                            pdu@,
                            frag_id,
                            metadata,
                            capacity as nat,
                            i as nat,
                        ) && frags@[i]@.len() <= capacity
                },
                Err(e) => {
                    &&& !can_encapsulate(pdu@.len(), metadata.label.width(), capacity as nat)
                    &&& e == (if pdu@.len() > MAX_PDU_LEN {
                        EncapError::PduTooLarge
                    } else {
                        EncapError::OutputTooSmall
                    })
                },
            },
    {
        let ghost data = pdu@;
        let ghost width = metadata.label.width();
        let ghost cap = capacity as nat;
        let ghost first = payload_room(FragmentKind::First, width, cap);
        let ghost next = payload_room(FragmentKind::Continuation, width, cap);
        let ghost count = fragment_count(data.len(), width, cap);
        let mut frags: Vec<Vec<u8>> = Vec::new();
        match self.begin_encap(pdu, frag_id, metadata, capacity) {
            Err(e) => {
                return Err(e);
            },
            Ok(EncapStatus::Completed(f)) => {
                proof {
                    reveal(chunk_start);
                }
                assert(data.subrange(0, data.len() as int) =~= data);
                frags.push(f);
                return Ok(frags);
            },
            Ok(EncapStatus::Fragmented(f)) => {
                proof {
                    reveal(chunk_start);
                    lemma_ceil_div(data.len() - first, next);
                    assert(0 * next == 0) by (nonlinear_arith);
                }
                frags.push(f);
            },
        }
        let mut done: bool = false;
        while !done
            invariant
                self.wf(),
                self@.counter == old(self)@.counter,
                data.len() > payload_room(FragmentKind::Single, width, cap),
                data.len() <= MAX_PDU_LEN,
                first >= 1,
                width == metadata.label.width(),
                cap == capacity as nat,
                first == payload_room(FragmentKind::First, width, cap),
                next == payload_room(FragmentKind::Continuation, width, cap),
                count == fragment_count(data.len(), width, cap),
                1 <= frags@.len() <= count,
                forall|i: int|
                    0 <= i < frags@.len() ==> (#[trigger] frags@[i])@ == fragment_at(
                        data,
                        frag_id,
                        metadata,
                        cap,
                        i as nat,
                    ) && frags@[i]@.len() <= capacity,
                !done ==> frags@.len() < count && self@.flow == Some(
                    FlowModel {
                        pdu: data,
                        offset: chunk_start(frags@.len(), width, cap) as nat,
                        frag_id,
                        metadata,
                    },
                ),
                done ==> frags@.len() == count && self@.flow is None,
            decreases
                    (if done {
                        0
                    } else {
                        1 + data.len() - chunk_start(frags@.len(), width, cap)
                    }),
        {
            let ghost i = frags@.len() as int;
            let ghost offset = chunk_start(frags@.len(), width, cap);
            proof {
                reveal(chunk_start);
                self.lemma_wf();
                lemma_ceil_div(data.len() - first, next);
                assert((i - 1) * next + next == i * next) by (nonlinear_arith);
                assert(chunk_start((i + 1) as nat, width, cap) == offset + next);
                if data.len() - offset <= next {
                    lemma_ceil_div_unique(data.len() - first, next, i);
                } else {
                    let k = ceil_div(data.len() - first, next);
                    assert(i < k) by (nonlinear_arith)
                        requires
                            i * next < k * next,
                            next > 0,
                    ;
                }
            }
            match self.continue_encap(capacity) {
                Ok(EncapStatus::Completed(f)) => {
                    frags.push(f);
                    done = true;
                },
                Ok(EncapStatus::Fragmented(f)) => {
                    frags.push(f);
                },
                // Not reached: a capacity that took the first fragment has
                // room for every later one.
                Err(e) => {
                    return Err(e);
                },
            }
        }
        Ok(frags)
    }
}

} // verus!
