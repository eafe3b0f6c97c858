//! What holds of the two engines together.
//!
//! Every statement here is about the models that the contracts of `encap`,
//! `decap` and `tunnel` speak of, so it holds of every run of the code.

use crate::crc::{crc32, lemma_crc_detects_one_byte};
use crate::decap::{
    lemma_open_count_update, open_count, target_ok, ContextModel, DecapError, DecapModel, Outcome,
    TargetModel,
};
use crate::encap::{
    can_encapsulate, ceil_div, chunk_end, chunk_start, crc_at, fragment_at, fragment_count,
    header_at, kind_at, lemma_ceil_div, next_header, payload_at, single_header,
};
use crate::frame::{
    decode_spec, encodable, encode_spec, lemma_decode_encode, payload_room, FragmentKind, Parsed,
    MAX_PDU_LEN,
};
use crate::label::Metadata;
use crate::pool::PoolModel;
use crate::tunnel::pad_spec;
use vstd::prelude::*;

verus! {

/// The datagrams of one frame, in order: its fragments, each filled up to
/// the fixed length.
pub open spec fn padded_fragments(
    pdu: Seq<u8>,
    frag_id: u8,
    metadata: Metadata,
    capacity: nat,
    fixed_len: nat,
) -> Seq<Seq<u8>> {
    Seq::new(
        fragment_count(pdu.len(), metadata.label.width(), capacity),
        |i: int| pad_spec(fragment_at(pdu, frag_id, metadata, capacity, i as nat), fixed_len),
    )
}

/// The engine after a sequence of datagrams, and what each led to.
pub open spec fn run(m: DecapModel, datagrams: Seq<Seq<u8>>) -> (DecapModel, Seq<Outcome>)
    decreases datagrams.len(),
{
    if datagrams.len() == 0 {
        (m, Seq::empty())
    } else {
        let before = run(m, datagrams.drop_last());
        let last = before.0.step(datagrams.last());
        (last.0, before.1.push(last.1))
    }
}

/// Byte strings joined in order.
pub open spec fn join(parts: Seq<Seq<u8>>) -> Seq<u8>
    decreases parts.len(),
{
    if parts.len() == 0 {
        Seq::empty()
    } else {
        join(parts.drop_last()) + parts.last()
    }
}

/// The pieces that the fragments of a frame carry, in order.
pub open spec fn payloads(pdu: Seq<u8>, label_width: nat, capacity: nat) -> Seq<Seq<u8>> {
    Seq::new(
        fragment_count(pdu.len(), label_width, capacity),
        |i: int| payload_at(pdu, label_width, capacity, i as nat),
    )
}

/// A byte string with one bit of one byte inverted.
pub open spec fn flip_bit(data: Seq<u8>, at: int, bit: u8) -> Seq<u8> {
    data.update(at, data[at] ^ (1u8 << bit))
}

/// A frame too long for a single fragment leaves in a first fragment and
/// as many further ones as the rest needs, rounded up: two at least.
pub proof fn lemma_count(len: nat, width: nat, capacity: nat)
    requires
        len > payload_room(FragmentKind::Single, width, capacity),
        payload_room(FragmentKind::First, width, capacity) >= 1,
    ensures
        fragment_count(len, width, capacity) == 1 + ceil_div(
            len - payload_room(FragmentKind::First, width, capacity),
            payload_room(FragmentKind::Continuation, width, capacity),
        ),
        fragment_count(len, width, capacity) >= 2,
{
    lemma_ceil_div(
        len - payload_room(FragmentKind::First, width, capacity),
        payload_room(FragmentKind::Continuation, width, capacity),
    );
}

/// The pieces of a frame that leaves in several fragments lie one behind the
/// other, none is empty, each fits its fragment, and the last ends the frame.
pub proof fn lemma_chunks(len: nat, width: nat, capacity: nat, i: nat)
    requires
        len <= MAX_PDU_LEN,
        len > payload_room(FragmentKind::Single, width, capacity),
        payload_room(FragmentKind::First, width, capacity) >= 1,
        i < fragment_count(len, width, capacity),
    ensures
        fragment_count(len, width, capacity) >= 2,
        0 <= chunk_start(i, width, capacity) < chunk_end(len, i, width, capacity) <= len,
        i == 0 ==> chunk_start(i, width, capacity) == 0,
        i + 1 < fragment_count(len, width, capacity) ==> chunk_end(len, i, width, capacity)
            == chunk_start(i + 1, width, capacity),
        i + 1 == fragment_count(len, width, capacity) ==> chunk_end(len, i, width, capacity)
            == len,
        i == 0 ==> chunk_end(len, i, width, capacity) == payload_room(
            FragmentKind::First,
            width,
            capacity,
        ),
        i > 0 ==> chunk_end(len, i, width, capacity) - chunk_start(i, width, capacity)
            <= payload_room(FragmentKind::Continuation, width, capacity),
{
    reveal(chunk_start);
    let first = payload_room(FragmentKind::First, width, capacity);
    let next = payload_room(FragmentKind::Continuation, width, capacity);
    let a = len - first;
    let k = ceil_div(a, next);
    lemma_ceil_div(a, next);
    assert(0 * next == 0) by (nonlinear_arith);
    assert((i - 1) * next + next == i * next) by (nonlinear_arith);
    assert((k - 1) * next + next == k * next) by (nonlinear_arith);
    if i > 0 {
        assert((i - 1) * next <= (k - 1) * next) by (nonlinear_arith)
            requires
                i - 1 <= k - 1,
                next > 0,
        ;
        if i < k {
            assert(i * next <= (k - 1) * next) by (nonlinear_arith)
                requires
                    i <= k - 1,
                    next > 0,
            ;
        }
    }
}

/// The piece that a single fragment carries is the frame.
pub proof fn lemma_whole(pdu: Seq<u8>, width: nat, capacity: nat)
    requires
        pdu.len() <= payload_room(FragmentKind::Single, width, capacity),
    ensures
        payload_at(pdu, width, capacity, 0) == pdu,
{
    reveal(chunk_start);
    assert(pdu.subrange(0, pdu.len() as int) =~= pdu);
}

/// A fragment of a frame, filled up to any fixed length, decodes to the
/// header, the piece and the check sequence that it was made of.
pub proof fn lemma_fragment_decodes(
    pdu: Seq<u8>,
    frag_id: u8,
    metadata: Metadata,
    capacity: nat,
    fixed_len: nat,
    i: nat,
)
    requires
        can_encapsulate(pdu.len(), metadata.label.width(), capacity),
        i < fragment_count(pdu.len(), metadata.label.width(), capacity),
    ensures
        decode_spec(pad_spec(fragment_at(pdu, frag_id, metadata, capacity, i), fixed_len))
            == Some(
            Parsed {
                header: header_at(pdu.len(), frag_id, metadata, capacity, i),
                payload: payload_at(pdu, metadata.label.width(), capacity, i),
                crc: crc_at(pdu, metadata.label.width(), capacity, i),
            },
        ),
{
    let width = metadata.label.width();
    let h = header_at(pdu.len(), frag_id, metadata, capacity, i);
    let payload = payload_at(pdu, width, capacity, i);
    let crc = crc_at(pdu, width, capacity, i);
    let fragment = fragment_at(pdu, frag_id, metadata, capacity, i);
    if pdu.len() > payload_room(FragmentKind::Single, width, capacity) {
        lemma_chunks(pdu.len(), width, capacity, i);
    } else {
        lemma_whole(pdu, width, capacity);
    }
    assert(h.wf());
    assert(encodable(h, payload.len()));
    if fragment.len() < fixed_len {
        let zeros = Seq::new((fixed_len - fragment.len()) as nat, |k: int| 0u8);
        lemma_decode_encode(h, payload, crc, zeros);
    } else {
        lemma_decode_encode(h, payload, crc, Seq::empty());
        assert(fragment + Seq::<u8>::empty() =~= fragment);
    }
}

/// The pool after the first fragment of a frame was taken by a target.
pub open spec fn pool_after_first(m: DecapModel, frag_id: u8) -> PoolModel {
    match m.targets[frag_id as int] {
        TargetModel::Reassembling(c) => m.pool.acquired().released(c.size),
        _ => m.pool.acquired(),
    }
}

/// The engine after the first `j` fragments of a frame of several.
pub open spec fn reassembling(
    m: DecapModel,
    pdu: Seq<u8>,
    frag_id: u8,
    metadata: Metadata,
    capacity: nat,
    j: nat,
) -> DecapModel {
    DecapModel {
        pool: pool_after_first(m, frag_id),
        targets: m.targets.update(
            frag_id as int,
            TargetModel::Reassembling(
                ContextModel {
                    label: metadata.label,
                    protocol: metadata.protocol,
                    total_len: pdu.len(),
                    data: pdu.subrange(
                        0,
                        chunk_end(pdu.len(), (j - 1) as nat, metadata.label.width(), capacity),
                    ),
                    size: m.pool.free.last(),
                },
            ),
        ),
    }
}

#[verifier::rlimit(40)]
proof fn lemma_first_step(
    m: DecapModel,
    pdu: Seq<u8>,
    frag_id: u8,
    metadata: Metadata,
    capacity: nat,
    fixed_len: nat,
)
    requires
        m.wf(),
        can_encapsulate(pdu.len(), metadata.label.width(), capacity),
        pdu.len() > payload_room(FragmentKind::Single, metadata.label.width(), capacity),
        m.pool.free.len() > 0,
        m.pool.free.last() >= pdu.len(),
    ensures
        m.step(pad_spec(fragment_at(pdu, frag_id, metadata, capacity, 0), fixed_len)) == (
            reassembling(m, pdu, frag_id, metadata, capacity, 1),
            Outcome::Fragmented(frag_id),
        ),
{
    let width = metadata.label.width();
    let count = fragment_count(pdu.len(), width, capacity);
    lemma_count(pdu.len(), width, capacity);
    lemma_chunks(pdu.len(), width, capacity, 0);
    lemma_fragment_decodes(pdu, frag_id, metadata, capacity, fixed_len, 0);
    let p = Parsed {
        header: header_at(pdu.len(), frag_id, metadata, capacity, 0),
        payload: payload_at(pdu, width, capacity, 0),
        crc: crc_at(pdu, width, capacity, 0),
    };
    assert(kind_at(count, 0) == FragmentKind::First);
    assert(p.header.total_len as nat == pdu.len());
    assert(p.header.frag_id == frag_id);
    let datagram = pad_spec(fragment_at(pdu, frag_id, metadata, capacity, 0), fixed_len);
    assert(decode_spec(datagram) == Some(p));
    assert(m.step(datagram) == m.first(p));
    let after = m.first(p).0;
    let goal = reassembling(m, pdu, frag_id, metadata, capacity, 1);
    assert(after.pool == goal.pool);
    assert(after.targets == goal.targets);
}

#[verifier::rlimit(40)]
proof fn lemma_continuation_step(
    m: DecapModel,
    pdu: Seq<u8>,
    frag_id: u8,
    metadata: Metadata,
    capacity: nat,
    fixed_len: nat,
    j: nat,
)
    requires
        m.wf(),
        can_encapsulate(pdu.len(), metadata.label.width(), capacity),
        pdu.len() > payload_room(FragmentKind::Single, metadata.label.width(), capacity),
        1 <= j,
        j + 1 < fragment_count(pdu.len(), metadata.label.width(), capacity),
    ensures
        reassembling(m, pdu, frag_id, metadata, capacity, j).step(
            pad_spec(fragment_at(pdu, frag_id, metadata, capacity, j), fixed_len),
        ) == (
            reassembling(m, pdu, frag_id, metadata, capacity, j + 1),
            Outcome::Fragmented(frag_id),
        ),
{
    let width = metadata.label.width();
    let count = fragment_count(pdu.len(), width, capacity);
    let id = frag_id as int;
    lemma_chunks(pdu.len(), width, capacity, j);
    lemma_chunks(pdu.len(), width, capacity, (j - 1) as nat);
    lemma_fragment_decodes(pdu, frag_id, metadata, capacity, fixed_len, j);
    let p = Parsed {
        header: header_at(pdu.len(), frag_id, metadata, capacity, j),
        payload: payload_at(pdu, width, capacity, j),
        crc: crc_at(pdu, width, capacity, j),
    };
    assert(kind_at(count, j) == FragmentKind::Continuation);
    assert(p.header.frag_id == frag_id);
    assert(p.header.label == metadata.label);
    let before = reassembling(m, pdu, frag_id, metadata, capacity, j);
    let goal = reassembling(m, pdu, frag_id, metadata, capacity, j + 1);
    let datagram = pad_spec(fragment_at(pdu, frag_id, metadata, capacity, j), fixed_len);
    assert(decode_spec(datagram) == Some(p));
    assert(before.step(datagram) == before.next(p));
    let c = before.targets[id]->Reassembling_0;
    assert(before.targets[id] == TargetModel::Reassembling(c));
    let data = c.data + p.payload;
    assert(data =~= pdu.subrange(0, chunk_end(pdu.len(), j, width, capacity)));
    assert(data.len() <= c.total_len);
    let after = before.next(p).0;
    assert(after.pool == goal.pool);
    assert(after.targets =~= goal.targets);
}

proof fn lemma_run_prefix(
    m: DecapModel,
    pdu: Seq<u8>,
    frag_id: u8,
    metadata: Metadata,
    capacity: nat,
    fixed_len: nat,
    j: nat,
)
    requires
        m.wf(),
        can_encapsulate(pdu.len(), metadata.label.width(), capacity),
        pdu.len() > payload_room(FragmentKind::Single, metadata.label.width(), capacity),
        m.pool.free.len() > 0,
        m.pool.free.last() >= pdu.len(),
        1 <= j < fragment_count(pdu.len(), metadata.label.width(), capacity),
    ensures
        run(m, padded_fragments(pdu, frag_id, metadata, capacity, fixed_len).take(j as int)).0
            == reassembling(m, pdu, frag_id, metadata, capacity, j),
        run(m, padded_fragments(pdu, frag_id, metadata, capacity, fixed_len).take(j as int)).1
            == Seq::new(j, |i: int| Outcome::Fragmented(frag_id)),
    decreases j,
{
    let all = padded_fragments(pdu, frag_id, metadata, capacity, fixed_len);
    let taken = all.take(j as int);
    let i = (j - 1) as nat;
    assert(taken.drop_last() =~= all.take(i as int));
    assert(taken.last() == pad_spec(fragment_at(pdu, frag_id, metadata, capacity, i), fixed_len));
    if j == 1 {
        assert(all.take(0) =~= Seq::<Seq<u8>>::empty());
        assert(run(m, all.take(0)) == (m, Seq::<Outcome>::empty()));
        lemma_first_step(m, pdu, frag_id, metadata, capacity, fixed_len);
    } else {
        lemma_run_prefix(m, pdu, frag_id, metadata, capacity, fixed_len, i);
        lemma_continuation_step(m, pdu, frag_id, metadata, capacity, fixed_len, i);
    }
    assert(run(m, taken).1 =~= Seq::new(j, |i: int| Outcome::Fragmented(frag_id)));
}

#[verifier::rlimit(40)]
proof fn lemma_last_step(
    m: DecapModel,
    pdu: Seq<u8>,
    frag_id: u8,
    metadata: Metadata,
    capacity: nat,
    fixed_len: nat,
)
    requires
        m.wf(),
        can_encapsulate(pdu.len(), metadata.label.width(), capacity),
        pdu.len() > payload_room(FragmentKind::Single, metadata.label.width(), capacity),
    ensures
        ({
            let last = (fragment_count(pdu.len(), metadata.label.width(), capacity) - 1) as nat;
            reassembling(m, pdu, frag_id, metadata, capacity, last).step(
                pad_spec(fragment_at(pdu, frag_id, metadata, capacity, last), fixed_len),
            ).1 == (Outcome::Completed { pdu, metadata, size: m.pool.free.last() })
        }),
{
    let width = metadata.label.width();
    let count = fragment_count(pdu.len(), width, capacity);
    let id = frag_id as int;
    lemma_count(pdu.len(), width, capacity);
    lemma_chunks(pdu.len(), width, capacity, 0);
    let i = (count - 1) as nat;
    lemma_chunks(pdu.len(), width, capacity, i);
    lemma_chunks(pdu.len(), width, capacity, (i - 1) as nat);
    lemma_fragment_decodes(pdu, frag_id, metadata, capacity, fixed_len, i);
    let p = Parsed {
        header: header_at(pdu.len(), frag_id, metadata, capacity, i),
        payload: payload_at(pdu, width, capacity, i),
        crc: crc_at(pdu, width, capacity, i),
    };
    assert(kind_at(count, i) == FragmentKind::Last);
    assert(p.header.frag_id == frag_id);
    assert(p.header.label == metadata.label);
    assert(p.crc == crc32(pdu));
    let before = reassembling(m, pdu, frag_id, metadata, capacity, i);
    let datagram = pad_spec(fragment_at(pdu, frag_id, metadata, capacity, i), fixed_len);
    assert(decode_spec(datagram) == Some(p));
    assert(before.step(datagram) == before.next(p));
    let c = before.targets[id]->Reassembling_0;
    assert(before.targets[id] == TargetModel::Reassembling(c));
    assert(c.data + p.payload =~= pdu);
}

proof fn lemma_single_step(
    m: DecapModel,
    pdu: Seq<u8>,
    frag_id: u8,
    metadata: Metadata,
    capacity: nat,
    fixed_len: nat,
)
    requires
        pdu.len() <= payload_room(FragmentKind::Single, metadata.label.width(), capacity),
        m.pool.free.len() > 0,
        m.pool.free.last() >= pdu.len(),
    ensures
        fragment_count(pdu.len(), metadata.label.width(), capacity) == 1,
        m.step(pad_spec(fragment_at(pdu, frag_id, metadata, capacity, 0), fixed_len)).1
            == (Outcome::Completed { pdu, metadata, size: m.pool.free.last() }),
{
    let width = metadata.label.width();
    lemma_fragment_decodes(pdu, frag_id, metadata, capacity, fixed_len, 0);
    let p = Parsed {
        header: header_at(pdu.len(), frag_id, metadata, capacity, 0),
        payload: payload_at(pdu, width, capacity, 0),
        crc: crc_at(pdu, width, capacity, 0),
    };
    let datagram = pad_spec(fragment_at(pdu, frag_id, metadata, capacity, 0), fixed_len);
    assert(decode_spec(datagram) == Some(p));
    lemma_whole(pdu, width, capacity);
    assert(p.header.kind == FragmentKind::Single);
    assert(m.step(datagram) == m.single(p));
}

/// Round trip. What the encapsulator makes of a frame, the decapsulator
/// turns back into the same frame with the same attributes: every datagram
/// but the last is taken as a fragment, and the last hands the frame out.
/// This holds for every capacity that lets the frame leave, for every fixed
/// length that the datagrams are filled up to, and whatever the target of
/// the fragment id was doing before, given a free block that holds the frame.
pub proof fn lemma_round_trip(
    m: DecapModel,
    pdu: Seq<u8>,
    frag_id: u8,
    metadata: Metadata,
    capacity: nat,
    fixed_len: nat,
)
    requires
        m.wf(),
        can_encapsulate(pdu.len(), metadata.label.width(), capacity),
        m.pool.free.len() > 0,
        m.pool.free.last() >= pdu.len(),
    ensures
        ({
            let count = fragment_count(pdu.len(), metadata.label.width(), capacity);
            let outcomes = run(
                m,
                padded_fragments(pdu, frag_id, metadata, capacity, fixed_len),
            ).1;
            &&& outcomes.len() == count
            &&& forall|i: int| 0 <= i < count - 1 ==> outcomes[i] == Outcome::Fragmented(frag_id)
            &&& outcomes[count - 1] == Outcome::Completed {
                pdu,
                metadata,
                size: m.pool.free.last(),
            }
        }),
{
    let width = metadata.label.width();
    let count = fragment_count(pdu.len(), width, capacity);
    let all = padded_fragments(pdu, frag_id, metadata, capacity, fixed_len);
    let i = (count - 1) as nat;
    if pdu.len() <= payload_room(FragmentKind::Single, width, capacity) {
        lemma_single_step(m, pdu, frag_id, metadata, capacity, fixed_len);
        assert(all.drop_last() =~= Seq::<Seq<u8>>::empty());
        assert(run(m, all.drop_last()) == (m, Seq::<Outcome>::empty()));
        assert(all.last() == pad_spec(fragment_at(pdu, frag_id, metadata, capacity, 0), fixed_len));
    } else {
        lemma_count(pdu.len(), width, capacity);
        lemma_run_prefix(m, pdu, frag_id, metadata, capacity, fixed_len, i);
        lemma_last_step(m, pdu, frag_id, metadata, capacity, fixed_len);
        assert(all.drop_last() =~= all.take(i as int));
        assert(all.last() == pad_spec(fragment_at(pdu, frag_id, metadata, capacity, i), fixed_len));
    }
}

/// Single-fragment threshold. A frame no longer than the room of a single
/// fragment leaves in exactly one datagram, and that datagram alone hands
/// the frame out.
pub proof fn lemma_single_fragment(
    m: DecapModel,
    pdu: Seq<u8>,
    frag_id: u8,
    metadata: Metadata,
    capacity: nat,
    fixed_len: nat,
)
    requires
        pdu.len() <= payload_room(FragmentKind::Single, metadata.label.width(), capacity),
        m.pool.free.len() > 0,
        m.pool.free.last() >= pdu.len(),
    ensures
        fragment_count(pdu.len(), metadata.label.width(), capacity) == 1,
        m.step(pad_spec(fragment_at(pdu, frag_id, metadata, capacity, 0), fixed_len)).1
            == (Outcome::Completed { pdu, metadata, size: m.pool.free.last() }),
{
    lemma_single_step(m, pdu, frag_id, metadata, capacity, fixed_len);
}

proof fn lemma_join_prefix(pdu: Seq<u8>, width: nat, capacity: nat, j: nat)
    requires
        can_encapsulate(pdu.len(), width, capacity),
        pdu.len() > payload_room(FragmentKind::Single, width, capacity),
        1 <= j <= fragment_count(pdu.len(), width, capacity),
    ensures
        join(payloads(pdu, width, capacity).take(j as int)) == pdu.subrange(
            0,
            chunk_end(pdu.len(), (j - 1) as nat, width, capacity),
        ),
    decreases j,
{
    let all = payloads(pdu, width, capacity);
    let taken = all.take(j as int);
    let i = (j - 1) as nat;
    lemma_chunks(pdu.len(), width, capacity, i);
    assert(taken.drop_last() =~= all.take(i as int));
    assert(taken.last() == payload_at(pdu, width, capacity, i));
    if j == 1 {
        assert(all.take(0) =~= Seq::<Seq<u8>>::empty());
        assert(join(all.take(0)) =~= Seq::<u8>::empty());
        assert(join(taken) =~= pdu.subrange(0, chunk_end(pdu.len(), i, width, capacity)));
    } else {
        lemma_join_prefix(pdu, width, capacity, i);
        lemma_chunks(pdu.len(), width, capacity, (i - 1) as nat);
        assert(join(taken) =~= pdu.subrange(0, chunk_end(pdu.len(), i, width, capacity)));
    }
}

/// Fragment count. A frame too long for a single fragment leaves in one
/// first fragment and as many further ones as the rest needs, rounded up;
/// and the pieces that the fragments carry, joined in order, are the frame.
pub proof fn lemma_fragment_count(pdu: Seq<u8>, width: nat, capacity: nat)
    requires
        can_encapsulate(pdu.len(), width, capacity),
    ensures
        pdu.len() > payload_room(FragmentKind::Single, width, capacity) ==> fragment_count(
            pdu.len(),
            width,
            capacity,
        ) == 1 + ceil_div(
            pdu.len() - payload_room(FragmentKind::First, width, capacity),
            payload_room(FragmentKind::Continuation, width, capacity),
        ),
        join(payloads(pdu, width, capacity)) == pdu,
{
    let all = payloads(pdu, width, capacity);
    let count = fragment_count(pdu.len(), width, capacity);
    if pdu.len() > payload_room(FragmentKind::Single, width, capacity) {
        lemma_count(pdu.len(), width, capacity);
        lemma_chunks(pdu.len(), width, capacity, (count - 1) as nat);
        lemma_join_prefix(pdu, width, capacity, count);
        assert(all.take(count as int) =~= all);
        assert(pdu.subrange(0, pdu.len() as int) =~= pdu);
    } else {
        lemma_whole(pdu, width, capacity);
        assert(all.drop_last() =~= Seq::<Seq<u8>>::empty());
        assert(join(all.drop_last()) =~= Seq::<u8>::empty());
        assert(all.last() =~= pdu);
        assert(join(all) =~= pdu);
    }
}

proof fn lemma_flipped_byte_differs(b: u8, bit: u8)
    requires
        bit < 8,
    ensures
        b ^ (1u8 << bit) != b,
{
    assert(b ^ (1u8 << bit) != b) by (bit_vector)
        requires
            bit < 8,
    ;
}

/// Corruption of a last fragment. One inverted bit in the payload of the
/// fragment that closes a frame makes the target give the frame up with
/// `CrcMismatch`: the block goes back to the pool and nothing is handed out.
pub proof fn lemma_corrupted_last_fragment(
    m: DecapModel,
    frag_id: u8,
    payload: Seq<u8>,
    at: int,
    bit: u8,
    padding: Seq<u8>,
)
    requires
        m.wf(),
        m.targets[frag_id as int] is Reassembling,
        m.targets[frag_id as int]->Reassembling_0.data.len() + payload.len()
            == m.targets[frag_id as int]->Reassembling_0.total_len,
        encodable(
            next_header(
                FragmentKind::Last,
                frag_id,
                m.targets[frag_id as int]->Reassembling_0.label,
            ),
            payload.len(),
        ),
        0 <= at < payload.len(),
        bit < 8,
    ensures
        ({
            let c = m.targets[frag_id as int]->Reassembling_0;
            let fragment = encode_spec(
                next_header(FragmentKind::Last, frag_id, c.label),
                flip_bit(payload, at, bit),
                crc32(c.data + payload),
            );
            m.step(fragment + padding) == m.give_up(frag_id as int, c, DecapError::CrcMismatch)
        }),
{
    let c = m.targets[frag_id as int]->Reassembling_0;
    let h = next_header(FragmentKind::Last, frag_id, c.label);
    let bad = flip_bit(payload, at, bit);
    let crc = crc32(c.data + payload);
    lemma_decode_encode(h, bad, crc, padding);
    lemma_flipped_byte_differs(payload[at], bit);
    lemma_crc_detects_one_byte(c.data + bad, c.data + payload, c.data.len() + at);
    let p = Parsed { header: h, payload: bad, crc };
    assert(m.step(encode_spec(h, bad, crc) + padding) == m.next(p));
}

/// Corruption of a single fragment. One inverted bit in the payload of a
/// fragment that holds a whole frame makes the datagram be dropped with
/// `CrcMismatch`, and leaves the engine as it was.
pub proof fn lemma_corrupted_single_fragment(
    m: DecapModel,
    frag_id: u8,
    metadata: Metadata,
    payload: Seq<u8>,
    at: int,
    bit: u8,
    padding: Seq<u8>,
)
    requires
        encodable(single_header(frag_id, metadata), payload.len()),
        0 <= at < payload.len(),
        bit < 8,
    ensures
        m.step(
            encode_spec(
                single_header(frag_id, metadata),
                flip_bit(payload, at, bit),
                crc32(payload),
            ) + padding,
        ) == (m, Outcome::Failed(DecapError::CrcMismatch)),
{
    let h = single_header(frag_id, metadata);
    let bad = flip_bit(payload, at, bit);
    lemma_decode_encode(h, bad, crc32(payload), padding);
    lemma_flipped_byte_differs(payload[at], bit);
    lemma_crc_detects_one_byte(bad, payload, at);
}

/// Pool exhaustion. Where as many frames are in reassembly as the pool has
/// slots, a further first fragment is dropped with `PoolExhausted`, and the
/// engine with all its frames in reassembly is left as it was.
pub proof fn lemma_pool_exhaustion(m: DecapModel, bytes: Seq<u8>)
    requires
        m.wf(),
        open_count(m.targets) == m.pool.slots,
        decode_spec(bytes) matches Some(p) && p.header.kind is First,
    ensures
        m.step(bytes) == (m, Outcome::Failed(DecapError::PoolExhausted)),
{
}

/// Reordering. A fragment behind the first, for a target that is not
/// collecting a frame with that label, is dropped and leaves the engine as
/// it was; for a target that never saw a first fragment, it is dropped with
/// `UnknownContext`.
pub proof fn lemma_unknown_context(m: DecapModel, bytes: Seq<u8>)
    requires
        m.wf(),
        decode_spec(bytes) matches Some(p) && !p.header.kind.starts() && !(
        m.targets[p.header.frag_id as int] matches TargetModel::Reassembling(c) && c.label
            == p.header.label),
    ensures
        m.step(bytes).0 == m,
        m.step(bytes).1 == Outcome::Failed(DecapError::UnknownContext) || m.step(bytes).1
            == Outcome::Failed(DecapError::StaleContext),
        m.targets[decode_spec(bytes).unwrap().header.frag_id as int] is AwaitingFirst ==> m.step(
            bytes,
        ).1 == Outcome::Failed(DecapError::UnknownContext),
{
}

/// Soundness of every state. Whatever a datagram holds, a sound engine is
/// sound after it: no block is lost or lent twice, every frame in
/// reassembly holds a lent block, and none holds more than its frame's
/// length.
pub proof fn lemma_step_keeps_wf(m: DecapModel, bytes: Seq<u8>)
    requires
        m.wf(),
    ensures
        m.step(bytes).0.wf(),
        m.step(bytes).0.pool.slots == m.pool.slots,
        m.step(bytes).0.pool.free.len() + m.step(bytes).0.pool.lent == m.pool.free.len()
            + m.pool.lent,
{
    match decode_spec(bytes) {
        None => {},
        Some(p) => {
            let id = p.header.frag_id as int;
            let after = m.step(bytes).0;
            assert(target_ok(m.targets[id]));
            match p.header.kind {
                FragmentKind::Single => {},
                FragmentKind::First => {
                    if after != m {
                        lemma_open_count_update(m.targets, id, after.targets[id]);
                        lemma_open_positive(m.targets, id);
                    }
                },
                _ => {
                    if after != m {
                        lemma_open_count_update(m.targets, id, after.targets[id]);
                        lemma_open_positive(m.targets, id);
                    }
                },
            }
            assert forall|i: int| 0 <= i < after.targets.len() implies target_ok(
                #[trigger] after.targets[i],
            ) by {
                assert(target_ok(m.targets[i]));
            }
        },
    }
}

proof fn lemma_open_positive(targets: Seq<TargetModel>, id: int)
    requires
        0 <= id < targets.len(),
    ensures
        targets[id] is Reassembling ==> open_count(targets) >= 1,
{
    lemma_open_count_update(targets, id, TargetModel::AwaitingFirst);
}

} // verus!
