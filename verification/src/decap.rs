//! Reassembly: fragments in, whole frames out.
//!
//! Every fragment id is a reassembly target of its own. A target waits for a
//! first fragment, then collects the fragments behind it in a block lent by
//! the pool, and ends completed or failed. A frame is handed out only when
//! its length and its check sequence are right; whatever else arrives is
//! refused and leaves every other target as it was.

use crate::crc::{crc32, crc_run, crc_update, lemma_crc_run_concat, CRC_INIT};
use crate::frame::{decode, decode_spec, Fragment, FragmentKind, Parsed};
use crate::label::{Label, Metadata};
use crate::pool::{Buffer, BufferPool, PoolError, PoolModel};
use vstd::prelude::*;

verus! {

/// The number of reassembly targets: one for each fragment id.
pub const TARGETS: usize = 256;

/// Why a datagram was dropped.
#[derive(Clone, Copy, Debug, PartialEq, Eq, Structural)]
pub enum DecapError {
    /// The datagram holds no fragment.
    Malformed,
    /// A frame begins and the pool has no free block.
    PoolExhausted,
    /// A frame begins and the next free block is shorter than the frame.
    BufferTooSmall,
    /// The fragments of a frame do not add up to the length that its first
    /// fragment announced.
    LengthMismatch,
    /// A fragment behind the first arrived for a frame that is not in
    /// reassembly.
    UnknownContext,
    /// A fragment behind the first arrived for the frame that its target
    /// completed or gave up last.
    StaleContext,
    /// The check sequence of the reassembled frame is not the one that its
    /// last fragment carries.
    CrcMismatch,
}

/// What a datagram led to.
#[derive(Debug)]
pub enum DecapStatus {
    /// A whole frame, in a block that goes back to the pool by `release`, and
    /// what its first fragment said of it.
    Completed(Buffer, Metadata),
    /// The fragment was taken; the frame of this fragment id is not whole yet.
    Fragmented(u8),
}

/// A frame in reassembly, for contracts.
pub struct ContextModel {
    /// The label that every fragment of the frame must repeat.
    pub label: Label,
    /// The protocol of the frame.
    pub protocol: u16,
    /// The length of the whole frame.
    pub total_len: nat,
    /// The bytes collected so far.
    pub data: Seq<u8>,
    /// The size of the block that holds them.
    pub size: nat,
}

/// A reassembly target, for contracts.
pub enum TargetModel {
    /// No frame was begun yet.
    AwaitingFirst,
    /// A frame is being collected.
    Reassembling(ContextModel),
    /// The last frame, with this label, was handed out.
    Completed(Label),
    /// The last frame, with this label, was given up.
    Failed(Label),
}

/// What a datagram led to, for contracts.
pub enum Outcome {
    /// A whole frame in a block of `size` bytes.
    Completed { pdu: Seq<u8>, metadata: Metadata, size: nat },
    /// The fragment was taken.
    Fragmented(u8),
    /// The datagram was dropped.
    Failed(DecapError),
}

/// A decapsulator, for contracts.
pub struct DecapModel {
    /// The pool that lends the blocks.
    pub pool: PoolModel,
    /// The targets, by fragment id.
    pub targets: Seq<TargetModel>,
}

/// The number of targets that hold a block.
pub open spec fn open_count(targets: Seq<TargetModel>) -> nat
    decreases targets.len(),
{
    if targets.len() == 0 {
        0
    } else {
        open_count(targets.drop_last()) + (if targets.last() is Reassembling {
            1nat
        } else {
            0nat
        })
    }
}

/// A frame in reassembly holds no more than was announced, in a block that
/// can hold all of it.
pub open spec fn target_ok(t: TargetModel) -> bool {
    t matches TargetModel::Reassembling(c) ==> c.data.len() <= c.total_len <= c.size
}

/// Changing one target changes the count by what that target held.
pub proof fn lemma_open_count_update(s: Seq<TargetModel>, i: int, t: TargetModel)
    requires
        0 <= i < s.len(),
    ensures
        open_count(s.update(i, t)) + (if s[i] is Reassembling {
            1nat
        } else {
            0nat
        }) == open_count(s) + (if t is Reassembling {
            1nat
        } else {
            0nat
        }),
    decreases s.len(),
{
    if i == s.len() - 1 {
        assert(s.update(i, t).drop_last() =~= s.drop_last());
    } else {
        assert(s.update(i, t).drop_last() =~= s.drop_last().update(i, t));
        lemma_open_count_update(s.drop_last(), i, t);
    }
}

impl DecapModel {
    /// The pool is sound, there is a target for every fragment id, every
    /// frame in reassembly is sound, and each holds a lent block.
    pub open spec fn wf(self) -> bool {
        &&& self.pool.wf()
        &&& self.targets.len() == TARGETS
        &&& open_count(self.targets) <= self.pool.lent
        &&& forall|i: int| 0 <= i < self.targets.len() ==> target_ok(#[trigger] self.targets[i])
    }

    /// A fragment that holds a whole frame: checked, then handed out in the
    /// next free block. No target changes.
    pub open spec fn single(self, p: Parsed) -> (DecapModel, Outcome) {
        if crc32(p.payload) != p.crc {
            (self, Outcome::Failed(DecapError::CrcMismatch))
        } else if self.pool.free.len() == 0 {
            (self, Outcome::Failed(DecapError::PoolExhausted))
        } else if p.payload.len() > self.pool.free.last() {
            (self, Outcome::Failed(DecapError::BufferTooSmall))
        } else {
            (
                DecapModel { pool: self.pool.acquired(), ..self },
                Outcome::Completed {
                    pdu: p.payload,
                    metadata: Metadata { protocol: p.header.protocol, label: p.header.label },
                    size: self.pool.free.last(),
                },
            )
        }
    }

    /// A first fragment: its target begins a frame in the next free block.
    /// A frame that the target was collecting is given up for the new one,
    /// and its block goes back to the pool.
    pub open spec fn first(self, p: Parsed) -> (DecapModel, Outcome) {
        let id = p.header.frag_id as int;
        if self.pool.free.len() == 0 {
            (self, Outcome::Failed(DecapError::PoolExhausted))
        } else if p.payload.len() > p.header.total_len {
            (self, Outcome::Failed(DecapError::LengthMismatch))
        } else if p.header.total_len > self.pool.free.last() {
            (self, Outcome::Failed(DecapError::BufferTooSmall))
        } else {
            let context = ContextModel {
                label: p.header.label,
                protocol: p.header.protocol,
                total_len: p.header.total_len as nat,
                data: p.payload,
                size: self.pool.free.last(),
            };
            let pool = match self.targets[id] {
                TargetModel::Reassembling(c) => self.pool.acquired().released(c.size),
                _ => self.pool.acquired(),
            };
            (
                DecapModel { pool, targets: self.targets.update(id, TargetModel::Reassembling(context)) },
                Outcome::Fragmented(p.header.frag_id),
            )
        }
    }

    /// The target gives up its frame: the block goes back to the pool.
    pub open spec fn give_up(self, id: int, c: ContextModel, e: DecapError) -> (
        DecapModel,
        Outcome,
    ) {
        (
            DecapModel {
                pool: self.pool.released(c.size),
                targets: self.targets.update(id, TargetModel::Failed(c.label)),
            },
            Outcome::Failed(e),
        )
    }

    /// A fragment behind the first. It is taken only by a target that is
    /// collecting a frame with the same label. A continuation adds its bytes;
    /// a last fragment adds its bytes and closes the frame, which is handed
    /// out if its length and check sequence are right.
    pub open spec fn next(self, p: Parsed) -> (DecapModel, Outcome) {
        let id = p.header.frag_id as int;
        match self.targets[id] {
            TargetModel::AwaitingFirst => (self, Outcome::Failed(DecapError::UnknownContext)),
            TargetModel::Completed(l) | TargetModel::Failed(l) => if l == p.header.label {
                (self, Outcome::Failed(DecapError::StaleContext))
            } else {
                (self, Outcome::Failed(DecapError::UnknownContext))
            },
            TargetModel::Reassembling(c) => {
                let data = c.data + p.payload;
                if c.label != p.header.label {
                    (self, Outcome::Failed(DecapError::UnknownContext))
                } else if p.header.kind is Continuation {
                    if data.len() > c.total_len {
                        self.give_up(id, c, DecapError::LengthMismatch)
                    } else {
                        (
                            DecapModel {
                                targets: self.targets.update(
                                    id,
                                    TargetModel::Reassembling(ContextModel { data, ..c }),
                                ),
                                ..self
                            },
                            Outcome::Fragmented(p.header.frag_id),
                        )
                    }
                } else if data.len() != c.total_len {
                    self.give_up(id, c, DecapError::LengthMismatch)
                } else if crc32(data) != p.crc {
                    self.give_up(id, c, DecapError::CrcMismatch)
                } else {
                    (
                        DecapModel {
                            targets: self.targets.update(id, TargetModel::Completed(c.label)),
                            ..self
                        },
                        Outcome::Completed {
                            pdu: data,
                            metadata: Metadata { protocol: c.protocol, label: c.label },
                            size: c.size,
                        },
                    )
                }
            },
        }
    }

    /// What one datagram does.
    pub open spec fn step(self, bytes: Seq<u8>) -> (DecapModel, Outcome) {
        match decode_spec(bytes) {
            None => (self, Outcome::Failed(DecapError::Malformed)),
            Some(p) => match p.header.kind {
                FragmentKind::Single => self.single(p),
                FragmentKind::First => self.first(p),
                _ => self.next(p),
            },
        }
    }
}

/// What a result says, for contracts.
pub open spec fn outcome_of(r: Result<DecapStatus, DecapError>) -> Outcome {
    match r {
        Ok(DecapStatus::Completed(b, metadata)) => Outcome::Completed {
            pdu: b@,
            metadata,
            size: b.size(),
        },
        Ok(DecapStatus::Fragmented(id)) => Outcome::Fragmented(id),
        Err(e) => Outcome::Failed(e),
    }
}

/// The progress of one frame through the decapsulator.
#[derive(Debug)]
pub struct DecapContext {
    buffer: Buffer,
    crc: u32,
    label: Label,
    protocol: u16,
    total_len: u16,
}

impl View for DecapContext {
    type V = ContextModel;

    closed spec fn view(&self) -> ContextModel {
        ContextModel {
            label: self.label,
            protocol: self.protocol,
            total_len: self.total_len as nat,
            data: self.buffer@,
            size: self.buffer.size(),
        }
    }
}

impl DecapContext {
    /// The block is sound and the running check sequence stands for what
    /// was collected.
    pub closed spec fn wf(&self) -> bool {
        &&& self.buffer.wf()
        &&& self.buffer@.len() <= self.total_len <= self.buffer.size()
        &&& self.crc == crc_run(CRC_INIT, self.buffer@)
    }
}

#[derive(Debug)]
enum Target {
    AwaitingFirst,
    Reassembling(DecapContext),
    Completed(Label),
    Failed(Label),
}

impl View for Target {
    type V = TargetModel;

    closed spec fn view(&self) -> TargetModel {
        match self {
            Target::AwaitingFirst => TargetModel::AwaitingFirst,
            Target::Reassembling(c) => TargetModel::Reassembling(c@),
            Target::Completed(l) => TargetModel::Completed(*l),
            Target::Failed(l) => TargetModel::Failed(*l),
        }
    }
}

impl Target {
    closed spec fn wf(&self) -> bool {
        self matches Target::Reassembling(c) ==> c.wf()
    }
}

spec fn views(targets: Seq<Target>) -> Seq<TargetModel> {
    Seq::new(targets.len(), |i: int| targets[i]@)
}

proof fn lemma_views_update(targets: Seq<Target>, id: int, target: Target)
    requires
        0 <= id < targets.len(),
    ensures
        views(targets.update(id, target)) == views(targets).update(id, target@),
{
    assert(views(targets.update(id, target)) =~= views(targets).update(id, target@));
}

/// What the decoder found, for contracts.
pub open spec fn parsed_of(bytes: Seq<u8>, f: Fragment) -> Parsed {
    Parsed { header: f.header, payload: bytes.subrange(f.start as int, f.end as int), crc: f.crc }
}

fn exchange(targets: &mut Vec<Target>, id: usize, target: Target) -> (before: Target)
    requires
        id < old(targets)@.len(),
    ensures
        before == old(targets)@[id as int],
        final(targets)@ == old(targets)@.update(id as int, target),
{
    let mut held = target;
    core::mem::swap(&mut targets[id], &mut held);
    held
}

/// The reassembly engine of one tunnel, with the pool it draws from.
#[derive(Debug)]
pub struct Decapsulator {
    pool: BufferPool,
    targets: Vec<Target>,
    open: usize,
}

impl View for Decapsulator {
    type V = DecapModel;

    closed spec fn view(&self) -> DecapModel {
        DecapModel { pool: self.pool@, targets: views(self.targets@) }
    }
}

impl Decapsulator {
    /// The model is sound and the engine's own records agree with it.
    pub closed spec fn wf(&self) -> bool {
        &&& self.pool.wf()
        &&& self.targets@.len() == TARGETS
        &&& self.open == open_count(views(self.targets@))
        &&& self.open <= self.pool@.lent
        &&& forall|i: int| 0 <= i < self.targets@.len() ==> (#[trigger] self.targets@[i]).wf()
    }

    /// What `wf` says of the model.
    pub proof fn lemma_wf(&self)
        requires
            self.wf(),
        ensures
            self@.wf(),
    {
        self.pool.lemma_wf();
        assert forall|i: int| 0 <= i < self@.targets.len() implies target_ok(
            #[trigger] self@.targets[i],
        ) by {
            assert(self.targets@[i].wf());
        }
    }

    /// An engine on a pool, with every target waiting for a first fragment.
    pub fn new(pool: BufferPool) -> (d: Decapsulator)
        requires
            pool.wf(),
            pool@.lent == 0,
        ensures
            d.wf(),
            d@.pool == pool@,
            d@.targets == Seq::new(TARGETS as nat, |i: int| TargetModel::AwaitingFirst),
    {
        let mut targets: Vec<Target> = Vec::with_capacity(TARGETS);
        let mut i: usize = 0;
        while i < TARGETS
            invariant
                i <= TARGETS,
                targets@.len() == i,
                forall|k: int| 0 <= k < i ==> (#[trigger] targets@[k]) is AwaitingFirst,
                open_count(views(targets@)) == 0,
            decreases TARGETS - i,
        {
            let ghost before = views(targets@);
            targets.push(Target::AwaitingFirst);
            i = i + 1;
            assert(views(targets@).drop_last() =~= before);
        }
        let d = Decapsulator { pool, targets, open: 0 };
        assert(d@.targets =~= Seq::new(TARGETS as nat, |i: int| TargetModel::AwaitingFirst));
        d
    }

    /// The number of frames in reassembly.
    pub fn open_frames(&self) -> (n: usize)
        requires
            self.wf(),
        ensures
            n == open_count(self@.targets),
    {
        self.open
    }

    /// The number of free blocks in the pool.
    pub fn free_blocks(&self) -> (n: usize)
        ensures
            n == self@.pool.free.len(),
    {
        self.pool.free_count()
    }

    /// Registers one storage block with the pool. Refused with `PoolFull`
    /// exactly when every slot is taken.
    pub fn provision(&mut self, storage: Vec<u8>) -> (r: Result<(), PoolError>)
        requires
            old(self).wf(),
        ensures
            final(self).wf(),
            final(self)@.targets == old(self)@.targets,
            old(self)@.pool.free.len() + old(self)@.pool.lent < old(self)@.pool.slots ==> r is Ok
                && final(self)@.pool == old(self)@.pool.provisioned(storage@.len()),
            old(self)@.pool.free.len() + old(self)@.pool.lent >= old(self)@.pool.slots ==> r
                == Err::<(), PoolError>(PoolError::PoolFull) && final(self)@ == old(self)@,
    {
        self.pool.provision(storage)
    }

    /// Takes back the block of a frame that was handed out. Refused with
    /// `NotLent`, and nothing changed, when every lent block belongs to a
    /// frame in reassembly: such a block comes back only when its frame ends.
    pub fn release(&mut self, buffer: Buffer) -> (r: Result<(), PoolError>)
        requires
            old(self).wf(),
            buffer.wf(),
        ensures
            final(self).wf(),
            final(self)@.targets == old(self)@.targets,
            old(self)@.pool.lent > open_count(old(self)@.targets) ==> r is Ok
                && final(self)@.pool == old(self)@.pool.released(buffer.size()),
            old(self)@.pool.lent <= open_count(old(self)@.targets) ==> r == Err::<(), PoolError>(
                PoolError::NotLent,
            ) && final(self)@ == old(self)@,
    {
        if self.pool.lent_count() <= self.open {
            return Err(PoolError::NotLent);
        }
        self.pool.release(buffer)
    }

    /// Takes one datagram. The fragment at its front is decoded and handed
    /// to the target of its fragment id; what the engine is afterwards and
    /// what comes out is `step` of what it was and the datagram's bytes.
    pub fn decap(&mut self, bytes: &[u8]) -> (r: Result<DecapStatus, DecapError>)
        requires
            old(self).wf(),
        ensures
            final(self).wf(),
            (final(self)@, outcome_of(r)) == old(self)@.step(bytes@),
            r matches Ok(DecapStatus::Completed(b, _)) ==> b.wf(),
    {
        let f = match decode(bytes) {
            Some(f) => f,
            None => {
                return Err(DecapError::Malformed);
            },
        };
        match f.header.kind {
            FragmentKind::Single => self.take_single(bytes, f),
            FragmentKind::First => self.take_first(bytes, f),
            _ => self.take_next(bytes, f),
        }
    }

    fn take_single(&mut self, bytes: &[u8], f: Fragment) -> (r: Result<DecapStatus, DecapError>)
        requires
            old(self).wf(),
            f.start <= f.end <= bytes@.len(),
        ensures
            final(self).wf(),
            (final(self)@, outcome_of(r)) == old(self)@.single(parsed_of(bytes@, f)),
            r matches Ok(DecapStatus::Completed(b, _)) ==> b.wf(),
    {
        let crc = crc_update(CRC_INIT, bytes, f.start, f.end);
        if crc != f.crc {
            return Err(DecapError::CrcMismatch);
        }
        let size: usize = match self.pool.next_size() {
            Some(n) => n,
            None => {
                return Err(DecapError::PoolExhausted);
            },
        };
        if f.end - f.start > size {
            return Err(DecapError::BufferTooSmall);
        }
        let mut buffer = match self.pool.acquire() {
            Ok(b) => b,
            Err(_) => {
                return Err(DecapError::PoolExhausted);
            },
        };
        buffer.append(bytes, f.start, f.end);
        assert(buffer@ =~= bytes@.subrange(f.start as int, f.end as int));
        Ok(
            DecapStatus::Completed(
                buffer,
                Metadata { protocol: f.header.protocol, label: f.header.label },
            ),
        )
    }

    fn take_first(&mut self, bytes: &[u8], f: Fragment) -> (r: Result<DecapStatus, DecapError>)
        requires
            old(self).wf(),
            f.start <= f.end <= bytes@.len(),
        ensures
            final(self).wf(),
            (final(self)@, outcome_of(r)) == old(self)@.first(parsed_of(bytes@, f)),
            r matches Ok(DecapStatus::Completed(b, _)) ==> b.wf(),
    {
        let size: usize = match self.pool.next_size() {
            Some(n) => n,
            None => {
                return Err(DecapError::PoolExhausted);
            },
        };
        let total: usize = f.header.total_len as usize;
        if f.end - f.start > total {
            return Err(DecapError::LengthMismatch);
        }
        if total > size {
            return Err(DecapError::BufferTooSmall);
        }
        let mut buffer = match self.pool.acquire() {
            Ok(b) => b,
            Err(_) => {
                return Err(DecapError::PoolExhausted);
            },
        };
        buffer.append(bytes, f.start, f.end);
        assert(buffer@ =~= bytes@.subrange(f.start as int, f.end as int));
        let crc = crc_update(CRC_INIT, bytes, f.start, f.end);
        let id: usize = f.header.frag_id as usize;
        let context = DecapContext {
            buffer,
            crc,
            label: f.header.label,
            protocol: f.header.protocol,
            total_len: f.header.total_len,
        };
        let fresh = Target::Reassembling(context);
        proof {
            lemma_views_update(self.targets@, id as int, fresh);
            lemma_open_count_update(views(self.targets@), id as int, fresh@);
        }
        let before = exchange(&mut self.targets, id, fresh);
        match before {
            Target::Reassembling(c) => {
                assert(old(self).targets@[id as int].wf());
                let back = self.pool.release(c.buffer);
                assert(back is Ok);
            },
            _ => {
                proof {
                    self.pool.lemma_wf();
                }
                self.open = self.open + 1;
            },
        }
        Ok(DecapStatus::Fragmented(f.header.frag_id))
    }

    fn take_next(&mut self, bytes: &[u8], f: Fragment) -> (r: Result<DecapStatus, DecapError>)
        requires
            old(self).wf(),
            f.start <= f.end <= bytes@.len(),
            !f.header.kind.starts(),
        ensures
            final(self).wf(),
            (final(self)@, outcome_of(r)) == old(self)@.next(parsed_of(bytes@, f)),
            r matches Ok(DecapStatus::Completed(b, _)) ==> b.wf(),
    {
        let id: usize = f.header.frag_id as usize;
        let label = f.header.label;
        let refusal: Option<DecapError> = match &self.targets[id] {
            Target::AwaitingFirst => Some(DecapError::UnknownContext),
            Target::Completed(l) => if *l == label {
                Some(DecapError::StaleContext)
            } else {
                Some(DecapError::UnknownContext)
            },
            Target::Failed(l) => if *l == label {
                Some(DecapError::StaleContext)
            } else {
                Some(DecapError::UnknownContext)
            },
            Target::Reassembling(c) => if c.label == label {
                None
            } else {
                Some(DecapError::UnknownContext)
            },
        };
        match refusal {
            Some(e) => {
                return Err(e);
            },
            None => {},
        }
        let ghost payload = bytes@.subrange(f.start as int, f.end as int);
        proof {
            assert(old(self).targets@[id as int].wf());
            lemma_views_update(self.targets@, id as int, Target::Failed(label));
            lemma_open_count_update(views(self.targets@), id as int, TargetModel::Failed(label));
        }
        let held = exchange(&mut self.targets, id, Target::Failed(label));
        let mut c = match held {
            Target::Reassembling(c) => c,
            // Not reached: the target was seen collecting this frame above.
            _ => {
                return Err(DecapError::UnknownContext);
            },
        };
        let have: usize = c.buffer.len();
        let total: usize = c.total_len as usize;
        let more: usize = f.end - f.start;
        let closes: bool = f.header.kind.is_end();
        let crc = crc_update(c.crc, bytes, f.start, f.end);
        proof {
            lemma_crc_run_concat(CRC_INIT, c.buffer@, payload);
        }
        let wrong: Option<DecapError> = if more > total - have {
            Some(DecapError::LengthMismatch)
        } else if closes && more != total - have {
            Some(DecapError::LengthMismatch)
        } else if closes && crc != f.crc {
            Some(DecapError::CrcMismatch)
        } else {
            None
        };
        match wrong {
            Some(e) => {
                let back = self.pool.release(c.buffer);
                assert(back is Ok);
                self.open = self.open - 1;
                return Err(e);
            },
            None => {},
        }
        c.buffer.append(bytes, f.start, f.end);
        if closes {
            self.open = self.open - 1;
            proof {
                lemma_views_update(self.targets@, id as int, Target::Completed(label));
                lemma_open_count_update(
                    views(self.targets@),
                    id as int,
                    TargetModel::Completed(label),
                );
            }
            let placeholder = exchange(&mut self.targets, id, Target::Completed(label));
            assert(self@.targets =~= old(self)@.targets.update(
                id as int,
                TargetModel::Completed(label),
            ));
            Ok(DecapStatus::Completed(c.buffer, Metadata { protocol: c.protocol, label }))
        } else {
            let grown = Target::Reassembling(
                DecapContext {
                    buffer: c.buffer,
                    crc,
                    label,
                    protocol: c.protocol,
                    total_len: c.total_len,
                },
            );
            proof {
                lemma_views_update(self.targets@, id as int, grown);
                lemma_open_count_update(views(self.targets@), id as int, grown@);
            }
            let placeholder = exchange(&mut self.targets, id, grown);
            assert(self@.targets =~= old(self)@.targets.update(id as int, grown@));
            Ok(DecapStatus::Fragmented(f.header.frag_id))
        }
    }
}

} // verus!
