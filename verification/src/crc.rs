//! The 32-bit frame check sequence that closes every reassembled frame.
//!
//! The generator is the one of IEEE 802.3, fed most significant bit first,
//! started from all ones and not inverted at the end.

use vstd::prelude::*;

verus! {

/// The register's value before any byte was fed.
pub const CRC_INIT: u32 = 0xFFFF_FFFF;

/// The generator polynomial without its leading term.
pub const CRC_POLY: u32 = 0x04C1_1DB7;

/// One step of the division: shift one bit out and reduce if it was set.
pub open spec fn crc_shift(state: u32) -> u32 {
    if state & 0x8000_0000u32 != 0 {
        (state << 1u32) ^ 0x04C1_1DB7u32
    } else {
        state << 1u32
    }
}

/// The register after one byte went in.
pub open spec fn crc_feed(state: u32, byte: u8) -> u32 {
    let s0 = state ^ ((byte as u32) << 24u32);
    crc_shift(crc_shift(crc_shift(crc_shift(crc_shift(crc_shift(crc_shift(crc_shift(s0))))))))
}

/// The register after all of `data` went in, first byte first.
pub open spec fn crc_run(state: u32, data: Seq<u8>) -> u32
    decreases data.len(),
{
    if data.len() == 0 {
        state
    } else {
        crc_feed(crc_run(state, data.drop_last()), data.last())
    }
}

/// The check sequence of `data`.
pub open spec fn crc32(data: Seq<u8>) -> u32 {
    crc_run(CRC_INIT, data)
}

/// Feeding two pieces one after the other is feeding them joined.
pub proof fn lemma_crc_run_concat(state: u32, a: Seq<u8>, b: Seq<u8>)
    ensures
        crc_run(state, a + b) == crc_run(crc_run(state, a), b),
    decreases b.len(),
{
    if b.len() == 0 {
        assert(a + b =~= a);
    } else {
        lemma_crc_run_concat(state, a, b.drop_last());
        assert((a + b).drop_last() =~= a + b.drop_last());
        assert((a + b).last() == b.last());
    }
}

/// Feeding one more byte extends the prefix that the register stands for.
pub proof fn lemma_crc_run_push(state: u32, data: Seq<u8>, byte: u8)
    ensures
        crc_run(state, data.push(byte)) == crc_feed(crc_run(state, data), byte),
{
    assert(data.push(byte).drop_last() =~= data);
}

proof fn lemma_shift_injective(x: u32, y: u32)
    requires
        crc_shift(x) == crc_shift(y),
    ensures
        x == y,
{
    assert((if x & 0x8000_0000u32 != 0 {
        (x << 1u32) ^ 0x04C1_1DB7u32
    } else {
        x << 1u32
    }) == (if y & 0x8000_0000u32 != 0 {
        (y << 1u32) ^ 0x04C1_1DB7u32
    } else {
        y << 1u32
    }) ==> x == y) by (bit_vector);
}

proof fn lemma_shift8_injective(x: u32, y: u32)
    requires
        x != y,
    ensures
        crc_shift(crc_shift(crc_shift(crc_shift(crc_shift(crc_shift(crc_shift(crc_shift(x))))))))
            != crc_shift(
            crc_shift(crc_shift(crc_shift(crc_shift(crc_shift(crc_shift(crc_shift(y))))))),
        ),
{
    let x1 = crc_shift(x);
    let y1 = crc_shift(y);
    let x2 = crc_shift(x1);
    let y2 = crc_shift(y1);
    let x3 = crc_shift(x2);
    let y3 = crc_shift(y2);
    let x4 = crc_shift(x3);
    let y4 = crc_shift(y3);
    let x5 = crc_shift(x4);
    let y5 = crc_shift(y4);
    let x6 = crc_shift(x5);
    let y6 = crc_shift(y5);
    let x7 = crc_shift(x6);
    let y7 = crc_shift(y6);
    if crc_shift(x7) == crc_shift(y7) {
        lemma_shift_injective(x7, y7);
        lemma_shift_injective(x6, y6);
        lemma_shift_injective(x5, y5);
        lemma_shift_injective(x4, y4);
        lemma_shift_injective(x3, y3);
        lemma_shift_injective(x2, y2);
        lemma_shift_injective(x1, y1);
        lemma_shift_injective(x, y);
    }
}

/// Two registers that differ, or two bytes that differ, never meet again
/// after one byte: a byte goes in without losing anything.
pub proof fn lemma_crc_feed_injective(s1: u32, b1: u8, s2: u32, b2: u8)
    requires
        (s1 != s2 && b1 == b2) || (s1 == s2 && b1 != b2),
    ensures
        crc_feed(s1, b1) != crc_feed(s2, b2),
{
    let x = s1 ^ ((b1 as u32) << 24u32);
    let y = s2 ^ ((b2 as u32) << 24u32);
    assert(x != y) by (bit_vector)
        requires
            (s1 != s2 && b1 == b2) || (s1 == s2 && b1 != b2),
            x == s1 ^ ((b1 as u32) << 24u32),
            y == s2 ^ ((b2 as u32) << 24u32),
    ;
    lemma_shift8_injective(x, y);
}

/// Two byte strings of one length that differ in exactly one byte, in one bit
/// of it or in more, have different check sequences.
pub proof fn lemma_crc_detects_one_byte(a: Seq<u8>, b: Seq<u8>, at: int)
    requires
        a.len() == b.len(),
        0 <= at < a.len(),
        a[at] != b[at],
        forall|i: int| 0 <= i < a.len() && i != at ==> a[i] == b[i],
    ensures
        crc32(a) != crc32(b),
{
    lemma_run_differs(CRC_INIT, a, b, at);
}

proof fn lemma_run_differs(state: u32, a: Seq<u8>, b: Seq<u8>, at: int)
    requires
        a.len() == b.len(),
        0 <= at,
        at < a.len() ==> a[at] != b[at],
        forall|i: int| 0 <= i < a.len() && i != at ==> a[i] == b[i],
    ensures
        at < a.len() ==> crc_run(state, a) != crc_run(state, b),
        at >= a.len() ==> crc_run(state, a) == crc_run(state, b),
    decreases a.len(),
{
    if a.len() == 0 {
    } else {
        let a0 = a.drop_last();
        let b0 = b.drop_last();
        lemma_run_differs(state, a0, b0, at);
        let sa = crc_run(state, a0);
        let sb = crc_run(state, b0);
        if at < a.len() - 1 {
            lemma_crc_feed_injective(sa, a.last(), sb, b.last());
        } else if at == a.len() - 1 {
            lemma_crc_feed_injective(sa, a.last(), sb, b.last());
        }
    }
}

/// Feeds one byte into the register.
pub fn crc_feed_byte(state: u32, byte: u8) -> (next: u32)
    ensures
        next == crc_feed(state, byte),
{
    let mut s: u32 = state ^ ((byte as u32) << 24u32);
    let ghost s0 = s;
    let mut k: u8 = 0;
    while k < 8
        invariant
            k <= 8,
            k == 0 ==> s == s0,
            k == 1 ==> s == crc_shift(s0),
            k == 2 ==> s == crc_shift(crc_shift(s0)),
            k == 3 ==> s == crc_shift(crc_shift(crc_shift(s0))),
            k == 4 ==> s == crc_shift(crc_shift(crc_shift(crc_shift(s0)))),
            k == 5 ==> s == crc_shift(crc_shift(crc_shift(crc_shift(crc_shift(s0))))),
            k == 6 ==> s == crc_shift(
                crc_shift(crc_shift(crc_shift(crc_shift(crc_shift(s0))))),
            ),
            k == 7 ==> s == crc_shift(
                crc_shift(crc_shift(crc_shift(crc_shift(crc_shift(crc_shift(s0)))))),
            ),
            k == 8 ==> s == crc_shift(
                crc_shift(crc_shift(crc_shift(crc_shift(crc_shift(crc_shift(crc_shift(s0))))))),
            ),
        decreases 8 - k,
    {
        s = if s & 0x8000_0000u32 != 0 {
            (s << 1u32) ^ 0x04C1_1DB7u32
        } else {
            s << 1u32
        };
        k = k + 1;
    }
    s
}

/// Feeds `data[from..to]` into the register.
pub fn crc_update(state: u32, data: &[u8], from: usize, to: usize) -> (next: u32)
    requires
        from <= to <= data@.len(),
    ensures
        next == crc_run(state, data@.subrange(from as int, to as int)),
{
    let mut s: u32 = state;
    let mut i: usize = from;
    assert(data@.subrange(from as int, from as int) =~= Seq::<u8>::empty());
    while i < to
        invariant
            from <= i <= to <= data@.len(),
            s == crc_run(state, data@.subrange(from as int, i as int)),
        decreases to - i,
    {
        proof {
            lemma_crc_run_push(state, data@.subrange(from as int, i as int), data@[i as int]);
            assert(data@.subrange(from as int, i as int).push(data@[i as int])
                =~= data@.subrange(from as int, i + 1));
        }
        s = crc_feed_byte(s, data[i]);
        i = i + 1;
    }
    s
}

/// The check sequence of a whole byte string.
pub fn crc32_of(data: &[u8]) -> (sum: u32)
    ensures
        sum == crc32(data@),
{
    assert(data@.subrange(0, data@.len() as int) =~= data@);
    crc_update(CRC_INIT, data, 0, data.len())
}

} // verus!
