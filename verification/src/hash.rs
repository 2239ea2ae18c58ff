//! The 64-bit FNV-1a hash.

use vstd::prelude::*;

verus! {

pub const FNV_OFFSET: u64 = 0xcbf2_9ce4_8422_2325;

pub const FNV_PRIME: u64 = 0x0000_0100_0000_01b3;

/// The hash after one more byte.
pub open spec fn fnv_byte(h: u64, b: u8) -> u64 {
    (h ^ (b as u64)).wrapping_mul(FNV_PRIME)
}

/// The hash after more bytes.
pub open spec fn fnv_bytes(h: u64, bytes: Seq<u8>) -> u64
    decreases bytes.len(),
{
    if bytes.len() == 0 {
        h
    } else {
        fnv_byte(fnv_bytes(h, bytes.drop_last()), bytes.last())
    }
}

/// The bytes of a number, the least significant first.
pub open spec fn le16(v: u16) -> Seq<u8> {
    seq![(v % 0x100) as u8, (v / 0x100) as u8]
}

/// The bytes of a number, the least significant first.
pub open spec fn le32(v: u32) -> Seq<u8> {
    seq![
        (v % 0x100) as u8,
        (v / 0x100 % 0x100) as u8,
        (v / 0x1_0000 % 0x100) as u8,
        (v / 0x100_0000) as u8,
    ]
}

/// The bytes of a number, the least significant first.
pub open spec fn le64(v: u64) -> Seq<u8> {
    le32((v % 0x1_0000_0000) as u32) + le32((v / 0x1_0000_0000) as u32)
}

/// The bytes of several numbers in a row.
pub open spec fn words_bytes(words: Seq<u32>) -> Seq<u8>
    decreases words.len(),
{
    if words.len() == 0 {
        Seq::empty()
    } else {
        words_bytes(words.drop_last()) + le32(words.last())
    }
}

/// The hash after more numbers.
pub open spec fn fnv_words(h: u64, words: Seq<u32>) -> u64
    decreases words.len(),
{
    if words.len() == 0 {
        h
    } else {
        fnv_bytes(fnv_words(h, words.drop_last()), le32(words.last()))
    }
}

pub proof fn lemma_fnv_bytes_concat(h: u64, a: Seq<u8>, b: Seq<u8>)
    ensures
        fnv_bytes(h, a + b) == fnv_bytes(fnv_bytes(h, a), b),
    decreases b.len(),
{
    if b.len() == 0 {
        assert(a + b =~= a);
    } else {
        assert((a + b).drop_last() =~= a + b.drop_last());
        lemma_fnv_bytes_concat(h, a, b.drop_last());
    }
}

/// Hashing numbers is hashing their bytes.
pub proof fn lemma_fnv_words_are_bytes(h: u64, words: Seq<u32>)
    ensures
        fnv_words(h, words) == fnv_bytes(h, words_bytes(words)),
    decreases words.len(),
{
    if words.len() > 0 {
        lemma_fnv_words_are_bytes(h, words.drop_last());
        lemma_fnv_bytes_concat(h, words_bytes(words.drop_last()), le32(words.last()));
    }
}

/// The state of a hash computation.
#[derive(Clone, Copy, Debug)]
pub struct Fnva64 {
    pub state: u64,
}

impl Default for Fnva64 {
    fn default() -> (r: Self)
        ensures
            r.state == FNV_OFFSET,
    {
        Fnva64 { state: FNV_OFFSET }
    }
}

impl Fnva64 {
    pub fn write_u8(&mut self, value: u8)
        ensures
            final(self).state == fnv_byte(old(self).state, value),
    {
        let mixed: u64 = self.state ^ (value as u64);
        self.state = mixed.wrapping_mul(FNV_PRIME);
    }

    pub fn write_u32(&mut self, value: u32)
        ensures
            final(self).state == fnv_bytes(old(self).state, le32(value)),
            forall|before: Seq<u32>, h: u64|
                old(self).state == #[trigger] fnv_words(h, before) ==> final(self).state == fnv_words(
                    h,
                    before.push(value),
                ),
    {
        let ghost h = self.state;
        self.write_u8((value % 0x100) as u8);
        self.write_u8((value / 0x100 % 0x100) as u8);
        self.write_u8((value / 0x1_0000 % 0x100) as u8);
        self.write_u8((value / 0x100_0000) as u8);
        proof {
            let b = le32(value);
            assert(b.drop_last().drop_last().drop_last().drop_last() =~= Seq::<u8>::empty());
            assert(b.drop_last().drop_last().drop_last().last() == b[0]);
            assert(b.drop_last().drop_last().last() == b[1]);
            assert(b.drop_last().last() == b[2]);
            reveal_with_fuel(fnv_bytes, 5);
            assert forall|before: Seq<u32>, g: u64| h == #[trigger] fnv_words(g, before) implies self.state
                == fnv_words(g, before.push(value)) by {
                assert(before.push(value).drop_last() =~= before);
            }
        }
    }

    pub fn finish(self) -> (r: u64)
        ensures
            r == self.state,
    {
        self.state
    }
}

/// The hash of some bytes.
pub fn checksum(bytes: &[u8]) -> (r: u64)
    ensures
        r == fnv_bytes(FNV_OFFSET, bytes@),
{
    let mut hasher = Fnva64 { state: FNV_OFFSET };
    let mut i: usize = 0;
    while i < bytes.len()
        invariant
            i <= bytes.len(),
            hasher.state == fnv_bytes(FNV_OFFSET, bytes@.take(i as int)),
        decreases bytes.len() - i,
    {
        proof {
            assert(bytes@.take(i + 1).drop_last() =~= bytes@.take(i as int));
        }
        hasher.write_u8(bytes[i]);
        i = i + 1;
    }
    proof {
        assert(bytes@.take(bytes.len() as int) =~= bytes@);
    }
    hasher.state
}

} // verus!
