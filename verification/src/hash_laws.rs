//! What the hash tells apart.

use crate::hash::{fnv_bytes, fnv_words, le32, FNV_PRIME};
use vstd::prelude::*;

verus! {

/// The two lists are equally long and differ in just one place.
pub open spec fn differ_once<T>(a: Seq<T>, b: Seq<T>) -> bool {
    &&& a.len() == b.len()
    &&& exists|i: int| differ_at(a, b, i)
}

/// The two lists differ in the place, and in no other one.
pub open spec fn differ_at<T>(a: Seq<T>, b: Seq<T>, i: int) -> bool {
    &&& 0 <= i < a.len()
    &&& i < b.len()
    &&& a[i] != b[i]
    &&& forall|j: int| 0 <= j < a.len() && j != i ==> #[trigger] a[j] == b[j]
}

/// The difference of the two numbers is `d`, but for multiples of `0x100_0000_0000`.
spec fn near(x: u64, y: u64, d: int) -> bool {
    (x - y - d) % 0x100_0000_0000 == 0
}

/// How far two states can be apart before the multiplication for byte `n`.
spec fn reach(n: int) -> int
    decreases n,
{
    if n <= 1 {
        255
    } else {
        435 * reach(n - 1) + 510
    }
}

/// The state before the multiplication for the last byte.
spec fn mixed(h: u64, bytes: Seq<u8>) -> u64 {
    fnv_bytes(h, bytes.drop_last()) ^ (bytes.last() as u64)
}

proof fn lemma_times_prime(x: u64)
    ensures
        x.wrapping_mul(FNV_PRIME) == (x * 0x100_0000_01b3) % 0x1_0000_0000_0000_0000,
{
}

/// Multiplying by the prime keeps different numbers different.
proof fn lemma_times_prime_injective(x: u64, y: u64)
    requires
        x.wrapping_mul(FNV_PRIME) == y.wrapping_mul(FNV_PRIME),
    ensures
        x == y,
{
    lemma_times_prime(x);
    lemma_times_prime(y);
    let m: int = 0x1_0000_0000_0000_0000;
    let p = (x * 0x100_0000_01b3) / m;
    let q = (y * 0x100_0000_01b3) / m;
    assert((x - y) * 0x100_0000_01b3 == (p - q) * m);
    // the first factor is the inverse of the prime among the 64-bit numbers
    let t: int = (p - q) * 0xce96_5057_aff6_957b - (x - y) * 0xce9650590f;
    assert(x - y == t * m);
}

/// Mixing in a byte changes the last byte of the state only.
proof fn lemma_mix(h: u64, b: u8)
    ensures
        (h ^ (b as u64)) / 0x100 == h / 0x100,
{
    assert((h ^ (b as u64)) / 0x100 == h / 0x100) by (bit_vector);
}

proof fn lemma_mix_injective(h: u64, g: u64, b: u64)
    requires
        h ^ b == g ^ b,
    ensures
        h == g,
{
    assert(h == g) by (bit_vector)
        requires
            h ^ b == g ^ b,
    ;
}

proof fn lemma_mix_different(h: u64, b: u64, c: u64)
    requires
        h ^ b == h ^ c,
    ensures
        b == c,
{
    assert(b == c) by (bit_vector)
        requires
            h ^ b == h ^ c,
    ;
}

/// Two states that are a little apart are so again after the multiplication and the next bytes.
proof fn lemma_stay_apart(x: u64, y: u64, d: int, b: u8, c: u8) -> (r: int)
    requires
        near(x, y, d),
        d != 0,
        -1_000_000_000 <= d <= 1_000_000_000,
    ensures
        near(x.wrapping_mul(FNV_PRIME) ^ (b as u64), y.wrapping_mul(FNV_PRIME) ^ (c as u64), r),
        r != 0,
        435 * d - 510 <= r <= 435 * d + 510,
{
    lemma_times_prime(x);
    lemma_times_prime(y);
    let h = x.wrapping_mul(FNV_PRIME);
    let g = y.wrapping_mul(FNV_PRIME);
    let v = h ^ (b as u64);
    let w = g ^ (c as u64);
    lemma_mix(h, b);
    lemma_mix(g, c);
    let m: int = 0x1_0000_0000_0000_0000;
    let n: int = 0x100_0000_0000;
    let p = (x * 0x100_0000_01b3) / m;
    let q = (y * 0x100_0000_01b3) / m;
    let k = (x - y - d) / n;
    let l = d + k * 0x100_0000_01b3 - (p - q) * 0x100_0000;
    assert(h - g == 435 * d + l * n);
    let r = 435 * d + (v % 0x100 - h % 0x100) - (w % 0x100 - g % 0x100);
    assert(v - w == r + l * n);
    assert((v - w - r) % n == 0);
    if r == 0 {
        assert(v / 0x100 - w / 0x100 == l * 0x1_0000_0000);
        assert(h - g == l * n + (h % 0x100 - g % 0x100));
    }
    r
}

proof fn lemma_reach()
    ensures
        reach(1) == 255,
        reach(2) == 111_435,
        reach(3) == 48_474_735,
        reach(4) == 21_086_510_235,
{
    reveal_with_fuel(reach, 4);
}

/// Different bytes, up to four, take a state apart.
proof fn lemma_bytes_apart(h: u64, a: Seq<u8>, b: Seq<u8>) -> (d: int)
    requires
        a.len() == b.len(),
        1 <= a.len() <= 4,
        a != b,
    ensures
        near(mixed(h, a), mixed(h, b), d),
        d != 0,
        -reach(a.len() as int) <= d <= reach(a.len() as int),
    decreases a.len(),
{
    lemma_reach();
    let s = a.drop_last();
    let t = b.drop_last();
    assert(a =~= s.push(a.last()));
    assert(b =~= t.push(b.last()));
    let n = a.len() as int;
    assert(n == 1 || n == 2 || n == 3 || n == 4);
    if s =~= t {
        let g = fnv_bytes(h, s);
        if mixed(h, a) == mixed(h, b) {
            lemma_mix_different(g, a.last() as u64, b.last() as u64);
        }
        lemma_mix(g, a.last());
        lemma_mix(g, b.last());
        mixed(h, a) - mixed(h, b)
    } else {
        let e = lemma_bytes_apart(h, s, t);
        assert(fnv_bytes(h, s) == mixed(h, s).wrapping_mul(FNV_PRIME));
        assert(fnv_bytes(h, t) == mixed(h, t).wrapping_mul(FNV_PRIME));
        lemma_stay_apart(mixed(h, s), mixed(h, t), e, a.last(), b.last())
    }
}

/// Different numbers make different hashes out of one state.
proof fn lemma_word_apart(h: u64, v: u32, w: u32)
    requires
        v != w,
    ensures
        fnv_bytes(h, le32(v)) != fnv_bytes(h, le32(w)),
{
    let a = le32(v);
    let b = le32(w);
    if a == b {
        assert(a[0] == b[0] && a[1] == b[1] && a[2] == b[2] && a[3] == b[3]);
    }
    let d = lemma_bytes_apart(h, a, b);
    lemma_reach();
    if fnv_bytes(h, a) == fnv_bytes(h, b) {
        lemma_times_prime_injective(mixed(h, a), mixed(h, b));
    }
}

/// The same bytes keep different states different.
pub proof fn lemma_bytes_injective(h: u64, g: u64, bytes: Seq<u8>)
    requires
        h != g,
    ensures
        fnv_bytes(h, bytes) != fnv_bytes(g, bytes),
    decreases bytes.len(),
{
    if bytes.len() > 0 {
        let t = bytes.drop_last();
        let b = bytes.last() as u64;
        lemma_bytes_injective(h, g, t);
        if fnv_bytes(h, bytes) == fnv_bytes(g, bytes) {
            lemma_times_prime_injective(fnv_bytes(h, t) ^ b, fnv_bytes(g, t) ^ b);
            lemma_mix_injective(fnv_bytes(h, t), fnv_bytes(g, t), b);
        }
    }
}

/// Lists of numbers that differ in just one place have different hashes.
pub proof fn lemma_words_differ(h: u64, a: Seq<u32>, b: Seq<u32>)
    requires
        differ_once(a, b),
    ensures
        fnv_words(h, a) != fnv_words(h, b),
    decreases a.len(),
{
    let i = choose|i: int| differ_at(a, b, i);
    let s = a.drop_last();
    let t = b.drop_last();
    if i == a.len() - 1 {
        assert forall|j: int| 0 <= j < s.len() implies #[trigger] s[j] == t[j] by {
            assert(a[j] == b[j]);
        }
        assert(s =~= t);
        lemma_word_apart(fnv_words(h, s), a.last(), b.last());
    } else {
        assert forall|j: int| 0 <= j < s.len() && j != i implies #[trigger] s[j] == t[j] by {
            assert(a[j] == b[j]);
        }
        assert(differ_at(s, t, i));
        lemma_words_differ(h, s, t);
        assert(a[a.len() - 1] == b[b.len() - 1]);
        lemma_bytes_injective(fnv_words(h, s), fnv_words(h, t), le32(a.last()));
    }
}

/// Hashing bytes in two goes is hashing them in one, and a single byte is mixed in and multiplied
/// with the prime.
pub proof fn lemma_bytes_in_turn(h: u64, a: Seq<u8>, b: Seq<u8>, x: u8)
    ensures
        fnv_bytes(h, a + b) == fnv_bytes(fnv_bytes(h, a), b),
        fnv_bytes(h, seq![x]) == (h ^ (x as u64)) * 0x100_0000_01b3 % 0x1_0000_0000_0000_0000,
        fnv_bytes(h, Seq::empty()) == h,
    decreases b.len(),
{
    let one = seq![x];
    assert(one.drop_last() =~= Seq::<u8>::empty());
    assert(fnv_bytes(h, one.drop_last()) == h);
    assert(one.last() == x);
    if b.len() == 0 {
        assert(a + b =~= a);
    } else {
        lemma_bytes_in_turn(h, a, b.drop_last(), x);
        assert((a + b).drop_last() =~= a + b.drop_last());
        assert((a + b).last() == b.last());
    }
}

/// Words are hashed one after the other, each by its four bytes from the least to the most
/// significant.
pub proof fn lemma_words_in_turn(h: u64, words: Seq<u32>, w: u32, bytes: Seq<u8>)
    requires
        bytes.len() == 4,
        bytes[0] + 0x100 * bytes[1] + 0x1_0000 * bytes[2] + 0x100_0000 * bytes[3] == w,
    ensures
        fnv_words(h, words.push(w)) == fnv_bytes(fnv_words(h, words), bytes),
        fnv_words(h, Seq::empty()) == h,
{
    assert(words.push(w).drop_last() =~= words);
    assert(le32(w) =~= bytes);
}

} // verus!
