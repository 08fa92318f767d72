//! Facts about bits, stated once as arithmetic, and little-endian bytes.

use vstd::prelude::*;

verus! {

/// Is bit `k` of `w` set?
pub open spec fn bit_of(w: u64, k: u64) -> bool {
    (w >> k) & 1u64 != 0
}

/// Setting or clearing one bit of a word changes that bit and no other.
pub proof fn lemma_bit_update(w: u64, k: u64, j: u64)
    by (bit_vector)
    requires
        k < 64,
        j < 64,
    ensures
        bit_of(w | (1u64 << k), j) == (j == k || bit_of(w, j)),
        bit_of(w & !(1u64 << k), j) == (j != k && bit_of(w, j)),
        !bit_of(0, j),
{
}

/// Byte `k` of `w`, byte 0 being the least significant.
pub open spec fn byte_of(w: u64, k: u64) -> u8 {
    ((w >> ((8 * k) as u64)) & 0xff) as u8
}

/// `w` with byte `k` replaced by `b`.
pub open spec fn with_byte(w: u64, k: u64, b: u8) -> u64 {
    (w & !(0xffu64 << ((8 * k) as u64))) | ((b as u64) << ((8 * k) as u64))
}

/// Replacing one byte of a word changes that byte and no other.
pub proof fn lemma_byte_update(w: u64, k: u64, j: u64, b: u8)
    by (bit_vector)
    requires
        k < 8,
        j < 8,
    ensures
        byte_of(with_byte(w, k, b), j) == (if j == k { b } else { byte_of(w, j) }),
        byte_of(0, j) == 0,
{
}

/// Byte `k` of `w`.
pub fn get_byte(w: u64, k: u64) -> (r: u8)
    requires
        k < 8,
    ensures
        r == byte_of(w, k),
{
    ((w >> (8 * k)) & 0xff) as u8
}

/// `w` with byte `k` replaced by `b`.
pub fn set_byte(w: u64, k: u64, b: u8) -> (r: u64)
    requires
        k < 8,
    ensures
        r == with_byte(w, k, b),
{
    (w & !(0xffu64 << (8 * k))) | ((b as u64) << (8 * k))
}

/// The little-endian number in the `n` bytes of `s` from `off` on.
pub open spec fn le(s: Seq<u8>, off: int, n: int) -> int
    decreases n,
{
    if n <= 0 {
        0
    } else {
        s[off] + 256 * le(s, off + 1, n - 1)
    }
}

/// 256 to the power of `n`.
pub open spec fn pow256(n: int) -> int
    decreases n,
{
    if n <= 0 {
        1
    } else {
        256 * pow256(n - 1)
    }
}

pub proof fn lemma_pow256(n: int)
    requires
        n <= 8,
    ensures
        0 < pow256(n) <= 0x1_0000_0000_0000_0000,
{
    reveal_with_fuel(pow256, 10);
}

pub proof fn lemma_le_bound(s: Seq<u8>, off: int, n: int)
    requires
        0 <= n,
    ensures
        0 <= le(s, off, n) < pow256(n),
    decreases n,
{
    if n > 0 {
        lemma_le_bound(s, off + 1, n - 1);
    }
}

/// Read the little-endian number in the `n` bytes of `data` from `off` on.
pub fn read_le(data: &[u8], off: usize, n: usize) -> (v: u64)
    requires
        n <= 8,
        off + n <= data@.len(),
    ensures
        v == le(data@, off as int, n as int),
{
    let len: usize = data.len();
    let mut v: u64 = 0;
    let mut k: usize = n;
    proof {
        assert(pow256(8) == 0x1_0000_0000_0000_0000) by {
            reveal_with_fuel(pow256, 9);
        }
    }
    while k > 0
        invariant
            k <= n <= 8,
            len == data@.len(),
            off + n <= len,
            v == le(data@, off + k, n - k),
            pow256(8) == 0x1_0000_0000_0000_0000,
        decreases k,
    {
        k = k - 1;
        proof {
            lemma_le_bound(data@, off + k, n - k);
            lemma_pow256(n - k);
        }
        let b: u8 = data[off + k];
        v = b as u64 + 256 * v;
    }
    v
}

/// The eight bytes of `w`, least significant first.
pub open spec fn word_bytes(w: u64) -> Seq<u8> {
    Seq::new(8, |k: int| byte_of(w, k as u64))
}

/// The eight bytes of `w`, least significant first.
pub fn to_le_bytes(w: u64) -> (r: Vec<u8>)
    ensures
        r@ == word_bytes(w),
{
    let mut r: Vec<u8> = Vec::new();
    let mut k: u64 = 0;
    while k < 8
        invariant
            k <= 8,
            r@.len() == k,
            forall|j: int| 0 <= j < k ==> #[trigger] r@[j] == byte_of(w, j as u64),
        decreases 8 - k,
    {
        r.push(get_byte(w, k));
        k = k + 1;
    }
    r
}

proof fn lemma_word_sum(w: u64)
    by (bit_vector)
    ensures
        w == byte_of(w, 0) + 256 * byte_of(w, 1) + 65536 * byte_of(w, 2) + 0x100_0000 * byte_of(w, 3)
            + 0x1_0000_0000 * byte_of(w, 4) + 0x100_0000_0000 * byte_of(w, 5) + 0x1_0000_0000_0000
            * byte_of(w, 6) + 0x100_0000_0000_0000 * byte_of(w, 7),
{
}

/// A word is the number that its bytes spell.
pub proof fn lemma_word_bytes(w: u64, s: Seq<u8>, off: int)
    requires
        forall|k: u64| k < 8 ==> s[off + k] == #[trigger] byte_of(w, k),
    ensures
        le(s, off, 8) == w,
{
    reveal_with_fuel(le, 9);
    lemma_word_sum(w);
    assert(s[off + 0] == byte_of(w, 0));
    assert(s[off + 1] == byte_of(w, 1));
    assert(s[off + 2] == byte_of(w, 2));
    assert(s[off + 3] == byte_of(w, 3));
    assert(s[off + 4] == byte_of(w, 4));
    assert(s[off + 5] == byte_of(w, 5));
    assert(s[off + 6] == byte_of(w, 6));
    assert(s[off + 7] == byte_of(w, 7));
}

/// A little-endian number has its least significant byte first.
pub proof fn law_least_significant_byte_first(s: Seq<u8>, at: int)
    ensures
        le(s, at, 1) == s[at],
        le(s, at, 2) == s[at] + 0x100 * s[at + 1],
        le(s, at, 4) == s[at] + 0x100 * s[at + 1] + 0x1_0000 * s[at + 2] + 0x100_0000 * s[at + 3],
        le(s, at, 8) == s[at] + 0x100 * s[at + 1] + 0x1_0000 * s[at + 2] + 0x100_0000 * s[at + 3] + 0x1_0000_0000
            * s[at + 4] + 0x100_0000_0000 * s[at + 5] + 0x1_0000_0000_0000 * s[at + 6] + 0x100_0000_0000_0000
            * s[at + 7],
{
    reveal_with_fuel(le, 9);
}

/// A word and its bytes say the same.
pub proof fn law_word_is_its_bytes(w: u64)
    ensures
        word_bytes(w).len() == 8,
        le(word_bytes(w), 0, 8) == w,
{
    let s = word_bytes(w);
    assert forall|k: u64| k < 8 implies s[0 + k] == #[trigger] byte_of(w, k) by {}
    lemma_word_bytes(w, s, 0);
}

/// Numbers and bytes go over into each other: a byte that is stored in a word is the one that
/// is read there, and no other is touched.
pub proof fn law_byte_stores_are_exact(w: u64, k: u64, j: u64, b: u8)
    requires
        k < 8,
        j < 8,
    ensures
        byte_of(with_byte(w, k, b), j) == (if j == k {
            b
        } else {
            byte_of(w, j)
        }),
{
    lemma_byte_update(w, k, j, b);
}

/// Byte `k` of a word is the word's digit `k` in base 256.
pub proof fn law_bytes_are_digits(w: u64)
    ensures
        byte_of(w, 0) == w % 256,
        byte_of(w, 1) == (w / 0x100) % 256,
        byte_of(w, 2) == (w / 0x1_0000) % 256,
        byte_of(w, 3) == (w / 0x100_0000) % 256,
        byte_of(w, 4) == (w / 0x1_0000_0000) % 256,
        byte_of(w, 5) == (w / 0x100_0000_0000) % 256,
        byte_of(w, 6) == (w / 0x1_0000_0000_0000) % 256,
        byte_of(w, 7) == (w / 0x100_0000_0000_0000) % 256,
{
    lemma_digits(w);
}

proof fn lemma_digits(w: u64)
    by (bit_vector)
    ensures
        byte_of(w, 0) == w % 256,
        byte_of(w, 1) == (w / 0x100) % 256,
        byte_of(w, 2) == (w / 0x1_0000) % 256,
        byte_of(w, 3) == (w / 0x100_0000) % 256,
        byte_of(w, 4) == (w / 0x1_0000_0000) % 256,
        byte_of(w, 5) == (w / 0x100_0000_0000) % 256,
        byte_of(w, 6) == (w / 0x1_0000_0000_0000) % 256,
        byte_of(w, 7) == (w / 0x100_0000_0000_0000) % 256,
{
}

} // verus!
