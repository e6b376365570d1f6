//! The 16-bit one's-complement checksum of the Internet protocols.

use vstd::prelude::*;
use crate::byteorder::{byteorder, host_byte_order, native_word16, swapped16, LITTLE_ENDIAN};

verus! {

/// The sum of the first `k` 16-bit words of `data`, each read as a host of
/// byte order `order` reads it from memory.
pub open spec fn word_sum(order: i32, data: Seq<u8>, k: nat) -> int
    decreases k,
{
    if k == 0 {
        0
    } else {
        word_sum(order, data, (k - 1) as nat) + native_word16(
            order,
            data[2 * k - 2],
            data[2 * k - 1],
        )
    }
}

/// The sum that the checksum covers: the words of the first `count` bytes,
/// and a last odd byte, if there is one, added by its own value.
pub open spec fn byte_sum(order: i32, data: Seq<u8>, count: nat) -> int {
    word_sum(order, data, count / 2) + if count % 2 == 1 {
        data[count - 1] as int
    } else {
        0
    }
}

/// The result of adding the carries of a sum back into its low 16 bits
/// until none is left: 0 for 0, and otherwise the number in 1..=0xffff
/// that is congruent to `s` modulo 0xffff.
pub open spec fn fold_carries(s: int) -> int {
    if s == 0 {
        0
    } else {
        (s - 1) % 0xffff + 1
    }
}

/// The checksum of the first `count` bytes of `data` on a host of byte
/// order `order`, starting from the partial sum `init`: the one's complement
/// of the folded sum, where the running 32-bit sum wraps around.
pub open spec fn checksum(order: i32, data: Seq<u8>, count: nat, init: u32) -> int {
    0xffff - fold_carries((init + byte_sum(order, data, count)) % 0x1_0000_0000)
}

/// One folding step keeps the folded value and makes the sum smaller.
proof fn lemma_fold_step(s: u32)
    requires
        s >> 16u32 != 0,
    ensures
        (s & 0xffff) + (s >> 16u32) < s,
        fold_carries((s & 0xffff) + (s >> 16u32)) == fold_carries(s as int),
{
    let lo: u32 = s & 0xffff;
    let hi: u32 = s >> 16u32;
    assert(lo == s % 0x1_0000 && hi == s / 0x1_0000 && hi >= 1) by (bit_vector)
        requires
            lo == s & 0xffff,
            hi == s >> 16u32,
            hi != 0,
    ;
    let t: int = lo + hi;
    assert(s == 0x1_0000 * hi + lo);
    assert(t - 1 == (s - 1) - 0xffff * hi);
    assert((0xffff * (-hi) + (s - 1)) % 0xffff == (s - 1) % 0xffff) by {
        vstd::arithmetic::div_mod::lemma_mod_multiples_vanish(-hi, s - 1, 0xffff);
    }
    assert(0xffff * (-hi) == -(0xffff * hi)) by (nonlinear_arith);
}

/// A sum without carries folds to itself.
proof fn lemma_fold_small(s: u32)
    requires
        s >> 16u32 == 0,
    ensures
        s <= 0xffff,
        fold_carries(s as int) == s,
{
    assert(s <= 0xffff) by (bit_vector)
        requires
            s >> 16u32 == 0,
    ;
}

/// The checksum of the first `count` bytes of `data` on a host of byte
/// order `order`, starting from the partial sum `init`.
pub fn cksum16_for_order(order: i32, data: &[u8], count: usize, init: u32) -> (r: u16)
    requires
        count <= data@.len(),
    ensures
        r == checksum(order, data@, count as nat, init),
{
    let mut sum: u32 = init;
    let mut i: usize = 0;
    let mut remaining: usize = count;
    while remaining > 1
        invariant
            i + remaining == count,
            i % 2 == 0,
            count <= data@.len(),
            sum == (init + word_sum(order, data@, (i / 2) as nat)) % 0x1_0000_0000,
        decreases remaining,
    {
        let lo: u32 = data[i] as u32;
        let hi: u32 = data[i + 1] as u32;
        let word: u32 = if order == LITTLE_ENDIAN {
            lo + hi * 0x100
        } else {
            lo * 0x100 + hi
        };
        proof {
            let k: nat = (i / 2) as nat;
            assert((i + 2) / 2 == k + 1);
            assert(word_sum(order, data@, k + 1) == word_sum(order, data@, k) + word);
            vstd::arithmetic::div_mod::lemma_add_mod_noop(
                init + word_sum(order, data@, k),
                word as int,
                0x1_0000_0000,
            );
            vstd::arithmetic::div_mod::lemma_small_mod(word as nat, 0x1_0000_0000);
        }
        sum = sum.wrapping_add(word);
        i = i + 2;
        remaining = remaining - 2;
    }
    proof {
        assert(i / 2 == count / 2);
    }
    if remaining == 1 {
        let last: u32 = data[i] as u32;
        proof {
            vstd::arithmetic::div_mod::lemma_add_mod_noop(
                init + word_sum(order, data@, (i / 2) as nat),
                last as int,
                0x1_0000_0000,
            );
            vstd::arithmetic::div_mod::lemma_small_mod(last as nat, 0x1_0000_0000);
        }
        sum = sum.wrapping_add(last);
    }
    assert(sum == (init + byte_sum(order, data@, count as nat)) % 0x1_0000_0000);
    let ghost total: int = sum as int;
    while sum >> 16u32 != 0
        invariant
            fold_carries(sum as int) == fold_carries(total),
        decreases sum,
    {
        proof {
            lemma_fold_step(sum);
        }
        sum = (sum & 0xffff) + (sum >> 16u32);
    }
    proof {
        lemma_fold_small(sum);
    }
    let r: u16 = !sum as u16;
    assert(r == 0xffff - sum) by (bit_vector)
        requires
            r == (!sum) as u16,
            sum <= 0xffff,
    ;
    r
}

/// The checksum of the first `count` bytes of `data`, whose 16-bit words
/// are read in host byte order, starting from the partial sum `init`.
pub fn cksum16(data: &[u8], count: usize, init: u32) -> (r: u16)
    requires
        count <= data@.len(),
    ensures
        r == checksum(host_byte_order(), data@, count as nat, init),
{
    cksum16_for_order(byteorder(), data, count, init)
}

/// The same checksum as `cksum16`, under the name that the stack links against.
pub fn cksum16_rust(data: &[u8], count: usize, init: u32) -> (r: u16)
    requires
        count <= data@.len(),
    ensures
        r == checksum(host_byte_order(), data@, count as nat, init),
{
    cksum16(data, count, init)
}


/// Words read from two byte sequences that agree on their first `2 * k`
/// bytes sum to the same value.
proof fn lemma_word_sum_agree(order: i32, a: Seq<u8>, b: Seq<u8>, k: nat)
    requires
        2 * k <= a.len(),
        2 * k <= b.len(),
        forall|i: int| 0 <= i < 2 * k ==> a[i] == b[i],
    ensures
        word_sum(order, a, k) == word_sum(order, b, k),
    decreases k,
{
    if k > 0 {
        lemma_word_sum_agree(order, a, b, (k - 1) as nat);
        assert(a[2 * k - 2] == b[2 * k - 2]);
        assert(a[2 * k - 1] == b[2 * k - 1]);
    }
}

/// A folded sum is a 16-bit value, and it is zero only for the sum zero.
pub proof fn lemma_fold_carries_range(s: int)
    requires
        0 <= s,
    ensures
        0 <= fold_carries(s) <= 0xffff,
        fold_carries(s) == 0 <==> s == 0,
        s > 0 ==> fold_carries(s) % 0xffff == s % 0xffff,
{
    if s > 0 {
        vstd::arithmetic::div_mod::lemma_fundamental_div_mod(s - 1, 0xffff);
        let q: int = (s - 1) / 0xffff;
        let r: int = (s - 1) % 0xffff;
        assert(s == 0xffff * q + (r + 1));
        vstd::arithmetic::div_mod::lemma_mod_multiples_vanish(q, r + 1, 0xffff);
    }
}

/// Checksums verify: when the checksum of an even number of bytes is stored
/// after them, as the host stores a 16-bit word, the checksum of the
/// extended bytes is zero, provided the running sum does not wrap around.
pub proof fn lemma_checksum_appended_verifies(
    order: i32,
    data: Seq<u8>,
    count: nat,
    init: u32,
    c0: u8,
    c1: u8,
)
    requires
        count % 2 == 0,
        count <= data.len(),
        native_word16(order, c0, c1) == checksum(order, data, count, init),
        init + byte_sum(order, data, count) + 0xffff < 0x1_0000_0000,
    ensures
        checksum(order, data.take(count as int) + seq![c0, c1], count + 2, init) == 0,
{
    let ext: Seq<u8> = data.take(count as int) + seq![c0, c1];
    let k: nat = count / 2;
    lemma_word_sum_agree(order, data, ext, k);
    assert((count + 2) / 2 == k + 1);
    assert(ext[2 * (k + 1) - 2] == c0 && ext[2 * (k + 1) - 1] == c1);
    let s: int = init + byte_sum(order, data, count);
    assert(s >= 0) by {
        lemma_word_sum_nonneg(order, data, k);
    }
    vstd::arithmetic::div_mod::lemma_small_mod(s as nat, 0x1_0000_0000);
    let c: int = 0xffff - fold_carries(s);
    lemma_fold_carries_range(s);
    let s2: int = s + c;
    assert(byte_sum(order, ext, count + 2) == byte_sum(order, data, count) + c);
    vstd::arithmetic::div_mod::lemma_small_mod(s2 as nat, 0x1_0000_0000);
    if s == 0 {
        assert(s2 == 0xffff);
    } else {
        vstd::arithmetic::div_mod::lemma_fundamental_div_mod(s - 1, 0xffff);
        let q: int = (s - 1) / 0xffff;
        assert(q >= 0);
        assert(s2 - 1 == 0xffff * q + 0xfffe);
        vstd::arithmetic::div_mod::lemma_mod_multiples_vanish(q, 0xfffe, 0xffff);
    }
}

/// Sums of words are never negative.
proof fn lemma_word_sum_nonneg(order: i32, data: Seq<u8>, k: nat)
    ensures
        word_sum(order, data, k) >= 0,
    decreases k,
{
    if k > 0 {
        lemma_word_sum_nonneg(order, data, (k - 1) as nat);
    }
}


/// Folded sums are equal when the sums are congruent modulo 0xffff and
/// are zero together.
proof fn lemma_fold_congruent(a: int, b: int)
    requires
        0 <= a,
        0 <= b,
        a % 0xffff == b % 0xffff,
        a == 0 <==> b == 0,
    ensures
        fold_carries(a) == fold_carries(b),
{
    if a > 0 {
        vstd::arithmetic::div_mod::lemma_add_mod_noop(a, -1, 0xffff);
        vstd::arithmetic::div_mod::lemma_add_mod_noop(b, -1, 0xffff);
    }
}

/// A folded sum is no larger than the sum.
proof fn lemma_fold_le(s: int)
    requires
        0 <= s,
    ensures
        fold_carries(s) <= s,
{
    if s > 0 {
        vstd::arithmetic::div_mod::lemma_mod_decreases((s - 1) as nat, 0xffff);
    }
}

/// The words of the first `j + k` words split into the first `j` and the
/// `k` words that follow them.
proof fn lemma_word_sum_split(order: i32, data: Seq<u8>, j: nat, k: nat)
    requires
        2 * (j + k) <= data.len(),
    ensures
        word_sum(order, data, j + k) == word_sum(order, data, j) + word_sum(
            order,
            data.skip(2 * j as int),
            k,
        ),
    decreases k,
{
    if k > 0 {
        lemma_word_sum_split(order, data, j, (k - 1) as nat);
        let rest: Seq<u8> = data.skip(2 * j as int);
        assert(rest[2 * k - 2] == data[2 * (j + k) - 2]);
        assert(rest[2 * k - 1] == data[2 * (j + k) - 1]);
        assert((j + k - 1) as nat == j + (k - 1) as nat);
    }
}

/// Only the first `count` bytes count: two buffers that agree on them have
/// the same checksum.
pub proof fn lemma_checksum_reads_count_bytes(
    order: i32,
    a: Seq<u8>,
    b: Seq<u8>,
    count: nat,
    init: u32,
)
    requires
        count <= a.len(),
        count <= b.len(),
        forall|i: int| 0 <= i < count ==> a[i] == b[i],
    ensures
        checksum(order, a, count, init) == checksum(order, b, count, init),
{
    lemma_word_sum_agree(order, a, b, count / 2);
    if count % 2 == 1 {
        assert(a[count - 1] == b[count - 1]);
    }
}

/// A checksum can be computed in pieces: the checksum of the first `n1`
/// bytes (an even number), complemented, is the partial sum from which the
/// checksum of the next `n2` bytes continues, provided the running sum of
/// all of them does not wrap around.
pub proof fn lemma_checksum_in_pieces(order: i32, data: Seq<u8>, n1: nat, n2: nat, init: u32)
    requires
        n1 % 2 == 0,
        n1 + n2 <= data.len(),
        init + byte_sum(order, data, n1 + n2) < 0x1_0000_0000,
    ensures
        0 <= 0xffff - checksum(order, data, n1, init) <= 0xffff,
        checksum(order, data, n1 + n2, init) == checksum(
            order,
            data.skip(n1 as int),
            n2,
            (0xffff - checksum(order, data, n1, init)) as u32,
        ),
{
    let rest: Seq<u8> = data.skip(n1 as int);
    let j: nat = n1 / 2;
    let k: nat = n2 / 2;
    assert((n1 + n2) / 2 == j + k);
    assert(2 * j == n1);
    lemma_word_sum_split(order, data, j, k);
    lemma_word_sum_nonneg(order, data, j);
    lemma_word_sum_nonneg(order, rest, k);
    if n2 % 2 == 1 {
        assert(rest[n2 - 1] == data[n1 + n2 - 1]);
    }
    let b1: int = byte_sum(order, data, n1);
    let b2: int = byte_sum(order, rest, n2);
    assert(byte_sum(order, data, n1 + n2) == b1 + b2);
    assert(b1 == word_sum(order, data, j));
    let s1: int = init + b1;
    vstd::arithmetic::div_mod::lemma_small_mod(s1 as nat, 0x1_0000_0000);
    vstd::arithmetic::div_mod::lemma_small_mod((s1 + b2) as nat, 0x1_0000_0000);
    lemma_fold_carries_range(s1);
    lemma_fold_le(s1);
    let p: int = fold_carries(s1);
    assert(0xffff - checksum(order, data, n1, init) == p);
    vstd::arithmetic::div_mod::lemma_small_mod((p + b2) as nat, 0x1_0000_0000);
    if s1 > 0 {
        vstd::arithmetic::div_mod::lemma_add_mod_noop(p, b2, 0xffff);
        vstd::arithmetic::div_mod::lemma_add_mod_noop(s1, b2, 0xffff);
    }
    lemma_fold_congruent(p + b2, s1 + b2);
}


/// A word read with its two bytes exchanged is the byte-swapped word, and
/// it is congruent to 0x100 times the word modulo 0xffff.
proof fn lemma_swapped_word(order: i32, a: u8, b: u8)
    ensures
        native_word16(order, b, a) % 0xffff == (0x100 * native_word16(order, a, b)) % 0xffff,
        native_word16(order, b, a) == 0 <==> native_word16(order, a, b) == 0,
        0 <= native_word16(order, a, b) <= 0xffff,
        0 <= native_word16(order, b, a) <= 0xffff,
{
    let w: int = native_word16(order, a, b);
    let w2: int = native_word16(order, b, a);
    let hi: int = if order == LITTLE_ENDIAN {
        b as int
    } else {
        a as int
    };
    assert(0x100 * w == 0xffff * hi + w2);
    vstd::arithmetic::div_mod::lemma_mod_multiples_vanish(hi, w2, 0xffff);
}

/// Reading every word with its bytes exchanged multiplies the sum by 0x100
/// modulo 0xffff, and keeps it zero exactly when it was zero.
proof fn lemma_swapped_word_sums(order: i32, data: Seq<u8>, swapped: Seq<u8>, k: nat)
    requires
        2 * k <= data.len(),
        2 * k <= swapped.len(),
        forall|i: int|
            0 <= i < k ==> #[trigger] swapped[2 * i] == data[2 * i + 1] && swapped[2 * i + 1]
                == data[2 * i],
    ensures
        word_sum(order, swapped, k) % 0xffff == (0x100 * word_sum(order, data, k)) % 0xffff,
        word_sum(order, swapped, k) == 0 <==> word_sum(order, data, k) == 0,
        0 <= word_sum(order, data, k) <= 0xffff * k,
        0 <= word_sum(order, swapped, k) <= 0xffff * k,
    decreases k,
{
    if k > 0 {
        let j: nat = (k - 1) as nat;
        lemma_swapped_word_sums(order, data, swapped, j);
        let i: int = j as int;
        assert(swapped[2 * i] == data[2 * i + 1] && swapped[2 * i + 1] == data[2 * i]);
        let a: u8 = data[2 * k - 2];
        let b: u8 = data[2 * k - 1];
        lemma_swapped_word(order, a, b);
        let s: int = word_sum(order, data, j);
        let s2: int = word_sum(order, swapped, j);
        let w: int = native_word16(order, a, b);
        let w2: int = native_word16(order, b, a);
        assert(word_sum(order, swapped, k) == s2 + w2);
        assert(word_sum(order, data, k) == s + w);
        vstd::arithmetic::div_mod::lemma_add_mod_noop(s2, w2, 0xffff);
        vstd::arithmetic::div_mod::lemma_add_mod_noop(0x100 * s, 0x100 * w, 0xffff);
        assert(0x100 * (s + w) == 0x100 * s + 0x100 * w);
    }
}

/// Two values in 1..=0xffff that are congruent modulo 0xffff are equal.
proof fn lemma_congruent_in_range(a: int, b: int)
    requires
        1 <= a <= 0xffff,
        1 <= b <= 0xffff,
        a % 0xffff == b % 0xffff,
    ensures
        a == b,
{
    if a < 0xffff {
        vstd::arithmetic::div_mod::lemma_small_mod(a as nat, 0xffff);
    }
    if b < 0xffff {
        vstd::arithmetic::div_mod::lemma_small_mod(b as nat, 0xffff);
    }
}

/// The checksum does not depend on byte order: over words whose two bytes
/// are exchanged, the checksum is the byte-swapped checksum (for up to
/// 64 KiB, summed from zero).
pub proof fn lemma_checksum_of_swapped_words(
    order: i32,
    data: Seq<u8>,
    swapped: Seq<u8>,
    count: nat,
)
    requires
        count % 2 == 0,
        count <= 0x10000,
        count <= data.len(),
        count <= swapped.len(),
        forall|i: int|
            0 <= i < count / 2 ==> #[trigger] swapped[2 * i] == data[2 * i + 1] && swapped[2 * i
                + 1] == data[2 * i],
    ensures
        0 <= checksum(order, data, count, 0) <= 0xffff,
        checksum(order, swapped, count, 0) == swapped16(checksum(order, data, count, 0) as u16),
{
    let k: nat = count / 2;
    lemma_swapped_word_sums(order, data, swapped, k);
    let s: int = word_sum(order, data, k);
    let s2: int = word_sum(order, swapped, k);
    assert(s <= 0xffff * 0x8000 && s2 <= 0xffff * 0x8000) by (nonlinear_arith)
        requires
            s <= 0xffff * k,
            s2 <= 0xffff * k,
            k <= 0x8000,
    ;
    assert(byte_sum(order, data, count) == s);
    assert(byte_sum(order, swapped, count) == s2);
    vstd::arithmetic::div_mod::lemma_small_mod(s as nat, 0x1_0000_0000);
    vstd::arithmetic::div_mod::lemma_small_mod(s2 as nat, 0x1_0000_0000);
    lemma_fold_carries_range(s);
    lemma_fold_carries_range(s2);
    let f: u16 = fold_carries(s) as u16;
    let f2: int = fold_carries(s2);
    let g: u16 = (0xffff - f) as u16;
    assert(swapped16(g) == 0xffff - swapped16(f)) by (bit_vector)
        requires
            g == 0xffff - f,
    ;
    if s > 0 {
        let sw: int = swapped16(f);
        assert(1 <= (f % 0x100) * 0x100 + f / 0x100 <= 0xffff) by (bit_vector)
            requires
                f != 0,
        ;
        let hi: int = (f / 0x100) as int;
        assert(0x100 * f == 0xffff * hi + sw) by {
            vstd::arithmetic::div_mod::lemma_fundamental_div_mod(f as int, 0x100);
        }
        vstd::arithmetic::div_mod::lemma_mod_multiples_vanish(hi, sw, 0xffff);
        vstd::arithmetic::div_mod::lemma_mul_mod_noop_right(0x100, f as int, 0xffff);
        vstd::arithmetic::div_mod::lemma_mul_mod_noop_right(0x100, s, 0xffff);
        lemma_congruent_in_range(f2, sw);
    }
}


/// Each word is at most 0xffff, so `k` words sum to at most `0xffff * k`.
proof fn lemma_word_sum_bound(order: i32, data: Seq<u8>, k: nat)
    ensures
        0 <= word_sum(order, data, k) <= 0xffff * k,
    decreases k,
{
    if k > 0 {
        lemma_word_sum_bound(order, data, (k - 1) as nat);
    }
}

/// For at most 64 KiB and a 16-bit starting sum, the running sum never
/// wraps around.
proof fn lemma_no_wrap(order: i32, data: Seq<u8>, count: nat, init: u32)
    requires
        count <= 0x10000,
        init <= 0xffff,
    ensures
        0 <= byte_sum(order, data, count),
        init + byte_sum(order, data, count) < 0x1_0000_0000,
{
    let k: nat = count / 2;
    lemma_word_sum_bound(order, data, k);
    assert(word_sum(order, data, k) <= 0xffff * 0x8000) by (nonlinear_arith)
        requires
            word_sum(order, data, k) <= 0xffff * k,
            k <= 0x8000,
    ;
}

/// A checksum can be computed in pieces: for at most 64 KiB, a 16-bit
/// starting sum and an even first piece, the complemented checksum of the
/// first `n1` bytes is the starting sum from which the checksum of the next
/// `n2` bytes gives the checksum of all `n1 + n2`.
pub proof fn lemma_checksum_in_pieces_up_to_64k(
    order: i32,
    data: Seq<u8>,
    n1: nat,
    n2: nat,
    init: u32,
)
    requires
        n1 % 2 == 0,
        n1 + n2 <= data.len(),
        n1 + n2 <= 0x10000,
        init <= 0xffff,
    ensures
        0 <= 0xffff - checksum(order, data, n1, init) <= 0xffff,
        checksum(order, data, n1 + n2, init) == checksum(
            order,
            data.skip(n1 as int),
            n2,
            (0xffff - checksum(order, data, n1, init)) as u32,
        ),
{
    lemma_no_wrap(order, data, n1 + n2, init);
    lemma_checksum_in_pieces(order, data, n1, n2, init);
}

/// The checksum of no bytes is the complement of the 16-bit starting sum.
pub proof fn lemma_checksum_of_nothing(order: i32, data: Seq<u8>, init: u32)
    requires
        init <= 0xffff,
    ensures
        checksum(order, data, 0, init) == 0xffff - init,
{
    vstd::arithmetic::div_mod::lemma_small_mod(init as nat, 0x1_0000_0000);
    if init > 0 {
        if init < 0xffff {
            vstd::arithmetic::div_mod::lemma_small_mod((init - 1) as nat, 0xffff);
        }
    }
}

/// The checksum of a single byte from a 16-bit starting sum: the byte is
/// added by its own value, a carry out of 16 bits is added back, and the
/// result is complemented.
pub proof fn lemma_checksum_of_one_byte(order: i32, data: Seq<u8>, init: u32)
    requires
        1 <= data.len(),
        init <= 0xffff,
    ensures
        checksum(order, data, 1, init) == 0xffff - (if init + data[0] > 0xffff {
            init + data[0] - 0xffff
        } else {
            init + data[0]
        }),
{
    let s: int = init + data[0];
    assert(byte_sum(order, data, 1) == data[0]);
    vstd::arithmetic::div_mod::lemma_small_mod(s as nat, 0x1_0000_0000);
    lemma_fold_small_sum(s);
}

/// The checksum of a single 16-bit word from a 16-bit starting sum: the
/// word is the first byte plus 0x100 times the second on a little-endian
/// host, 0x100 times the first plus the second otherwise; a carry out of
/// 16 bits is added back, and the result is complemented.
pub proof fn lemma_checksum_of_one_word(order: i32, data: Seq<u8>, init: u32)
    requires
        2 <= data.len(),
        init <= 0xffff,
    ensures
        ({
            let w: int = if order == LITTLE_ENDIAN {
                data[0] + 0x100 * data[1]
            } else {
                0x100 * data[0] + data[1]
            };
            checksum(order, data, 2, init) == 0xffff - (if init + w > 0xffff {
                init + w - 0xffff
            } else {
                init + w
            })
        }),
{
    let w: int = if order == LITTLE_ENDIAN {
        data[0] + 0x100 * data[1]
    } else {
        0x100 * data[0] + data[1]
    };
    assert(word_sum(order, data, 0) == 0);
    assert(native_word16(order, data[0], data[1]) == w);
    assert(word_sum(order, data, 1) == word_sum(order, data, 0) + native_word16(
        order,
        data[0],
        data[1],
    ));
    assert(byte_sum(order, data, 2) == w);
    let s: int = init + w;
    vstd::arithmetic::div_mod::lemma_small_mod(s as nat, 0x1_0000_0000);
    lemma_fold_small_sum(s);
}

/// Folding a sum of at most two 16-bit values adds its one carry back.
proof fn lemma_fold_small_sum(s: int)
    requires
        0 <= s <= 0x1fffe,
    ensures
        fold_carries(s) == (if s > 0xffff {
            s - 0xffff
        } else {
            s
        }),
{
    if s > 0 {
        if s <= 0xffff {
            vstd::arithmetic::div_mod::lemma_small_mod((s - 1) as nat, 0xffff);
        } else {
            vstd::arithmetic::div_mod::lemma_mod_multiples_vanish(1, s - 1 - 0xffff, 0xffff);
            vstd::arithmetic::div_mod::lemma_small_mod((s - 1 - 0xffff) as nat, 0xffff);
        }
    }
}

} // verus!
