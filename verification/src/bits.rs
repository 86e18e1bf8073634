//! Bit-level views of bytes and byte sequences.
//!
//! Bits are always ordered most significant first: bit 0 of a byte is the bit
//! of weight 128, bit 7 the bit of weight 1.

use vstd::prelude::*;
use vstd::arithmetic::div_mod::{lemma_div_denominator, lemma_mod_breakdown};
use vstd::arithmetic::power2::{lemma2_to64, lemma_pow2_pos, lemma_pow2_unfold, pow2};

verus! {

/// The weight of bit `k` of a byte, counted from the most significant bit.
pub open spec fn weight(k: u8) -> u8 {
    if k == 0 {
        128
    } else if k == 1 {
        64
    } else if k == 2 {
        32
    } else if k == 3 {
        16
    } else if k == 4 {
        8
    } else if k == 5 {
        4
    } else if k == 6 {
        2
    } else {
        1
    }
}

/// Whether the bit of weight `w` is set in `b`.
pub open spec fn has_weight(b: u8, w: u8) -> bool {
    (b / w) % 2 == 1
}

/// Bit `k` of the byte `b`, counted from the most significant bit.
pub open spec fn byte_bit(b: u8, k: int) -> bool {
    has_weight(b, weight(k as u8))
}

/// The bits of a byte sequence, eight per byte, most significant first.
pub open spec fn bytes_to_bits(bytes: Seq<u8>) -> Seq<bool> {
    Seq::new(8 * bytes.len(), |i: int| byte_bit(bytes[i / 8], i % 8))
}

/// Bit `i` of `bits`, or zero where `i` lies outside the sequence.
pub open spec fn bit_or_zero(bits: Seq<bool>, i: int) -> bool {
    0 <= i < bits.len() && bits[i]
}

/// What bit `i` of `bits` contributes to a byte in which it is bit `k`.
pub open spec fn bit_weight(bits: Seq<bool>, i: int, k: u8) -> int {
    if bit_or_zero(bits, i) {
        weight(k) as int
    } else {
        0
    }
}

/// Byte `j` of the bit sequence `bits`, padded with zero bits past its end.
pub open spec fn packed_byte(bits: Seq<bool>, j: int) -> u8 {
    (bit_weight(bits, 8 * j, 0) + bit_weight(bits, 8 * j + 1, 1) + bit_weight(bits, 8 * j + 2, 2)
        + bit_weight(bits, 8 * j + 3, 3) + bit_weight(bits, 8 * j + 4, 4) + bit_weight(
        bits,
        8 * j + 5,
        5,
    ) + bit_weight(bits, 8 * j + 6, 6) + bit_weight(bits, 8 * j + 7, 7)) as u8
}

/// The bytes that hold `bits`, the last one padded with zero bits.
pub open spec fn pack_bits(bits: Seq<bool>) -> Seq<u8> {
    Seq::new((bits.len() + 7) / 8, |j: int| packed_byte(bits, j))
}

/// The number that a bit sequence spells, most significant bit first.
pub open spec fn bits_value(bits: Seq<bool>) -> nat
    decreases bits.len(),
{
    if bits.len() == 0 {
        0
    } else {
        2 * bits_value(bits.drop_last()) + if bits.last() {
            1nat
        } else {
            0nat
        }
    }
}

/// Bit `i` of `value`, counted from the least significant bit.
pub open spec fn value_bit(value: u64, i: nat) -> bool {
    (value as nat / pow2(i)) % 2 == 1
}

/// The `count` least significant bits of `value`, most significant first.
pub open spec fn value_bits(value: u64, count: nat) -> Seq<bool> {
    Seq::new(count, |i: int| value_bit(value, (count - 1 - i) as nat))
}

/// A run of `n` equal bits.
pub open spec fn repeat_bit(bit: bool, n: nat) -> Seq<bool> {
    Seq::new(n, |i: int| bit)
}

/// Appending a byte appends its eight bits.
pub proof fn lemma_bytes_to_bits_push(bytes: Seq<u8>, b: u8)
    ensures
        bytes_to_bits(bytes.push(b)) =~= bytes_to_bits(bytes) + Seq::new(
            8,
            |k: int| byte_bit(b, k),
        ),
{
    let lhs = bytes_to_bits(bytes.push(b));
    let rhs = bytes_to_bits(bytes) + Seq::new(8, |k: int| byte_bit(b, k));
    assert(lhs.len() == rhs.len());
    assert forall|i: int| 0 <= i < lhs.len() implies lhs[i] == rhs[i] by {
        if i < 8 * bytes.len() {
            assert(i / 8 < bytes.len());
        } else {
            assert(i / 8 == bytes.len());
            assert(i % 8 == i - 8 * bytes.len());
        }
    }
}

/// Whether bit `k` of `buf` and all bits after it are zero.
pub open spec fn bits_clear_from(buf: u8, k: u8) -> bool {
    buf % weight(k) == 0 && !has_weight(buf, weight(k))
}

/// Adding the weight of bit `k` to a byte whose bits from `k` on are zero
/// sets bit `k`, leaves the bits before it as they were and the bits after it
/// zero.
pub proof fn lemma_set_bit(buf: u8, k: u8, i: u8)
    by (bit_vector)
    requires
        k < 8,
        i <= k,
        bits_clear_from(buf, k),
    ensures
        buf + weight(k) < 256,
        (buf + weight(k)) as u8 % weight(k) == 0,
        i < k ==> has_weight((buf + weight(k)) as u8, weight(i)) == has_weight(buf, weight(i)),
        has_weight((buf + weight(k)) as u8, weight(k)),
{
}

/// A byte whose bits from `k` on are zero has its bits after `k` zero.
pub proof fn lemma_clear_next(buf: u8, k: u8)
    by (bit_vector)
    requires
        k < 7,
        buf % weight(k) == 0,
    ensures
        bits_clear_from(buf, (k + 1) as u8),
{
}

/// Setting bit `k` with a bitwise or and moving on to the next bit with a
/// shift agree with the arithmetic on weights.
pub proof fn lemma_mask_ops(buf: u8, k: u8)
    by (bit_vector)
    requires
        k < 8,
    ensures
        bits_clear_from(buf, k) ==> buf | weight(k) == buf + weight(k),
        (buf & weight(k) != 0) == has_weight(buf, weight(k)),
        k < 7 ==> weight(k) >> 1 == weight((k + 1) as u8),
        k == 7 ==> weight(k) >> 1 == 0,
        weight(k) != 0,
{
}

/// In a byte whose bits from `k` on are zero, every bit from `k` on is zero.
pub proof fn lemma_clear_bits(buf: u8, k: u8, i: u8)
    by (bit_vector)
    requires
        k <= i < 8,
        bits_clear_from(buf, k),
    ensures
        !has_weight(buf, weight(i)),
{
}

/// The weight that the bit of weight `w` has in `b`: `w` or zero.
pub open spec fn weight_in(b: u8, w: u8) -> u8 {
    if has_weight(b, w) {
        w
    } else {
        0
    }
}

/// A byte is the sum of the weights of its bits.
pub proof fn lemma_byte_is_sum(b: u8)
    by (bit_vector)
    ensures
        b == weight_in(b, 128) + weight_in(b, 64) + weight_in(b, 32) + weight_in(b, 16)
            + weight_in(b, 8) + weight_in(b, 4) + weight_in(b, 2) + weight_in(b, 1),
{
}

/// Packing the first `k` bits of a byte whose other bits are zero gives the
/// byte back.
pub proof fn lemma_pack_partial(bits: Seq<bool>, j: int, buf: u8, k: u8)
    requires
        0 <= j,
        k <= 8,
        k < 8 ==> bits_clear_from(buf, k),
        bits.len() == 8 * j + k,
        forall|i: int| 0 <= i < k ==> bits[8 * j + i] == byte_bit(buf, i),
    ensures
        packed_byte(bits, j) == buf,
{
    lemma_byte_is_sum(buf);
    assert forall|i: u8| 0 <= i < 8 implies bit_weight(bits, 8 * j + i, i) == weight_in(
        buf,
        weight(i),
    ) by {
        if i < k {
            assert(bits[8 * j + i] == byte_bit(buf, i as int));
        } else {
            lemma_clear_bits(buf, k, i);
        }
    }
    assert(bit_weight(bits, 8 * j + 0u8, 0u8) == weight_in(buf, weight(0)));
    assert(bit_weight(bits, 8 * j + 1u8, 1u8) == weight_in(buf, weight(1)));
    assert(bit_weight(bits, 8 * j + 2u8, 2u8) == weight_in(buf, weight(2)));
    assert(bit_weight(bits, 8 * j + 3u8, 3u8) == weight_in(buf, weight(3)));
    assert(bit_weight(bits, 8 * j + 4u8, 4u8) == weight_in(buf, weight(4)));
    assert(bit_weight(bits, 8 * j + 5u8, 5u8) == weight_in(buf, weight(5)));
    assert(bit_weight(bits, 8 * j + 6u8, 6u8) == weight_in(buf, weight(6)));
    assert(bit_weight(bits, 8 * j + 7u8, 7u8) == weight_in(buf, weight(7)));
}

/// Packing the bits of whole bytes followed by at most seven more bits gives
/// the bytes, and one more byte where more bits follow.
pub proof fn lemma_pack_bytes_and_partial(bytes: Seq<u8>, buf: u8, k: u8)
    requires
        k < 8,
        bits_clear_from(buf, k),
    ensures
        pack_bits(bytes_to_bits(bytes) + Seq::new(k as nat, |i: int| byte_bit(buf, i))) =~= if k
            > 0 {
            bytes.push(buf)
        } else {
            bytes
        },
{
    let bits = bytes_to_bits(bytes) + Seq::new(k as nat, |i: int| byte_bit(buf, i));
    let packed = pack_bits(bits);
    let n = bytes.len() as int;
    assert(bits.len() == 8 * n + k);
    assert(packed.len() == if k > 0 { n + 1 } else { n });
    assert forall|j: int| 0 <= j < packed.len() implies packed[j] == (if k > 0 {
        bytes.push(buf)
    } else {
        bytes
    })[j] by {
        if j < n {
            let whole = bits.take(8 * j + 8);
            assert forall|i: int| 0 <= i < 8 implies whole[8 * j + i] == byte_bit(bytes[j], i) by {
                assert((8 * j + i) / 8 == j);
                assert((8 * j + i) % 8 == i);
            }
            lemma_pack_partial(whole, j, bytes[j], 8);
            assert(packed_byte(whole, j) == packed_byte(bits, j));
        } else {
            lemma_pack_partial(bits, n, buf, k);
        }
    }
}

/// A number spelt by `n` bits is below two to the `n`.
pub proof fn lemma_bits_value_bound(bits: Seq<bool>)
    ensures
        bits_value(bits) < pow2(bits.len()),
    decreases bits.len(),
{
    if bits.len() == 0 {
        vstd::arithmetic::power2::lemma2_to64();
    } else {
        lemma_bits_value_bound(bits.drop_last());
        vstd::arithmetic::power2::lemma_pow2_unfold(bits.len());
    }
}

/// The bits `longer` start with the bits `shorter`.
pub open spec fn extends(longer: Seq<bool>, shorter: Seq<bool>) -> bool {
    longer.len() >= shorter.len() && longer.take(shorter.len() as int) == shorter
}

/// Bits extend themselves.
pub proof fn lemma_extends_self(a: Seq<bool>)
    ensures
        extends(a, a),
{
    assert(a.take(a.len() as int) =~= a);
}

/// Bits with more bits after them extend what they extended.
pub proof fn lemma_extends_more(a: Seq<bool>, b: Seq<bool>, c: Seq<bool>)
    requires
        extends(a, c),
    ensures
        extends(a + b, c),
{
    assert((a + b).take(c.len() as int) =~= a.take(c.len() as int));
}

/// What extends an extension extends what that extends.
pub proof fn lemma_extends_trans(a: Seq<bool>, b: Seq<bool>, c: Seq<bool>)
    requires
        extends(a, b),
        extends(b, c),
    ensures
        extends(a, c),
{
    assert(a.take(c.len() as int) =~= b.take(c.len() as int));
}

/// The bytes `longer` start with the bytes `shorter`.
pub open spec fn extends_bytes(longer: Seq<u8>, shorter: Seq<u8>) -> bool {
    longer.len() >= shorter.len() && longer.take(shorter.len() as int) == shorter
}

/// Bytes extend themselves.
pub proof fn lemma_extends_bytes_self(a: Seq<u8>)
    ensures
        extends_bytes(a, a),
{
    assert(a.take(a.len() as int) =~= a);
}

/// Bytes with one more byte after them extend what they extended.
pub proof fn lemma_extends_bytes_push(a: Seq<u8>, b: u8, c: Seq<u8>)
    requires
        extends_bytes(a, c),
    ensures
        extends_bytes(a.push(b), c),
{
    assert(a.push(b).take(c.len() as int) =~= a.take(c.len() as int));
}

/// What extends an extension extends what that extends.
pub proof fn lemma_extends_bytes_trans(a: Seq<u8>, b: Seq<u8>, c: Seq<u8>)
    requires
        extends_bytes(a, b),
        extends_bytes(b, c),
    ensures
        extends_bytes(a, c),
{
    assert(a.take(c.len() as int) =~= b.take(c.len() as int));
}

/// Two bit sequences agree, zeros past their ends counted.
pub open spec fn agree(a: Seq<bool>, b: Seq<bool>) -> bool {
    forall|i: int| 0 <= i ==> #[trigger] bit_or_zero(a, i) == bit_or_zero(b, i)
}

/// Each bit of a byte made of eight bits is the bit it was made of.
pub proof fn lemma_bits_of_sum(
    b0: bool,
    b1: bool,
    b2: bool,
    b3: bool,
    b4: bool,
    b5: bool,
    b6: bool,
    b7: bool,
    sum: u8,
)
    by (bit_vector)
    requires
        sum == (if b0 { 128u8 } else { 0u8 }) + (if b1 { 64u8 } else { 0u8 }) + (if b2 {
            32u8
        } else {
            0u8
        }) + (if b3 { 16u8 } else { 0u8 }) + (if b4 { 8u8 } else { 0u8 }) + (if b5 {
            4u8
        } else {
            0u8
        }) + (if b6 { 2u8 } else { 0u8 }) + (if b7 { 1u8 } else { 0u8 }),
    ensures
        has_weight(sum, 128) == b0,
        has_weight(sum, 64) == b1,
        has_weight(sum, 32) == b2,
        has_weight(sum, 16) == b3,
        has_weight(sum, 8) == b4,
        has_weight(sum, 4) == b5,
        has_weight(sum, 2) == b6,
        has_weight(sum, 1) == b7,
{
}

/// The bits of the bytes into which bits were packed are those bits, with
/// zeros up to the end of the last byte.
pub proof fn lemma_unpack(bits: Seq<bool>)
    ensures
        agree(bytes_to_bits(pack_bits(bits)), bits),
        bytes_to_bits(pack_bits(bits)).len() >= bits.len(),
{
    let bytes = pack_bits(bits);
    let data = bytes_to_bits(bytes);
    assert forall|i: int| 0 <= i implies #[trigger] bit_or_zero(data, i) == bit_or_zero(
        bits,
        i,
    ) by {
        if i < data.len() {
            let j = i / 8;
            let k = i % 8;
            assert(0 <= j < bytes.len());
            assert(data[i] == byte_bit(bytes[j], k));
            let sum = packed_byte(bits, j);
            lemma_bits_of_sum(
                bit_or_zero(bits, 8 * j),
                bit_or_zero(bits, 8 * j + 1),
                bit_or_zero(bits, 8 * j + 2),
                bit_or_zero(bits, 8 * j + 3),
                bit_or_zero(bits, 8 * j + 4),
                bit_or_zero(bits, 8 * j + 5),
                bit_or_zero(bits, 8 * j + 6),
                bit_or_zero(bits, 8 * j + 7),
                sum,
            );
            assert(i == 8 * j + k);
        }
    }
}

/// The bits of a number spell the number again, as far as they hold it.
pub proof fn lemma_value_of_value_bits(value: u64, count: nat)
    ensures
        bits_value(value_bits(value, count)) == value as nat % pow2(count),
    decreases count,
{
    let bits = value_bits(value, count);
    if count == 0 {
        lemma2_to64();
    } else {
        let half: u64 = (value / 2) as u64;
        let rest = (count - 1) as nat;
        lemma_value_of_value_bits(half, rest);
        lemma_pow2_unfold(count);
        lemma_pow2_pos(rest);
        assert forall|i: int| 0 <= i < rest implies bits.drop_last()[i] == value_bits(
            half,
            rest,
        )[i] by {
            let k = (rest - 1 - i) as nat;
            lemma_pow2_unfold(k + 1);
            lemma_pow2_pos(k);
            lemma_div_denominator(value as int, 2, pow2(k) as int);
        }
        assert(bits.drop_last() =~= value_bits(half, rest));
        lemma2_to64();
        assert(bits.last() == (value as nat % 2 == 1));
        lemma_mod_breakdown(value as int, 2, pow2(rest) as int);
    }
}

} // verus!
