//! # Bits of byte buffers
//!
//! Bytes are read from their most significant bit to their least significant one.
use vstd::prelude::*;

verus! {

/// Bit `i` of a byte, counted from the most significant one.
pub open spec fn bit_at(byte: u8, i: int) -> bool {
    (byte >> ((7 - i) as u8)) & 1u8 == 1u8
}

/// The bits of a byte sequence.
pub open spec fn bits_of(bytes: Seq<u8>) -> Seq<bool> {
    Seq::new(8 * bytes.len(), |i: int| bit_at(bytes[i / 8], i % 8))
}

/// A run of zero bits.
pub open spec fn zeros(n: nat) -> Seq<bool> {
    Seq::new(n, |i: int| false)
}

/// The number of bytes that hold `n` bits.
pub open spec fn bytes_for(n: nat) -> nat {
    (n + 7) / 8
}

/// The bits of a buffer that holds `n` bits can be counted in a `usize`.
pub open spec fn buffer_fits(n: nat) -> bool {
    8 * bytes_for(n) <= usize::MAX
}

/// The given bits with as many zeros in front as fill up the first byte.
pub open spec fn right_aligned(bits: Seq<bool>) -> Seq<bool> {
    zeros((8 * bytes_for(bits.len()) - bits.len()) as nat) + bits
}

/// The given bits with as many zeros behind them as fill up the last byte.
pub open spec fn left_aligned(bits: Seq<bool>) -> Seq<bool> {
    bits + zeros((8 * bytes_for(bits.len()) - bits.len()) as nat)
}

/// A sequence without its first `n` elements, or the empty one where it has fewer.
pub open spec fn drop_bits(bits: Seq<bool>, n: nat) -> Seq<bool> {
    if n <= bits.len() {
        bits.skip(n as int)
    } else {
        Seq::empty()
    }
}

/// The last `n` binary digits of a number, most significant digit first.
pub open spec fn binary(x: nat, n: nat) -> Seq<bool>
    decreases n,
{
    if n == 0 {
        Seq::empty()
    } else {
        binary(x / 2, (n - 1) as nat).push(x % 2 == 1)
    }
}

/// There are as many digits as asked for.
pub proof fn lemma_binary_len(x: nat, n: nat)
    ensures
        binary(x, n).len() == n,
    decreases n,
{
    if n > 0 {
        lemma_binary_len(x / 2, (n - 1) as nat);
    }
}

/// The digits of a byte are its bits.
proof fn lemma_byte_digits(b: u8)
    ensures
        bits_of(seq![b]) == seq![
            (b / 128) % 2 == 1,
            (b / 64) % 2 == 1,
            (b / 32) % 2 == 1,
            (b / 16) % 2 == 1,
            (b / 8) % 2 == 1,
            (b / 4) % 2 == 1,
            (b / 2) % 2 == 1,
            b % 2 == 1,
        ],
{
    assert((b >> 7) & 1 == (b / 128) % 2 && (b >> 6) & 1 == (b / 64) % 2 && (b >> 5) & 1 == (b / 32)
        % 2 && (b >> 4) & 1 == (b / 16) % 2 && (b >> 3) & 1 == (b / 8) % 2 && (b >> 2) & 1 == (b
        / 4) % 2 && (b >> 1) & 1 == (b / 2) % 2 && (b >> 0) & 1 == b % 2) by (bit_vector);
    let byte = bits_of(seq![b]);
    assert(byte[0] == bit_at(b, 0) && byte[1] == bit_at(b, 1) && byte[2] == bit_at(b, 2) && byte[3]
        == bit_at(b, 3) && byte[4] == bit_at(b, 4) && byte[5] == bit_at(b, 5) && byte[6] == bit_at(
        b,
        6,
    ) && byte[7] == bit_at(b, 7));
}

/// The number whose binary digits are those of `x`, followed by the given ones.
pub open spec fn append_digits(x: nat, digits: Seq<bool>) -> nat
    decreases digits.len(),
{
    if digits.len() == 0 {
        x
    } else {
        2 * append_digits(x, digits.drop_last()) + (if digits.last() {
            1nat
        } else {
            0nat
        })
    }
}

/// The last digits of a number are those that were appended last.
pub proof fn lemma_append_digits(x: nat, n: nat, digits: Seq<bool>)
    ensures
        binary(append_digits(x, digits), n + digits.len()) == binary(x, n) + digits,
    decreases digits.len(),
{
    if digits.len() == 0 {
        assert(binary(x, n) + digits =~= binary(x, n));
    } else {
        let front = digits.drop_last();
        lemma_append_digits(x, n, front);
        let y = append_digits(x, front);
        let z = append_digits(x, digits);
        assert(z / 2 == y && (z % 2 == 1) == digits.last());
        assert(binary(x, n) + digits =~= (binary(x, n) + front).push(digits.last()));
    }
}

proof fn lemma_append_eight(x: nat, d: Seq<bool>)
    requires
        d.len() == 8,
    ensures
        append_digits(x, d) == 256 * x + 128 * digit(d[0]) + 64 * digit(d[1]) + 32 * digit(d[2])
            + 16 * digit(d[3]) + 8 * digit(d[4]) + 4 * digit(d[5]) + 2 * digit(d[6]) + digit(d[7]),
{
    reveal_with_fuel(append_digits, 9);
}

spec fn digit(b: bool) -> nat {
    if b {
        1
    } else {
        0
    }
}

/// The last eight digits of a number are the bits of its last byte.
pub(crate) proof fn lemma_binary_byte(x: nat, n: nat)
    ensures
        binary(x, n + 8) == binary(x / 256, n) + bits_of(seq![(x % 256) as u8]),
{
    let b = (x % 256) as u8;
    let d = bits_of(seq![b]);
    lemma_byte_digits(b);
    lemma_append_eight(x / 256, d);
    assert(b == 128 * ((b / 128) % 2) + 64 * ((b / 64) % 2) + 32 * ((b / 32) % 2) + 16 * ((b / 16)
        % 2) + 8 * ((b / 8) % 2) + 4 * ((b / 4) % 2) + 2 * ((b / 2) % 2) + b % 2) by (bit_vector);
    assert(x == 256 * (x / 256) + b);
    lemma_append_digits(x / 256, n, d);
}

/// The bits of a longer byte sequence.
pub(crate) proof fn lemma_bits_of_push(bytes: Seq<u8>, b: u8)
    ensures
        bits_of(bytes.push(b)) == bits_of(bytes) + bits_of(seq![b]),
{
    assert(bits_of(bytes.push(b)) =~= bits_of(bytes) + bits_of(seq![b]));
}

/// The last `n` bytes of a number, most significant byte first.
pub(crate) fn be_bytes(x: u128, n: usize) -> (res: Vec<u8>)
    requires
        0 < n <= 16,
    ensures
        bits_of(res@) == binary(x as nat, (8 * n) as nat),
{
    let mut res: Vec<u8> = Vec::new();
    let mut i: usize = 0;
    let ghost mut top: u128 = 0;
    assert(bits_of(res@) =~= binary(top as nat, 0));
    while i < n
        invariant
            0 < n <= 16,
            i <= n,
            bits_of(res@) == binary(top as nat, (8 * i) as nat),
            i > 0 ==> top == x >> ((8 * (n - i)) as u128),
        decreases n - i,
    {
        let shift: u128 = (8 * (n - 1 - i)) as u128;
        let y: u128 = x >> shift;
        let ghost before = res@;
        res.push((y & 0xff) as u8);
        proof {
            assert(y & 0xff == y % 256) by (bit_vector);
            if i > 0 {
                let more = (shift + 8) as u128;
                assert((x >> shift) / 256 == x >> more) by (bit_vector)
                    requires
                        shift <= 112,
                        more == shift + 8,
                ;
            }
            lemma_binary_byte(y as nat, (8 * i) as nat);
            lemma_bits_of_push(before, (y % 256) as u8);
            assert(i == 0 ==> binary((y / 256) as nat, 0) =~= binary(top as nat, 0));
            top = y;
        }
        i = i + 1;
    }
    assert(x >> 0u128 == x) by (bit_vector);
    res
}

pub(crate) proof fn lemma_or_bit(byte: u8, bit: u8, m: u8, k: u8)
    requires
        m < 8,
        k < 8,
        bit <= 1,
    ensures
        bit_at(byte | (bit << ((7 - m) as u8)), k as int) == (bit_at(byte, k as int) || (k == m
            && bit == 1)),
{
    let s: u8 = (7 - m) as u8;
    let t: u8 = (7 - k) as u8;
    assert((((byte | (bit << s)) >> t) & 1u8 == 1u8) == ((byte >> t) & 1u8 == 1u8 || (s == t && bit
        == 1))) by (bit_vector)
        requires
            s < 8,
            t < 8,
            bit <= 1,
    ;
}

pub(crate) proof fn lemma_clear_bit(byte: u8, m: u8, k: u8)
    requires
        m < 8,
        k < 8,
    ensures
        bit_at(byte & !(1u8 << ((7 - m) as u8)), k as int) == (bit_at(byte, k as int) && k != m),
{
    let s: u8 = (7 - m) as u8;
    let t: u8 = (7 - k) as u8;
    assert((((byte & !(1u8 << s)) >> t) & 1u8 == 1u8) == ((byte >> t) & 1u8 == 1u8 && s != t))
        by (bit_vector)
        requires
            s < 8,
            t < 8,
    ;
}

/// Shifting a byte right by `s` moves its bits and lets in the last bits of the byte before it.
pub(crate) proof fn lemma_shift_bit(prev: u8, cur: u8, s: u8, k: u8)
    requires
        0 < s < 8,
        k < 8,
    ensures
        bit_at((cur >> s) | (prev << ((8 - s) as u8)), k as int) == if k >= s {
            bit_at(cur, k - s)
        } else {
            bit_at(prev, 8 - s + k)
        },
{
    let t: u8 = (7 - k) as u8;
    let r: u8 = (8 - s) as u8;
    if k >= s {
        let u: u8 = (t + s) as u8;
        assert((((cur >> s) | (prev << r)) >> t) & 1u8 == (cur >> u) & 1u8) by (bit_vector)
            requires
                0 < s < 8,
                r == 8 - s,
                u == t + s,
                u < 8,
        ;
    } else {
        let u: u8 = (t - r) as u8;
        assert((((cur >> s) | (prev << r)) >> t) & 1u8 == (prev >> u) & 1u8) by (bit_vector)
            requires
                0 < s < 8,
                r == 8 - s,
                t < 8,
                t >= r,
                u == t - r,
        ;
    }
}

pub(crate) proof fn lemma_zero_byte(i: int)
    requires
        0 <= i < 8,
    ensures
        !bit_at(0, i),
{
    let t: u8 = (7 - i) as u8;
    assert((0u8 >> t) & 1u8 == 0u8) by (bit_vector);
}

/// A byte is determined by its bits.
pub(crate) proof fn lemma_byte_ext(a: u8, b: u8)
    requires
        forall|i: int| 0 <= i < 8 ==> bit_at(a, i) == bit_at(b, i),
    ensures
        a == b,
{
    assert(bit_at(a, 0) == bit_at(b, 0) && bit_at(a, 1) == bit_at(b, 1) && bit_at(a, 2) == bit_at(
        b,
        2,
    ) && bit_at(a, 3) == bit_at(b, 3) && bit_at(a, 4) == bit_at(b, 4) && bit_at(a, 5) == bit_at(
        b,
        5,
    ) && bit_at(a, 6) == bit_at(b, 6) && bit_at(a, 7) == bit_at(b, 7));
    assert(a == b) by (bit_vector)
        requires
            ((a >> 7u8) & 1u8 == 1u8) == ((b >> 7u8) & 1u8 == 1u8),
            ((a >> 6u8) & 1u8 == 1u8) == ((b >> 6u8) & 1u8 == 1u8),
            ((a >> 5u8) & 1u8 == 1u8) == ((b >> 5u8) & 1u8 == 1u8),
            ((a >> 4u8) & 1u8 == 1u8) == ((b >> 4u8) & 1u8 == 1u8),
            ((a >> 3u8) & 1u8 == 1u8) == ((b >> 3u8) & 1u8 == 1u8),
            ((a >> 2u8) & 1u8 == 1u8) == ((b >> 2u8) & 1u8 == 1u8),
            ((a >> 1u8) & 1u8 == 1u8) == ((b >> 1u8) & 1u8 == 1u8),
            ((a >> 0u8) & 1u8 == 1u8) == ((b >> 0u8) & 1u8 == 1u8),
    ;
}

/// Byte sequences with the same bits are equal.
pub proof fn lemma_bits_of_injective(a: Seq<u8>, b: Seq<u8>)
    requires
        bits_of(a) == bits_of(b),
    ensures
        a == b,
{
    assert(bits_of(a).len() == 8 * a.len() && bits_of(b).len() == 8 * b.len());
    assert forall|i: int| 0 <= i < a.len() implies a[i] == b[i] by {
        assert forall|k: int| 0 <= k < 8 implies bit_at(a[i], k) == bit_at(b[i], k) by {
            let j = 8 * i + k;
            assert(j / 8 == i && j % 8 == k);
            assert(bits_of(a)[j] == bit_at(a[i], k));
            assert(bits_of(b)[j] == bit_at(b[i], k));
        }
        lemma_byte_ext(a[i], b[i]);
    }
    assert(a =~= b);
}

/// Shifting left-aligned bits by the number of unused bits aligns them right.
pub(crate) proof fn lemma_realign(bits: Seq<bool>, unused: nat)
    requires
        unused == (8 - bits.len() % 8) % 8,
    ensures
        (zeros(unused) + left_aligned(bits)).take(left_aligned(bits).len() as int)
            == right_aligned(bits),
{
    assert(8 * bytes_for(bits.len()) - bits.len() == unused);
    assert((zeros(unused) + left_aligned(bits)).take(left_aligned(bits).len() as int)
        =~= right_aligned(bits));
}

/// The number of bytes that hold `n` bits.
pub(crate) fn byte_len(n: usize) -> (res: usize)
    ensures
        res == bytes_for(n as nat),
{
    n / 8 + (if n % 8 == 0 {
        0
    } else {
        1
    })
}

/// Read the bit at position `pos`.
pub(crate) fn get_bit(data: &[u8], pos: usize) -> (res: bool)
    requires
        pos < 8 * data@.len(),
    ensures
        res == bits_of(data@)[pos as int],
{
    (data[pos / 8] >> (7 - pos % 8)) & 1 == 1
}

/// Set the bit at position `pos` to `val`.
pub(crate) fn set_bit(data: &mut Vec<u8>, pos: usize, val: bool)
    requires
        pos < 8 * old(data)@.len(),
    ensures
        final(data)@.len() == old(data)@.len(),
        bits_of(final(data)@) == bits_of(old(data)@).update(pos as int, val),
{
    let ghost before = data@;
    let m: u8 = (pos % 8) as u8;
    let mask: u8 = 1u8 << (7 - m);
    if val {
        data[pos / 8] = data[pos / 8] | mask;
    } else {
        data[pos / 8] = data[pos / 8] & !mask;
    }
    proof {
        let want = bits_of(before).update(pos as int, val);
        assert forall|i: int| 0 <= i < want.len() implies bits_of(data@)[i] == want[i] by {
            lemma_or_bit(before[i / 8], 1, m, (i % 8) as u8);
            lemma_clear_bit(before[i / 8], m, (i % 8) as u8);
        }
        assert(bits_of(data@) =~= want);
    }
}

/// Copy `nbits` bits from `src`, starting at bit-offset `src_offset`,
/// into `dst`, starting at bit-offset `dst_offset`.
///
/// Bits that are already set in `dst` stay set.
pub(crate) fn copy_bits(
    src: &[u8],
    src_offset: usize,
    dst: &mut Vec<u8>,
    dst_offset: usize,
    nbits: usize,
)
    requires
        src_offset + nbits <= 8 * src@.len(),
        src_offset + nbits <= usize::MAX,
        dst_offset + nbits <= 8 * old(dst)@.len(),
        dst_offset + nbits <= usize::MAX,
    ensures
        final(dst)@.len() == old(dst)@.len(),
        forall|i: int|
            0 <= i < 8 * old(dst)@.len() ==> #[trigger] bits_of(final(dst)@)[i] == (bits_of(
                old(dst)@,
            )[i] || (dst_offset <= i < dst_offset + nbits && bits_of(src@)[i - dst_offset
                + src_offset])),
{
    let ghost before = dst@;
    let mut i: usize = 0;
    while i < nbits
        invariant
            i <= nbits,
            src_offset + nbits <= 8 * src@.len(),
            src_offset + nbits <= usize::MAX,
            dst_offset + nbits <= 8 * before.len(),
            dst_offset + nbits <= usize::MAX,
            dst@.len() == before.len(),
            forall|j: int|
                0 <= j < 8 * before.len() ==> #[trigger] bits_of(dst@)[j] == (bits_of(before)[j]
                    || (dst_offset <= j < dst_offset + i && bits_of(src@)[j - dst_offset
                    + src_offset])),
        decreases nbits - i,
    {
        let from: usize = src_offset + i;
        let to: usize = dst_offset + i;
        let bit: u8 = (src[from / 8] >> (7 - from % 8)) & 1;
        let m: u8 = (to % 8) as u8;
        let ghost step = dst@;
        dst[to / 8] = dst[to / 8] | (bit << (7 - m));
        proof {
            let byte = src@[from as int / 8];
            let t: u8 = (7 - from % 8) as u8;
            assert((byte >> t) & 1u8 <= 1u8) by (bit_vector);
            assert forall|j: int| 0 <= j < 8 * before.len() implies #[trigger] bits_of(dst@)[j] == (
            bits_of(before)[j] || (dst_offset <= j < dst_offset + i + 1 && bits_of(src@)[j
                - dst_offset + src_offset])) by {
                assert(bits_of(step)[j] == bit_at(step[j / 8], j % 8));
                lemma_or_bit(step[j / 8], bit, m, (j % 8) as u8);
            }
        }
        i = i + 1;
    }
}

/// Shift all bits towards the end by less than a byte. Zeros move in at the front.
pub(crate) fn shift_right(bitmap: &mut Vec<u8>, shift: usize)
    requires
        shift < 8,
    ensures
        final(bitmap)@.len() == old(bitmap)@.len(),
        bits_of(final(bitmap)@) == (zeros(shift as nat) + bits_of(old(bitmap)@)).take(
            bits_of(old(bitmap)@).len() as int,
        ),
{
    let ghost before = bitmap@;
    if shift == 0 {
        assert(bits_of(bitmap@) =~= (zeros(0) + bits_of(before)).take(
            bits_of(before).len() as int,
        ));
        return ;
    }
    let s: u8 = shift as u8;
    let mut prev: u8 = 0;
    let mut i: usize = 0;
    while i < bitmap.len()
        invariant
            0 < s < 8,
            i <= bitmap@.len(),
            bitmap@.len() == before.len(),
            prev == if i == 0 {
                0
            } else {
                before[i - 1]
            },
            forall|j: int| i <= j < before.len() ==> bitmap@[j] == before[j],
            forall|j: int|
                0 <= j < i ==> #[trigger] bitmap@[j] == (before[j] >> s) | ((if j == 0 {
                    0u8
                } else {
                    before[j - 1]
                }) << ((8 - s) as u8)),
        decreases bitmap@.len() - i,
    {
        let cur: u8 = bitmap[i];
        bitmap[i] = (cur >> s) | (prev << (8 - s));
        prev = cur;
        i = i + 1;
    }
    proof {
        let want = (zeros(shift as nat) + bits_of(before)).take(bits_of(before).len() as int);
        assert forall|j: int| 0 <= j < want.len() implies bits_of(bitmap@)[j] == want[j] by {
            let p: u8 = if j / 8 == 0 {
                0u8
            } else {
                before[j / 8 - 1]
            };
            lemma_shift_bit(p, before[j / 8], s, (j % 8) as u8);
            assert(bitmap@[j / 8] == (before[j / 8] >> s) | (p << ((8 - s) as u8)));
            if j < shift {
                lemma_zero_byte(8 - s + j % 8);
            } else {
                assert(want[j] == bits_of(before)[j - shift]);
            }
        }
        assert(bits_of(bitmap@) =~= want);
    }
}

/// Append a bit to a buffer that holds `bit_len` bits, followed by zeros up to the next byte.
pub(crate) fn push_bit(bit: bool, bit_len: &mut usize, buffer: &mut Vec<u8>)
    requires
        *old(bit_len) < usize::MAX,
        *old(bit_len) <= bits_of(old(buffer)@).len(),
        bits_of(old(buffer)@) == left_aligned(bits_of(old(buffer)@).take(*old(bit_len) as int)),
    ensures
        *final(bit_len) == *old(bit_len) + 1,
        bits_of(final(buffer)@) == left_aligned(
            bits_of(old(buffer)@).take(*old(bit_len) as int).push(bit),
        ),
{
    let ghost before = buffer@;
    let ghost bits = bits_of(buffer@).take(*bit_len as int);
    let n: usize = *bit_len;
    assert(before.len() == bytes_for(n as nat));
    if n % 8 == 0 {
        buffer.push(0);
    }
    let ghost grown = buffer@;
    proof {
        assert forall|i: int| 0 <= i < 8 * grown.len() implies #[trigger] bits_of(grown)[i] == (i
            < n && bits[i]) by {
            if i / 8 < before.len() {
                assert(bits_of(grown)[i] == bits_of(before)[i]);
                assert(bits_of(before)[i] == left_aligned(bits)[i]);
            } else {
                lemma_zero_byte(i % 8);
            }
        }
    }
    if bit {
        let last: usize = buffer.len() - 1;
        let m: u8 = (n % 8) as u8;
        buffer[last] = buffer[last] | (1u8 << (7 - m));
        proof {
            assert forall|i: int| 0 <= i < 8 * grown.len() implies #[trigger] bits_of(buffer@)[i]
                == (bits_of(grown)[i] || i == n) by {
                lemma_or_bit(grown[i / 8], 1, m, (i % 8) as u8);
            }
        }
    }
    *bit_len = n + 1;
    assert(bits_of(buffer@) =~= left_aligned(bits.push(bit)));
}

} // verus!
