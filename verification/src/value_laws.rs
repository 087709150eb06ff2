//! # Laws of values
//!
//! What calls of the functions on values give, one in terms of the other.
//! `call_ensures(f, args, res)` reads: a call of `f` with these arguments can give `res`.
use crate::bits::{
    binary, bit_at, bits_of, lemma_binary_byte, lemma_binary_len, lemma_bits_of_injective,
    lemma_bits_of_push,
};
use crate::laws::{full_words_hold_their_buffer, integers_hold_their_digits};
use crate::model::{lemma_bits_determine, Val};
use crate::storage::Stored;
use crate::types::{Final, Ty};
use crate::value_compact::{ValueCompact, ValueRef};
use std::sync::Arc;
use vstd::arithmetic::power2::{lemma2_to64, lemma_pow2_pos, lemma_pow2_unfold, pow2};
use vstd::prelude::*;

verus! {

/// The bits of the value, as they are listed by [`ValueRef::iter_bits`], are the given ones.
pub open spec fn ref_has_bits(value: ValueRef<'_>, bits: Seq<bool>) -> bool {
    exists|list: Vec<bool>| #[trigger]
        call_ensures(ValueRef::iter_bits, (&value,), list) && list@ == bits
}

/// The bits of the value, as they are listed by [`ValueRef::iter_bits`], are the given ones.
pub open spec fn has_bits(value: ValueCompact, bits: Seq<bool>) -> bool {
    exists|whole: ValueRef<'_>| #[trigger]
        call_ensures(ValueCompact::as_ref, (&value,), whole) && ref_has_bits(whole, bits)
}

/// Bit `i` of the bytes is the given one, counted from the most significant bit of the first byte.
pub open spec fn byte_bit(bytes: Seq<u8>, i: int) -> bool {
    (bytes[i / 8] as nat / pow2((7 - i % 8) as nat)) % 2 == 1
}

proof fn lemma_ref_bits(value: ValueRef<'_>, bits: Seq<bool>)
    requires
        ref_has_bits(value, bits),
    ensures
        bits == value@.val.bits(),
{
}

pub(crate) proof fn lemma_bits(value: ValueCompact, bits: Seq<bool>)
    requires
        has_bits(value, bits),
    ensures
        bits == value@.val.bits(),
{
}

pub(crate) proof fn lemma_byte_bit(bytes: Seq<u8>, i: int)
    requires
        0 <= i < 8 * bytes.len(),
    ensures
        bits_of(bytes)[i] == byte_bit(bytes, i),
{
    let b = bytes[i / 8];
    lemma2_to64();
    assert((b >> 7u8) & 1 == (b / 128) % 2 && (b >> 6u8) & 1 == (b / 64) % 2 && (b >> 5u8) & 1 == (b
        / 32) % 2 && (b >> 4u8) & 1 == (b / 16) % 2 && (b >> 3u8) & 1 == (b / 8) % 2 && (b >> 2u8)
        & 1 == (b / 4) % 2 && (b >> 1u8) & 1 == (b / 2) % 2 && (b >> 0u8) & 1 == b % 2)
        by (bit_vector);
    assert(bits_of(bytes)[i] == bit_at(b, i % 8));
    assert(bit_at(b, 0) == ((b / 128) % 2 == 1) && bit_at(b, 1) == ((b / 64) % 2 == 1) && bit_at(
        b,
        2,
    ) == ((b / 32) % 2 == 1) && bit_at(b, 3) == ((b / 16) % 2 == 1) && bit_at(b, 4) == ((b / 8) % 2
        == 1) && bit_at(b, 5) == ((b / 4) % 2 == 1) && bit_at(b, 6) == ((b / 2) % 2 == 1) && bit_at(
        b,
        7,
    ) == (b % 2 == 1));
    assert(pow2(7) == 128 && pow2(6) == 64 && pow2(5) == 32 && pow2(4) == 16 && pow2(3) == 8
        && pow2(2) == 4 && pow2(1) == 2 && pow2(0) == 1);
    let k = i % 8;
    let d = pow2((7 - k) as nat);
    assert(byte_bit(bytes, i) == ((b as nat / d) % 2 == 1));
    if k == 0 {
        assert(d == 128);
        assert(b as nat / d == b / 128);
        assert(bits_of(bytes)[i] == ((b / 128) % 2 == 1));
    } else if k == 1 {
        assert(d == 64);
        assert(b as nat / d == b / 64);
        assert(bits_of(bytes)[i] == ((b / 64) % 2 == 1));
    } else if k == 2 {
        assert(d == 32);
        assert(b as nat / d == b / 32);
        assert(bits_of(bytes)[i] == ((b / 32) % 2 == 1));
    } else if k == 3 {
        assert(d == 16);
        assert(b as nat / d == b / 16);
        assert(bits_of(bytes)[i] == ((b / 16) % 2 == 1));
    } else if k == 4 {
        assert(d == 8);
        assert(b as nat / d == b / 8);
        assert(bits_of(bytes)[i] == ((b / 8) % 2 == 1));
    } else if k == 5 {
        assert(d == 4);
        assert(b as nat / d == b / 4);
        assert(bits_of(bytes)[i] == ((b / 4) % 2 == 1));
    } else if k == 6 {
        assert(d == 2);
        assert(b as nat / d == b / 2);
        assert(bits_of(bytes)[i] == ((b / 2) % 2 == 1));
    } else {
        assert(d == 1);
        assert(b as nat / d == b / 1);
        assert(bits_of(bytes)[i] == ((b / 1) % 2 == 1));
    }
}

// ---------------------------------------------------------------------------
// Construction
// ---------------------------------------------------------------------------

/// The unit value has no bits and no buffer.
pub proof fn unit_value_is_empty(v: ValueCompact, bits: Seq<bool>)
    requires
        call_ensures(ValueCompact::unit, (), v),
        has_bits(v, bits),
    ensures
        v@.ty is Unit,
        bits.len() == 0,
        v@.raw.len() == 0,
{
    lemma_bits(v, bits);
}

/// A left value has a zero in front of the bits of its inner value. Its type has the type of the
/// inner value on the left.
pub proof fn left_puts_a_zero_in_front(
    inner: ValueCompact,
    right: Arc<Final>,
    v: ValueCompact,
    inner_bits: Seq<bool>,
    bits: Seq<bool>,
)
    requires
        call_ensures(ValueCompact::left, (inner, right), v),
        has_bits(inner, inner_bits),
        has_bits(v, bits),
    ensures
        v@.ty == Ty::Sum(Box::new(inner@.ty), Box::new(right@)),
        v@.val == Val::Left(Box::new(inner@.val)),
        bits == seq![false] + inner_bits,
{
    lemma_bits(inner, inner_bits);
    lemma_bits(v, bits);
}

/// A right value has a one in front of the bits of its inner value. Its type has the type of the
/// inner value on the right.
pub proof fn right_puts_a_one_in_front(
    left: Arc<Final>,
    inner: ValueCompact,
    v: ValueCompact,
    inner_bits: Seq<bool>,
    bits: Seq<bool>,
)
    requires
        call_ensures(ValueCompact::right, (left, inner), v),
        has_bits(inner, inner_bits),
        has_bits(v, bits),
    ensures
        v@.ty == Ty::Sum(Box::new(left@), Box::new(inner@.ty)),
        v@.val == Val::Right(Box::new(inner@.val)),
        bits == seq![true] + inner_bits,
{
    lemma_bits(inner, inner_bits);
    lemma_bits(v, bits);
}

/// A product has the bits of its left value, followed by those of its right value.
pub proof fn product_joins_the_bits(
    left: ValueCompact,
    right: ValueCompact,
    v: ValueCompact,
    left_bits: Seq<bool>,
    right_bits: Seq<bool>,
    bits: Seq<bool>,
)
    requires
        call_ensures(ValueCompact::product, (left, right), v),
        has_bits(left, left_bits),
        has_bits(right, right_bits),
        has_bits(v, bits),
    ensures
        v@.ty == Ty::Product(Box::new(left@.ty), Box::new(right@.ty)),
        v@.val == Val::Pair(Box::new(left@.val), Box::new(right@.val)),
        bits == left_bits + right_bits,
{
    lemma_bits(left, left_bits);
    lemma_bits(right, right_bits);
    lemma_bits(v, bits);
}

/// A none value is a single zero, of a type that has the unit type on the left.
pub proof fn none_is_a_zero(right: Arc<Final>, v: ValueCompact, bits: Seq<bool>)
    requires
        call_ensures(ValueCompact::none, (right,), v),
        has_bits(v, bits),
    ensures
        v@.ty == Ty::Sum(Box::new(Ty::Unit), Box::new(right@)),
        bits == seq![false],
{
    lemma_bits(v, bits);
    assert(bits =~= seq![false]);
}

/// A some value is a one in front of the bits of its inner value, of a type that has the unit type
/// on the left.
pub proof fn some_puts_a_one_in_front(
    inner: ValueCompact,
    v: ValueCompact,
    inner_bits: Seq<bool>,
    bits: Seq<bool>,
)
    requires
        call_ensures(ValueCompact::some, (inner,), v),
        has_bits(inner, inner_bits),
        has_bits(v, bits),
    ensures
        v@.ty == Ty::Sum(Box::new(Ty::Unit), Box::new(inner@.ty)),
        v@.val == Val::Right(Box::new(inner@.val)),
        bits == seq![true] + inner_bits,
{
    lemma_bits(inner, inner_bits);
    lemma_bits(v, bits);
}

// ---------------------------------------------------------------------------
// Buffers
// ---------------------------------------------------------------------------

/// The bit of a buffer that has the given number of bits after it.
pub open spec fn from_end(raw: Seq<bool>, after: int) -> bool {
    raw[raw.len() - 1 - after]
}

/// The tag of a sum goes right in front of the bits of the inner value. All other bits of the
/// buffer stay as they are. A buffer without room for the tag gets one more byte, of zeros.
pub open spec fn is_tagged(v: ValueCompact, inner: ValueCompact, size: nat, tag: bool) -> bool {
    &&& inner@.raw.len() > size ==> v@.raw.len() == inner@.raw.len()
    &&& inner@.raw.len() <= size ==> v@.raw.len() == inner@.raw.len() + 8
    &&& from_end(v@.raw, size as int) == tag
    &&& forall|i: int|
        0 <= i < inner@.raw.len() && i != size ==> #[trigger] from_end(v@.raw, i) == from_end(
            inner@.raw,
            i,
        )
    &&& forall|i: int|
        inner@.raw.len() <= i < v@.raw.len() && i != size ==> !(#[trigger] from_end(v@.raw, i))
}

/// Wrapping a value on the left changes its buffer only in the tag.
pub proof fn left_changes_one_bit(
    inner: ValueCompact,
    size: usize,
    right: Arc<Final>,
    v: ValueCompact,
)
    requires
        inner.inv(),
        call_ensures(ValueCompact::len, (&inner,), size),
        call_ensures(ValueCompact::left, (inner, right), v),
    ensures
        is_tagged(v, inner, size as nat, false),
{
}

/// Wrapping a value on the right changes its buffer only in the tag.
pub proof fn right_changes_one_bit(
    inner: ValueCompact,
    size: usize,
    left: Arc<Final>,
    v: ValueCompact,
)
    requires
        inner.inv(),
        call_ensures(ValueCompact::len, (&inner,), size),
        call_ensures(ValueCompact::right, (left, inner), v),
    ensures
        is_tagged(v, inner, size as nat, true),
{
}

/// Wrapping a value as a some value changes its buffer only in the tag.
pub proof fn some_changes_one_bit(inner: ValueCompact, size: usize, v: ValueCompact)
    requires
        inner.inv(),
        call_ensures(ValueCompact::len, (&inner,), size),
        call_ensures(ValueCompact::some, (inner,), v),
    ensures
        is_tagged(v, inner, size as nat, true),
{
}

/// A none value takes a single byte, of zeros.
pub proof fn none_takes_a_byte(right: Arc<Final>, v: ValueCompact)
    requires
        call_ensures(ValueCompact::none, (right,), v),
    ensures
        v@.raw.len() == 8,
        is_snug(v, 1),
{
}

/// The buffer holds just the value: whole bytes, as few as can be, with zeros in front of the bits of
/// the value.
pub open spec fn is_snug(v: ValueCompact, size: nat) -> bool {
    &&& v@.raw.len() % 8 == 0
    &&& size <= v@.raw.len() < size + 8
    &&& forall|i: int| size <= i < v@.raw.len() ==> !(#[trigger] from_end(v@.raw, i))
}

/// A product has a buffer of its own, which holds just the value. Where one part has no bits, the
/// buffer of the other one is kept.
pub proof fn products_join_buffers(
    left: ValueCompact,
    left_size: usize,
    right: ValueCompact,
    right_size: usize,
    v: ValueCompact,
)
    requires
        left.inv(),
        right.inv(),
        call_ensures(ValueCompact::len, (&left,), left_size),
        call_ensures(ValueCompact::len, (&right,), right_size),
        call_ensures(ValueCompact::product, (left, right), v),
    ensures
        left_size == 0 && right_size == 0 ==> v@.raw.len() == 0,
        left_size > 0 && right_size == 0 ==> v@.raw == left@.raw,
        left_size == 0 && right_size > 0 ==> v@.raw == right@.raw,
        left_size > 0 && right_size > 0 ==> is_snug(v, (left_size + right_size) as nat),
{
}

/// The number of bits is that of the listed bits. The buffer has whole bytes and ends with the bits
/// of the value.
pub proof fn values_end_their_buffers(
    v: ValueCompact,
    size: usize,
    raw_len: usize,
    ty: &Final,
    bits: Seq<bool>,
)
    requires
        v.inv(),
        call_ensures(ValueCompact::len, (&v,), size),
        call_ensures(ValueCompact::raw_len, (&v,), raw_len),
        call_ensures(ValueCompact::ty, (&v,), ty),
        has_bits(v, bits),
    ensures
        ty@ == v@.ty,
        size == bits.len(),
        raw_len == v@.raw.len(),
        raw_len % 8 == 0,
        raw_len >= size,
        bits == v@.raw.skip(raw_len - size),
{
    lemma_bits(v, bits);
}

/// The raw bytes are the last bytes of the buffer, as few as hold the value. The bits of the value
/// are the last bits of these bytes, most significant bit first.
pub proof fn raw_bytes_hold_the_bits(v: ValueCompact, bytes: &[u8], bits: Seq<bool>)
    requires
        v.inv(),
        call_ensures(ValueCompact::raw_bytes, (&v,), bytes),
        has_bits(v, bits),
    ensures
        bits.len() <= 8 * bytes@.len() < bits.len() + 8,
        forall|i: int|
            0 <= i < bits.len() ==> #[trigger] bits[i] == byte_bit(
                bytes@,
                8 * bytes@.len() - bits.len() + i,
            ),
        forall|i: int|
            0 <= i < 8 * bytes@.len() ==> #[trigger] byte_bit(bytes@, i) == from_end(
                v@.raw,
                8 * bytes@.len() - 1 - i,
            ),
{
    lemma_bits(v, bits);
    let raw = v@.raw;
    assert(bits_of(bytes@).len() == 8 * bytes@.len());
    assert forall|i: int| 0 <= i < 8 * bytes@.len() implies #[trigger] byte_bit(bytes@, i)
        == from_end(raw, 8 * bytes@.len() - 1 - i) by {
        lemma_byte_bit(bytes@, i);
        assert(bits_of(bytes@)[i] == v@.raw_bytes()[i]);
    }
    assert forall|i: int| 0 <= i < bits.len() implies #[trigger] bits[i] == byte_bit(
        bytes@,
        8 * bytes@.len() - bits.len() + i,
    ) by {
        assert(raw.skip(raw.len() - bits.len())[i] == bits[i]);
    }
}

/// Copies are the same value of the same type in the same buffer.
pub proof fn copies_are_the_same(v: ValueCompact, shallow: ValueCompact, clone: ValueCompact)
    requires
        call_ensures(ValueCompact::shallow_clone, (&v,), shallow),
        call_ensures(<ValueCompact as Clone>::clone, (&v,), clone),
    ensures
        shallow@.ty == v@.ty && shallow@.val == v@.val && shallow@.raw == v@.raw,
        clone@.ty == v@.ty && clone@.val == v@.val && clone@.raw == v@.raw,
{
}

// ---------------------------------------------------------------------------
// Access
// ---------------------------------------------------------------------------

/// A value can be taken apart as a left value exactly if it is of a sum type and its first bit is
/// zero, and as a right value exactly if that bit is one. The inner value has the remaining bits.
pub proof fn first_bit_is_unwrapped(
    r: ValueRef<'_>,
    bits: Seq<bool>,
    left: Option<ValueRef<'_>>,
    right: Option<ValueRef<'_>>,
)
    requires
        r.inv(),
        ref_has_bits(r, bits),
        call_ensures(ValueRef::as_left, (&r,), left),
        call_ensures(ValueRef::as_right, (&r,), right),
    ensures
        r@.ty is Sum ==> bits.len() > 0,
        left is Some <==> r@.ty is Sum && !bits[0],
        right is Some <==> r@.ty is Sum && bits[0],
        left matches Some(inner) ==> {
            &&& r@.ty matches Ty::Sum(a, _) && inner@.ty == *a
            &&& r@.val == Val::Left(Box::new(inner@.val))
            &&& inner@.raw == r@.raw
            &&& inner@.offset == r@.offset + 1
            &&& forall|more: Seq<bool>| #[trigger]
                ref_has_bits(inner, more) ==> more == bits.skip(1)
        },
        right matches Some(inner) ==> {
            &&& r@.ty matches Ty::Sum(_, b) && inner@.ty == *b
            &&& r@.val == Val::Right(Box::new(inner@.val))
            &&& inner@.raw == r@.raw
            &&& inner@.offset == r@.offset + 1
            &&& forall|more: Seq<bool>| #[trigger]
                ref_has_bits(inner, more) ==> more == bits.skip(1)
        },
{
    lemma_ref_bits(r, bits);
    if let Some(inner) = left {
        assert(bits == seq![false] + inner@.val.bits());
        assert(bits.skip(1) =~= inner@.val.bits());
    }
    if let Some(inner) = right {
        assert(bits == seq![true] + inner@.val.bits());
        assert(bits.skip(1) =~= inner@.val.bits());
    }
}

/// A value can be taken apart as a product exactly if it is of a product type. Its bits are those of
/// the left part, followed by those of the right part.
pub proof fn parts_are_unwrapped(
    r: ValueRef<'_>,
    bits: Seq<bool>,
    product: Option<(ValueRef<'_>, ValueRef<'_>)>,
)
    requires
        r.inv(),
        ref_has_bits(r, bits),
        call_ensures(ValueRef::as_product, (&r,), product),
    ensures
        product is Some <==> r@.ty is Product,
        product matches Some((left, right)) ==> {
            &&& r@.ty == Ty::Product(Box::new(left@.ty), Box::new(right@.ty))
            &&& r@.val == Val::Pair(Box::new(left@.val), Box::new(right@.val))
            &&& left@.raw == r@.raw
            &&& right@.raw == r@.raw
            &&& left@.offset == r@.offset
            &&& forall|front: Seq<bool>, back: Seq<bool>| #[trigger]
                ref_has_bits(left, front) && #[trigger] ref_has_bits(right, back) ==> bits == front
                    + back && right@.offset == r@.offset + front.len()
        },
{
    lemma_ref_bits(r, bits);
}

/// A reference has as many bits as are listed, and they lie in the buffer from its offset on. It is
/// a unit exactly if its type is the unit type.
pub proof fn references_point_to_bits(
    r: ValueRef<'_>,
    bits: Seq<bool>,
    len: usize,
    is_unit: bool,
)
    requires
        r.inv(),
        ref_has_bits(r, bits),
        call_ensures(ValueRef::len, (&r,), len),
        call_ensures(ValueRef::is_unit, (&r,), is_unit),
    ensures
        len == bits.len(),
        r@.offset + bits.len() <= r@.raw.len(),
        bits == r@.raw.subrange(r@.offset as int, (r@.offset + bits.len()) as int),
        is_unit == (r@.ty is Unit),
{
    lemma_ref_bits(r, bits);
}

/// A reference to a whole value has its type, its bits and its buffer, and converts back to it.
pub proof fn references_convert_back(v: ValueCompact, r: ValueRef<'_>, back: ValueCompact)
    requires
        v.inv(),
        call_ensures(ValueCompact::as_ref, (&v,), r),
        call_ensures(ValueRef::to_value, (&r,), back),
    ensures
        r@.ty == v@.ty && r@.val == v@.val && r@.raw == v@.raw,
        r@.offset + v@.val.bits().len() == v@.raw.len(),
        back@.ty == v@.ty && back@.val == v@.val && back@.raw == v@.raw,
{
}

/// A part of a value converts to a value of the same type with the same bits. It keeps the buffer if
/// it lies at the end; otherwise it gets one that holds just the value.
pub proof fn parts_convert_to_values(
    r: ValueRef<'_>,
    v: ValueCompact,
    part_bits: Seq<bool>,
    bits: Seq<bool>,
)
    requires
        r.inv(),
        call_ensures(ValueRef::to_value, (&r,), v),
        ref_has_bits(r, part_bits),
        has_bits(v, bits),
    ensures
        v@.ty == r@.ty,
        v@.val == r@.val,
        bits == part_bits,
        r@.offset + bits.len() == r@.raw.len() ==> v@.raw == r@.raw,
        r@.offset + bits.len() != r@.raw.len() ==> is_snug(v, bits.len()),
{
    lemma_ref_bits(r, part_bits);
    lemma_bits(v, bits);
}

/// The inner value of a left value is equal to the value that was wrapped.
pub proof fn unwrapped_left_values_are_equal(
    inner: ValueCompact,
    other: Arc<Final>,
    v: ValueCompact,
    whole: ValueRef<'_>,
    part: Option<ValueRef<'_>>,
    back: ValueCompact,
    equal: bool,
)
    requires
        call_ensures(ValueCompact::left, (inner, other), v),
        call_ensures(ValueCompact::as_ref, (&v,), whole),
        call_ensures(ValueRef::as_left, (&whole,), part),
        part is Some ==> call_ensures(ValueRef::to_value, (&part->0,), back),
        call_ensures(<ValueCompact as PartialEq>::eq, (&inner, &back), equal),
    ensures
        part is Some,
        equal,
{
}

/// The inner value of a right value is equal to the value that was wrapped.
pub proof fn unwrapped_right_values_are_equal(
    inner: ValueCompact,
    other: Arc<Final>,
    v: ValueCompact,
    whole: ValueRef<'_>,
    part: Option<ValueRef<'_>>,
    back: ValueCompact,
    equal: bool,
)
    requires
        call_ensures(ValueCompact::right, (other, inner), v),
        call_ensures(ValueCompact::as_ref, (&v,), whole),
        call_ensures(ValueRef::as_right, (&whole,), part),
        part is Some ==> call_ensures(ValueRef::to_value, (&part->0,), back),
        call_ensures(<ValueCompact as PartialEq>::eq, (&inner, &back), equal),
    ensures
        part is Some,
        equal,
{
}

/// The parts of a product are equal to the values that were paired.
pub proof fn unwrapped_parts_are_equal(
    left: ValueCompact,
    right: ValueCompact,
    v: ValueCompact,
    whole: ValueRef<'_>,
    parts: Option<(ValueRef<'_>, ValueRef<'_>)>,
    left_back: ValueCompact,
    right_back: ValueCompact,
    left_equal: bool,
    right_equal: bool,
)
    requires
        call_ensures(ValueCompact::product, (left, right), v),
        call_ensures(ValueCompact::as_ref, (&v,), whole),
        call_ensures(ValueRef::as_product, (&whole,), parts),
        parts matches Some((l, r)) ==> {
            &&& call_ensures(ValueRef::to_value, (&l,), left_back)
            &&& call_ensures(ValueRef::to_value, (&r,), right_back)
        },
        call_ensures(<ValueCompact as PartialEq>::eq, (&left, &left_back), left_equal),
        call_ensures(<ValueCompact as PartialEq>::eq, (&right, &right_back), right_equal),
    ensures
        parts is Some,
        left_equal,
        right_equal,
{
}

// ---------------------------------------------------------------------------
// Equality
// ---------------------------------------------------------------------------

/// Two values are equal exactly if they have the same type and the same bits.
pub proof fn equality_compares_type_and_bits(
    a: ValueCompact,
    b: ValueCompact,
    equal: bool,
    a_bits: Seq<bool>,
    b_bits: Seq<bool>,
)
    requires
        a.inv(),
        b.inv(),
        call_ensures(<ValueCompact as PartialEq>::eq, (&a, &b), equal),
        has_bits(a, a_bits),
        has_bits(b, b_bits),
    ensures
        equal <==> a@.ty == b@.ty && a_bits == b_bits,
        equal <==> a@.ty == b@.ty && a@.val == b@.val,
{
    lemma_bits(a, a_bits);
    lemma_bits(b, b_bits);
    if a@.ty == b@.ty && a_bits == b_bits {
        lemma_bits_determine(a@.val, b@.val, a@.ty);
    }
}

// ---------------------------------------------------------------------------
// Integers
// ---------------------------------------------------------------------------

/// The bits are the last binary digits of a number, most significant digit first.
pub open spec fn are_digits(bits: Seq<bool>, x: nat) -> bool {
    forall|i: int|
        0 <= i < bits.len() ==> #[trigger] bits[i] == ((x / pow2((bits.len() - 1 - i) as nat)) % 2
            == 1)
}

/// The bytes are the last bytes of a number, most significant byte first.
pub open spec fn are_bytes(bytes: Seq<u8>, x: nat) -> bool {
    forall|i: int|
        0 <= i < bytes.len() ==> #[trigger] bytes[i] == (x / pow2(
            (8 * (bytes.len() - 1 - i)) as nat,
        )) % 256
}

/// The value is of type `2^(2^n)`. Its bits are the binary digits of the number, and its raw bytes
/// are the bytes of the number. The buffer holds just the value.
pub open spec fn spells(v: ValueCompact, n: nat, x: nat) -> bool {
    &&& v@.ty == Ty::word(n)
    &&& forall|bits: Seq<bool>| #[trigger]
        has_bits(v, bits) ==> bits.len() == pow2(n) && are_digits(bits, x)
    &&& forall|bytes: &[u8]| #[trigger]
        call_ensures(ValueCompact::raw_bytes, (&v,), bytes) ==> pow2(n) <= 8 * bytes@.len() < pow2(
            n,
        ) + 8 && are_bytes(bytes@, x)
    &&& is_snug(v, pow2(n))
}

proof fn lemma_digits(x: nat, n: nat)
    ensures
        binary(x, n).len() == n,
        are_digits(binary(x, n), x),
    decreases n,
{
    lemma_binary_len(x, n);
    let bits = binary(x, n);
    lemma2_to64();
    if n > 0 {
        lemma_digits(x / 2, (n - 1) as nat);
        let front = binary(x / 2, (n - 1) as nat);
        assert forall|i: int| 0 <= i < n implies #[trigger] bits[i] == ((x / pow2(
            (n - 1 - i) as nat,
        )) % 2 == 1) by {
            if i < n - 1 {
                let k = (n - 1 - i) as nat;
                let d = pow2((k - 1) as nat);
                assert(bits[i] == front[i]);
                lemma_pow2_unfold(k);
                lemma_pow2_pos((k - 1) as nat);
                vstd::arithmetic::div_mod::lemma_div_denominator(x as int, 2, d as int);
                assert(front.len() - 1 - i == k - 1);
                assert(front[i] == (((x / 2) / d) % 2 == 1));
                assert((x / 2) / d == x / pow2(k));
            } else {
                assert((n - 1 - i) as nat == 0);
                assert(x / pow2(0) == x) by {
                    vstd::arithmetic::div_mod::lemma_div_basics(x as int);
                }
            }
        }
    }
}

proof fn lemma_bytes(x: nat, bytes: Seq<u8>)
    requires
        bits_of(bytes) == binary(x, 8 * bytes.len()),
    ensures
        are_bytes(bytes, x),
    decreases bytes.len(),
{
    let n = bytes.len();
    lemma2_to64();
    if n > 0 {
        let front = bytes.drop_last();
        let last = bytes.last();
        let b = (x % 256) as u8;
        lemma_bits_of_push(front, last);
        assert(front.push(last) =~= bytes);
        lemma_binary_byte(x, (8 * (n - 1)) as nat);
        lemma_binary_len(x / 256, (8 * (n - 1)) as nat);
        assert(bits_of(front).len() == 8 * (n - 1));
        let all = bits_of(bytes);
        assert(all.take(8 * (n - 1)) =~= bits_of(front));
        assert(all.take(8 * (n - 1)) =~= binary(x / 256, (8 * (n - 1)) as nat));
        assert(all.skip(8 * (n - 1)) =~= bits_of(seq![last]));
        assert(all.skip(8 * (n - 1)) =~= bits_of(seq![b]));
        lemma_bits_of_injective(seq![last], seq![b]);
        assert(seq![last][0] == seq![b][0]);
        lemma_bytes(x / 256, front);
        assert forall|i: int| 0 <= i < n implies #[trigger] bytes[i] == (x / pow2(
            (8 * (n - 1 - i)) as nat,
        )) % 256 by {
            if i < n - 1 {
                let k = (8 * (n - 2 - i)) as nat;
                assert(bytes[i] == front[i]);
                vstd::arithmetic::power2::lemma_pow2_adds(8, k);
                lemma_pow2_pos(k);
                assert(pow2((8 * (n - 1 - i)) as nat) == 256 * pow2(k));
                vstd::arithmetic::div_mod::lemma_div_denominator(x as int, 256, pow2(k) as int);
                assert(8 * (front.len() - 1 - i) == k);
                assert(front[i] == ((x / 256) / pow2(k)) % 256);
                assert((x / 256) / pow2(k) == x / pow2((8 * (n - 1 - i)) as nat));
            } else {
                assert((8 * (n - 1 - i)) as nat == 0);
                assert(x / pow2(0) == x) by {
                    vstd::arithmetic::div_mod::lemma_div_basics(x as int);
                }
            }
        }
    }
}

proof fn lemma_spells(v: ValueCompact, n: nat, x: nat, buffer: nat)
    requires
        v@ == Stored::word(n, binary(x, buffer)),
        x < pow2(pow2(n)),
        buffer % 8 == 0,
        pow2(n) <= buffer < pow2(n) + 8,
        buffer <= usize::MAX,
    ensures
        spells(v, n, x),
{
    let size = pow2(n);
    integers_hold_their_digits(x, n, buffer);
    lemma_digits(x, size);
    lemma_binary_len(x, buffer);
    assert forall|bits: Seq<bool>| #[trigger] has_bits(v, bits) implies bits.len() == size
        && are_digits(bits, x) by {
        lemma_bits(v, bits);
    }
    assert forall|bytes: &[u8]| #[trigger]
        call_ensures(ValueCompact::raw_bytes, (&v,), bytes) implies size <= 8 * bytes@.len() < size
        + 8 && are_bytes(bytes@, x) by {
        assert(bits_of(bytes@).len() == 8 * bytes@.len());
        assert(v@.raw_bytes() =~= v@.raw);
        lemma_bytes(x, bytes@);
    }
    assert forall|i: int| size <= i < v@.raw.len() implies !(#[trigger] from_end(v@.raw, i)) by {}
}

/// Integers of one bit are the binary digits of their numbers.
pub proof fn u1_spells_its_number(x: u8, v: ValueCompact)
    requires
        x <= 1,
        call_ensures(ValueCompact::u1, (x,), v),
    ensures
        spells(v, 0, x as nat),
{
    lemma2_to64();
    lemma_spells(v, 0, x as nat, 8);
}

/// Integers of two bits are the binary digits of their numbers.
pub proof fn u2_spells_its_number(x: u8, v: ValueCompact)
    requires
        x <= 3,
        call_ensures(ValueCompact::u2, (x,), v),
    ensures
        spells(v, 1, x as nat),
{
    lemma2_to64();
    lemma_spells(v, 1, x as nat, 8);
}

/// Integers of four bits are the binary digits of their numbers.
pub proof fn u4_spells_its_number(x: u8, v: ValueCompact)
    requires
        x <= 15,
        call_ensures(ValueCompact::u4, (x,), v),
    ensures
        spells(v, 2, x as nat),
{
    lemma2_to64();
    lemma_spells(v, 2, x as nat, 8);
}

/// Integers of eight bits are the binary digits of their numbers.
pub proof fn u8_spells_its_number(x: u8, v: ValueCompact)
    requires
        call_ensures(ValueCompact::u8, (x,), v),
    ensures
        spells(v, 3, x as nat),
{
    lemma2_to64();
    lemma_spells(v, 3, x as nat, 8);
}

/// Integers of 16 bits are the binary digits of their numbers.
pub proof fn u16_spells_its_number(x: u16, v: ValueCompact)
    requires
        call_ensures(ValueCompact::u16, (x,), v),
    ensures
        spells(v, 4, x as nat),
{
    lemma2_to64();
    lemma_spells(v, 4, x as nat, 16);
}

/// Integers of 32 bits are the binary digits of their numbers.
pub proof fn u32_spells_its_number(x: u32, v: ValueCompact)
    requires
        call_ensures(ValueCompact::u32, (x,), v),
    ensures
        spells(v, 5, x as nat),
{
    lemma2_to64();
    lemma_spells(v, 5, x as nat, 32);
}

/// Integers of 64 bits are the binary digits of their numbers.
pub proof fn u64_spells_its_number(x: u64, v: ValueCompact)
    requires
        call_ensures(ValueCompact::u64, (x,), v),
    ensures
        spells(v, 6, x as nat),
{
    lemma2_to64();
    lemma_spells(v, 6, x as nat, 64);
}

/// Integers of 128 bits are the binary digits of their numbers.
pub proof fn u128_spells_its_number(x: u128, v: ValueCompact)
    requires
        call_ensures(ValueCompact::u128, (x,), v),
    ensures
        spells(v, 7, x as nat),
{
    lemma2_to64();
    vstd::arithmetic::power2::lemma_pow2_adds(64, 64);
    assert(0x10000000000000000 * 0x10000000000000000 == 0x100000000000000000000000000000000int);
    lemma_spells(v, 7, x as nat, 128);
}

/// The value is of type `2^(2^n)`. Its raw bytes are the given ones, and its bits are the bits of
/// these bytes.
pub open spec fn holds_bytes(v: ValueCompact, n: nat, bytes: Seq<u8>) -> bool {
    &&& v@.ty == Ty::word(n)
    &&& v@.raw.len() == pow2(n) == 8 * bytes.len()
    &&& forall|raw: &[u8]| #[trigger]
        call_ensures(ValueCompact::raw_bytes, (&v,), raw) ==> raw@ == bytes
    &&& forall|bits: Seq<bool>| #[trigger]
        has_bits(v, bits) ==> bits.len() == pow2(n) && forall|i: int|
            0 <= i < bits.len() ==> #[trigger] bits[i] == byte_bit(bytes, i)
}

proof fn lemma_holds_bytes(v: ValueCompact, n: nat, bytes: Seq<u8>)
    requires
        v@ == Stored::word(n, bits_of(bytes)),
        pow2(n) == 8 * bytes.len(),
        8 * bytes.len() <= usize::MAX,
    ensures
        holds_bytes(v, n, bytes),
{
    full_words_hold_their_buffer(n, bits_of(bytes));
    assert forall|raw: &[u8]| #[trigger]
        call_ensures(ValueCompact::raw_bytes, (&v,), raw) implies raw@ == bytes by {
        assert(v@.raw_bytes() =~= v@.raw);
        lemma_bits_of_injective(raw@, bytes);
    }
    assert forall|bits: Seq<bool>| #[trigger] has_bits(v, bits) implies bits.len() == pow2(n)
        && forall|i: int| 0 <= i < bits.len() ==> #[trigger] bits[i] == byte_bit(bytes, i) by {
        lemma_bits(v, bits);
        assert forall|i: int| 0 <= i < bits.len() implies #[trigger] bits[i] == byte_bit(
            bytes,
            i,
        ) by {
            lemma_byte_bit(bytes, i);
        }
    }
}

/// Integers of 256 bits hold the bytes that they were made of.
pub proof fn u256_holds_its_bytes(bytes: [u8; 32], v: ValueCompact)
    requires
        call_ensures(ValueCompact::u256, (bytes,), v),
    ensures
        holds_bytes(v, 8, bytes@),
{
    lemma2_to64();
    lemma_holds_bytes(v, 8, bytes@);
}

/// Integers of 512 bits hold the bytes that they were made of.
pub proof fn u512_holds_its_bytes(bytes: [u8; 64], v: ValueCompact)
    requires
        call_ensures(ValueCompact::u512, (bytes,), v),
    ensures
        holds_bytes(v, 9, bytes@),
{
    lemma2_to64();
    lemma_holds_bytes(v, 9, bytes@);
}

} // verus!
