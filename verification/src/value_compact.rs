//! # Simplicity values
//!
//! Simplicity processes data in terms of [`ValueCompact`]s, i.e., inputs, intermediate results and
//! outputs.
use crate::bits::{
    be_bytes, binary, bits_of, buffer_fits, byte_len, copy_bits, get_bit, lemma_binary_len,
    lemma_zero_byte, right_aligned, set_bit, zeros,
};
use crate::model::{
    lemma_bits_determine, lemma_parse_compact_complete, lemma_size, parse, Encoding, Val,
};
use crate::storage::{
    lemma_located, lemma_parts, lemma_product, lemma_stored, lemma_stored_word, lemma_tagged,
    Located, Stored,
};
use crate::traversal::{
    lemma_parse_product, lemma_parse_single, lemma_parse_sum, lemma_parse_unit, lemma_stack_push,
    lemma_trees_push, parse_stack, stack_nodes, trees,
};
use crate::types::{CompleteBound, Final, Ty};
use std::sync::Arc;
use vstd::arithmetic::power2::{lemma2_to64, pow2};
use vstd::prelude::*;
use vstd::slice::{slice_subrange, slice_to_vec};

verus! {

/// Reference to a value, or to a sub-value of a value.
#[derive(Debug, Clone, Copy)]
pub struct ValueRef<'v> {
    inner: &'v Arc<Vec<u8>>,
    bit_offset: usize,
    ty: &'v Arc<Final>,
}

/// The value of the given type that the bits start with in compact form.
spec fn value_at(ty: Ty, bits: Seq<bool>) -> Val {
    match parse(Encoding::Compact, ty, bits) {
        Some((v, _)) => v,
        None => Val::Unit,
    }
}

/// Where a value is located, its bits can be read.
proof fn lemma_value_at(l: Located)
    requires
        l.wf(),
    ensures
        parse(Encoding::Compact, l.ty, l.raw.skip(l.offset as int)) == Some(
            (l.val, l.raw.skip(l.end() as int)),
        ),
        value_at(l.ty, l.raw.skip(l.offset as int)) == l.val,
{
    let rest = l.raw.skip(l.end() as int);
    lemma_parse_compact_complete(l.val, l.ty, rest);
    assert(l.val.bits() + rest =~= l.raw.skip(l.offset as int));
}

impl<'v> View for ValueRef<'v> {
    type V = Located;

    closed spec fn view(&self) -> Located {
        let raw = bits_of(self.inner@);
        Located {
            ty: self.ty@,
            val: value_at(self.ty@, raw.skip(self.bit_offset as int)),
            raw,
            offset: self.bit_offset as nat,
        }
    }
}

impl<'v> ValueRef<'v> {
    /// The reference points to the encoding of a value of its type.
    #[verifier::type_invariant]
    pub open spec fn inv(self) -> bool {
        self@.wf()
    }

    /// Access the type of the value.
    pub(crate) fn ty(&self) -> (res: &'v Final)
        ensures
            res@ == self@.ty,
    {
        &**self.ty
    }

    /// Check if the value is a unit.
    pub fn is_unit(&self) -> (res: bool)
        ensures
            res == (self@.ty is Unit),
    {
        self.ty.is_unit()
    }

    /// The number of bits of the value.
    pub fn len(&self) -> (res: usize)
        ensures
            res == self@.val.size(),
    {
        proof {
            use_type_invariant(self);
            lemma_value_at(self@);
        }
        let ghost l = self@;
        let mut stack: Vec<&Final> = Vec::new();
        stack.push(&**self.ty);
        let mut size: usize = 0;
        proof {
            assert(trees(stack@) =~= seq![l.ty]);
            lemma_parse_single(Encoding::Compact, l.ty, l.raw.skip(l.offset as int));
        }
        while stack.len() > 0
            invariant
                l == self@,
                l.wf(),
                l.offset + size <= l.raw.len(),
                parse_stack(
                    Encoding::Compact,
                    trees(stack@),
                    l.raw.skip(l.offset + size),
                ) matches Some((more, _)) && size + more.len() == l.val.size(),
            decreases stack_nodes(trees(stack@)),
        {
            let ghost before = stack@;
            let ty = stack.pop().unwrap();
            let ghost rest = trees(stack@);
            let ghost bits = l.raw.skip(l.offset + size);
            proof {
                assert(before == stack@.push(ty));
                lemma_trees_push(stack@, ty);
                lemma_stack_push(rest, ty@);
            }
            match ty.bound() {
                CompleteBound::Unit => {
                    proof {
                        lemma_parse_unit(Encoding::Compact, rest, bits);
                    }
                },
                CompleteBound::Sum(left, right) => {
                    proof {
                        lemma_parse_sum(Encoding::Compact, rest, left@, right@, bits);
                        assert(bits.skip(1).skip(0) =~= l.raw.skip(l.offset + size + 1));
                        lemma_stack_push(rest, left@);
                        lemma_stack_push(rest, right@);
                        lemma_trees_push(stack@, &**left);
                        lemma_trees_push(stack@, &**right);
                    }
                    let bit = get_bit(self.inner.as_slice(), self.bit_offset + size);
                    size = size + 1;
                    if bit {
                        stack.push(&**right);
                    } else {
                        stack.push(&**left);
                    }
                },
                CompleteBound::Product(left, right) => {
                    proof {
                        lemma_parse_product(Encoding::Compact, rest, left@, right@, bits);
                        lemma_stack_push(rest, right@);
                        lemma_stack_push(rest.push(right@), left@);
                        lemma_trees_push(stack@, &**right);
                        lemma_trees_push(stack@.push(&**right), &**left);
                    }
                    stack.push(&**right);
                    stack.push(&**left);
                },
            }
        }
        size
    }

    /// Returns the bits of this value.
    pub fn iter_bits(&self) -> (res: Vec<bool>)
        ensures
            res@ == self@.val.bits(),
    {
        let len: usize = self.len();
        proof {
            use_type_invariant(self);
        }
        let ghost l = self@;
        let mut res: Vec<bool> = Vec::with_capacity(len);
        let mut i: usize = 0;
        while i < len
            invariant
                l == self@,
                l.wf(),
                i <= len == l.val.size(),
                res@ == l.val.bits().take(i as int),
            decreases len - i,
        {
            let bit = get_bit(self.inner.as_slice(), self.bit_offset + i);
            assert(l.raw.subrange(l.offset as int, l.end() as int)[i as int] == bit);
            res.push(bit);
            i = i + 1;
            assert(res@ =~= l.val.bits().take(i as int));
        }
        assert(l.val.bits().take(len as int) =~= l.val.bits());
        res
    }

    /// Check if the bits of two values are the same.
    fn same_bits(&self, other: &ValueRef<'_>) -> (res: bool)
        ensures
            res == (self@.val.bits() == other@.val.bits()),
    {
        let len: usize = self.len();
        if len != other.len() {
            return false;
        }
        proof {
            use_type_invariant(self);
            use_type_invariant(other);
        }
        let ghost l = self@;
        let ghost r = other@;
        let mut i: usize = 0;
        while i < len
            invariant
                l == self@,
                r == other@,
                l.wf(),
                r.wf(),
                i <= len == l.val.size() == r.val.size(),
                forall|j: int| 0 <= j < i ==> l.val.bits()[j] == r.val.bits()[j],
            decreases len - i,
        {
            let a = get_bit(self.inner.as_slice(), self.bit_offset + i);
            let b = get_bit(other.inner.as_slice(), other.bit_offset + i);
            assert(l.raw.subrange(l.offset as int, l.end() as int)[i as int] == a);
            assert(r.raw.subrange(r.offset as int, r.end() as int)[i as int] == b);
            if a != b {
                return false;
            }
            i = i + 1;
        }
        assert(l.val.bits() =~= r.val.bits());
        true
    }

    /// Helper function to read the first bit of a value
    ///
    /// If the first bit is not available (e.g. if the value has zero size)
    /// then returns None.
    fn first_bit(&self) -> (res: Option<bool>)
        ensures
            res == if self@.val.size() == 0 {
                None
            } else {
                Some(self@.val.bits()[0])
            },
    {
        proof {
            use_type_invariant(self);
            lemma_size(self@.val, self@.ty);
        }
        if self.ty.bit_width() == 0 {
            return None;
        }
        let ghost l = self@;
        let res = get_bit(self.inner.as_slice(), self.bit_offset);
        assert(l.raw.subrange(l.offset as int, l.end() as int)[0] == res);
        Some(res)
    }

    /// Access the inner value of a left sum value.
    pub fn as_left(&self) -> (res: Option<Self>)
        ensures
            match res {
                Some(inner) => self@.as_left() == Some(inner@),
                None => self@.as_left() is None,
            },
    {
        proof {
            use_type_invariant(self);
            lemma_parts(self@);
        }
        if self.first_bit() == Some(false) {
            if let Some((lty, _)) = self.ty.as_sum() {
                assert(self@.as_left() is Some);
                proof {
                    lemma_value_at(self@.as_left()->0);
                }
                Some(Self { inner: self.inner, bit_offset: self.bit_offset + 1, ty: lty })
            } else {
                None
            }
        } else {
            None
        }
    }

    /// Access the inner value of a right sum value.
    pub fn as_right(&self) -> (res: Option<Self>)
        ensures
            match res {
                Some(inner) => self@.as_right() == Some(inner@),
                None => self@.as_right() is None,
            },
    {
        proof {
            use_type_invariant(self);
            lemma_parts(self@);
        }
        if self.first_bit() == Some(true) {
            if let Some((_, rty)) = self.ty.as_sum() {
                assert(self@.as_right() is Some);
                proof {
                    lemma_value_at(self@.as_right()->0);
                }
                Some(Self { inner: self.inner, bit_offset: self.bit_offset + 1, ty: rty })
            } else {
                None
            }
        } else {
            None
        }
    }

    /// Access the inner values of a product value.
    pub fn as_product(&self) -> (res: Option<(Self, Self)>)
        ensures
            match res {
                Some((left, right)) => self@.as_product() == Some((left@, right@)),
                None => self@.as_product() is None,
            },
    {
        proof {
            use_type_invariant(self);
            lemma_parts(self@);
        }
        if let Some((lty, rty)) = self.ty.as_product() {
            assert(self@.as_product() is Some);
            proof {
                let (l, r) = self@.as_product()->0;
                lemma_value_at(l);
                lemma_value_at(r);
            }
            let left = Self { inner: self.inner, bit_offset: self.bit_offset, ty: lty };
            let right = Self {
                inner: self.inner,
                bit_offset: self.bit_offset + left.len(),
                ty: rty,
            };
            Some((left, right))
        } else {
            None
        }
    }

    /// Convert the reference back to a value.
    ///
    /// The buffer is shared if the value lies at the end of it.
    pub fn to_value(&self) -> (res: ValueCompact)
        ensures
            res@ == self@.stored(),
    {
        let size: usize = self.len();
        proof {
            use_type_invariant(self);
            lemma_stored(self@);
            lemma_size(self@.val, self@.ty);
        }
        let inner = if self.bit_offset + size == self.inner.len() * 8 {
            Arc::clone(self.inner)
        } else {
            let mut buffer = zero_bytes(byte_len(size));
            let start: usize = buffer.len() * 8 - size;
            copy_bits(self.inner.as_slice(), self.bit_offset, &mut buffer, start, size);
            proof {
                let l = self@;
                assert forall|i: int| 0 <= i < size implies l.raw[l.offset + i]
                    == l.val.bits()[i] by {
                    assert(l.raw.subrange(l.offset as int, l.end() as int)[i] == l.val.bits()[i]);
                }
                assert(bits_of(buffer@) =~= right_aligned(l.val.bits()));
            }
            Arc::new(buffer)
        };
        ValueCompact::assemble(inner, size, Arc::clone(self.ty), Ghost(self@.val))
    }
}

/// A buffer of zeros.
fn zero_bytes(n: usize) -> (res: Vec<u8>)
    ensures
        res@.len() == n,
        bits_of(res@) == zeros((8 * n) as nat),
{
    let res: Vec<u8> = vec![0u8;n];
    proof {
        assert forall|i: int| 0 <= i < 8 * n implies !bits_of(res@)[i] by {
            assert(res@[i / 8] == 0);
            lemma_zero_byte(i % 8);
        }
        assert(bits_of(res@) =~= zeros((8 * n) as nat));
    }
    res
}

/// Bits of a value under construction.
///
/// A buffer that is taken over from another value is not copied until one of its bits has to
/// change.
enum ConstructionBits {
    ToCopy(Arc<Vec<u8>>),
    Owned(Vec<u8>),
}

impl ConstructionBits {
    /// The bytes of the buffer.
    spec fn bytes(self) -> Seq<u8> {
        match self {
            ConstructionBits::ToCopy(arc) => arc@,
            ConstructionBits::Owned(buffer) => buffer@,
        }
    }

    /// Share the buffer.
    fn into_shared(self) -> (res: Arc<Vec<u8>>)
        ensures
            res@ == self.bytes(),
    {
        match self {
            ConstructionBits::Owned(buffer) => Arc::new(buffer),
            ConstructionBits::ToCopy(arc) => arc,
        }
    }

    /// Take the buffer, or a copy of it where it is shared.
    fn into_owned(self) -> (res: Vec<u8>)
        ensures
            res@ == self.bytes(),
    {
        match self {
            ConstructionBits::Owned(buffer) => buffer,
            ConstructionBits::ToCopy(arc) => slice_to_vec(arc.as_slice()),
        }
    }

    /// Look at the buffer.
    fn as_slice(&self) -> (res: &[u8])
        ensures
            res@ == self.bytes(),
    {
        match self {
            ConstructionBits::Owned(buffer) => buffer.as_slice(),
            ConstructionBits::ToCopy(arc) => arc.as_slice(),
        }
    }
}

/// A source of bits is a buffer that ends with them.
spec fn source_wf(source: Option<(&Arc<Vec<u8>>, usize)>, bit_length: usize) -> bool {
    source matches Some((bytes, compact_size)) ==> compact_size == bit_length && bit_length <= 8
        * bytes@.len() <= usize::MAX
}

/// The bits of a source. Without a buffer they are zeros.
spec fn source_bits(source: Option<(&Arc<Vec<u8>>, usize)>, bit_length: usize) -> Seq<bool> {
    match source {
        Some((bytes, _)) => bits_of(bytes@).skip(8 * bytes@.len() - bit_length),
        None => zeros(bit_length as nat),
    }
}

/// The buffer of a source. Without one, its zeros are put in a buffer of their own.
spec fn source_buffer(source: Option<(&Arc<Vec<u8>>, usize)>, bit_length: usize) -> Seq<bool> {
    match source {
        Some((bytes, _)) => bits_of(bytes@),
        None => right_aligned(zeros(bit_length as nat)),
    }
}

/// The buffer of a source that is handed on as it is, because the other source has no bits.
spec fn keeps(
    source: Option<(&Arc<Vec<u8>>, usize)>,
    bit_length: usize,
    other_bit_length: usize,
) -> Option<Arc<Vec<u8>>> {
    match source {
        Some((bytes, _)) => if bit_length > 0 && other_bit_length == 0 {
            Some(*bytes)
        } else {
            None
        },
        None => None,
    }
}

/// Put the bits of two sources one after the other.
///
/// Where one of them has no bits, the buffer of the other is kept.
fn product_bits(
    left: Option<(&Arc<Vec<u8>>, usize)>,
    left_bit_length: usize,
    right: Option<(&Arc<Vec<u8>>, usize)>,
    right_bit_length: usize,
) -> (res: (ConstructionBits, usize))
    requires
        source_wf(left, left_bit_length),
        source_wf(right, right_bit_length),
        buffer_fits((left_bit_length + right_bit_length) as nat),
    ensures
        res.1 == left_bit_length + right_bit_length,
        match (
            keeps(left, left_bit_length, right_bit_length),
            keeps(right, right_bit_length, left_bit_length),
        ) {
            (Some(arc), _) => res.0 == ConstructionBits::ToCopy(arc),
            (_, Some(arc)) => res.0 == ConstructionBits::ToCopy(arc),
            _ => res.0 is Owned,
        },
        bits_of(res.0.bytes()) == if left_bit_length == 0 && right_bit_length == 0 {
            Seq::empty()
        } else if right_bit_length == 0 {
            source_buffer(left, left_bit_length)
        } else if left_bit_length == 0 {
            source_buffer(right, right_bit_length)
        } else {
            right_aligned(
                source_bits(left, left_bit_length) + source_bits(right, right_bit_length),
            )
        },
{
    if left_bit_length == 0 && right_bit_length == 0 {
        let empty: Vec<u8> = Vec::new();
        assert(bits_of(empty@) =~= Seq::<bool>::empty());
        return (ConstructionBits::Owned(empty), 0);
    }
    if right_bit_length == 0 {
        if let Some((bytes, compact_size)) = left {
            return (ConstructionBits::ToCopy(Arc::clone(bytes)), compact_size);
        }
        let res = zero_bytes(byte_len(left_bit_length));
        assert(bits_of(res@) =~= right_aligned(zeros(left_bit_length as nat)));
        return (ConstructionBits::Owned(res), left_bit_length);
    }
    if left_bit_length == 0 {
        if let Some((bytes, compact_size)) = right {
            return (ConstructionBits::ToCopy(Arc::clone(bytes)), compact_size);
        }
        let res = zero_bytes(byte_len(right_bit_length));
        assert(bits_of(res@) =~= right_aligned(zeros(right_bit_length as nat)));
        return (ConstructionBits::Owned(res), right_bit_length);
    }
    let compact_len: usize = left_bit_length + right_bit_length;
    let mut res = zero_bytes(byte_len(compact_len));
    let compact_start: usize = res.len() * 8 - compact_len;
    let ghost zeroed = bits_of(res@);
    if let Some((source, compact_size)) = left {
        copy_bits(
            source.as_slice(),
            source.len() * 8 - compact_size,
            &mut res,
            compact_start,
            left_bit_length,
        );
    }
    let ghost halfway = bits_of(res@);
    assert(forall|i: int|
        0 <= i < halfway.len() ==> #[trigger] halfway[i] == (compact_start <= i < compact_start
            + left_bit_length && source_bits(left, left_bit_length)[i - compact_start]));
    if let Some((source, compact_size)) = right {
        copy_bits(
            source.as_slice(),
            source.len() * 8 - compact_size,
            &mut res,
            compact_start + left_bit_length,
            right_bit_length,
        );
    }
    assert(bits_of(res@) =~= right_aligned(
        source_bits(left, left_bit_length) + source_bits(right, right_bit_length),
    ));
    (ConstructionBits::Owned(res), compact_len)
}

/// A Simplicity value.
pub struct ValueCompact {
    /// Stores right aligned compact bits of value
    inner: Arc<Vec<u8>>,
    /// The number of bits of the value.
    compact_bits: usize,
    /// The Simplicity type of the value.
    ty: Arc<Final>,
}

impl View for ValueCompact {
    type V = Stored;

    closed spec fn view(&self) -> Stored {
        let raw = bits_of(self.inner@);
        Stored {
            ty: self.ty@,
            val: value_at(self.ty@, raw.skip(raw.len() - self.compact_bits)),
            raw,
        }
    }
}

impl ValueCompact {
    /// The buffer ends with the encoding of a value of the type.
    #[verifier::type_invariant]
    pub open spec fn inv(self) -> bool {
        self@.wf() && self.counted()
    }

    /// The number of bits is that of the value.
    pub closed spec fn counted(self) -> bool {
        self.compact_bits == self@.val.size()
    }

    /// Put a value together from its parts.
    pub(crate) fn assemble(
        inner: Arc<Vec<u8>>,
        compact_bits: usize,
        ty: Arc<Final>,
        Ghost(val): Ghost<Val>,
    ) -> (res: Self)
        requires
            (Stored { ty: ty@, val, raw: bits_of(inner@) }).wf(),
            compact_bits == val.size(),
        ensures
            res@ == (Stored { ty: ty@, val, raw: bits_of(inner@) }),
    {
        proof {
            let s = Stored { ty: ty@, val, raw: bits_of(inner@) };
            lemma_located(s);
            lemma_value_at(s.located());
        }
        Self { inner, compact_bits, ty }
    }

    /// A reference to this value, which can be recursed over.
    pub fn as_ref(&self) -> (res: ValueRef<'_>)
        ensures
            res@ == self@.located(),
    {
        proof {
            use_type_invariant(self);
            lemma_located(self@);
            lemma_value_at(self@.located());
        }
        ValueRef {
            inner: &self.inner,
            bit_offset: self.inner.len() * 8 - self.compact_bits,
            ty: &self.ty,
        }
    }

    /// Make a cheap copy of the value.
    pub fn shallow_clone(&self) -> (res: Self)
        ensures
            res@ == self@,
    {
        proof {
            use_type_invariant(self);
        }
        Self {
            inner: Arc::clone(&self.inner),
            compact_bits: self.compact_bits,
            ty: Arc::clone(&self.ty),
        }
    }

    /// The number of bits of the buffer.
    pub fn raw_len(&self) -> (res: usize)
        ensures
            res == self@.raw.len(),
    {
        proof {
            use_type_invariant(self);
        }
        self.inner.len() * 8
    }

    /// The number of bits of the value.
    pub fn len(&self) -> (res: usize)
        ensures
            res == self@.val.size(),
    {
        self.as_ref().len()
    }

    /// The last bytes of the buffer, as many as hold the value.
    pub fn raw_bytes(&self) -> (res: &[u8])
        ensures
            bits_of(res@) == self@.raw_bytes(),
    {
        proof {
            use_type_invariant(self);
        }
        let byte_width: usize = byte_len(self.compact_bits);
        let start_index: usize = self.inner.len() - byte_width;
        let res = slice_subrange(self.inner.as_slice(), start_index, self.inner.len());
        assert(bits_of(res@) =~= self@.raw_bytes());
        res
    }

    /// The bytes of the whole buffer.
    pub(crate) fn raw_buffer(&self) -> (res: &[u8])
        ensures
            bits_of(res@) == self@.raw,
    {
        self.inner.as_slice()
    }

    /// Access the type of the value.
    pub fn ty(&self) -> (res: &Final)
        ensures
            res@ == self@.ty,
    {
        &*self.ty
    }

    /// Create the unit value.
    pub fn unit() -> (res: Self)
        ensures
            res@ == Stored::unit(),
    {
        let inner: Arc<Vec<u8>> = Arc::new(Vec::new());
        proof {
            assert(bits_of(inner@) =~= Seq::<bool>::empty());
            assert(Seq::<bool>::empty().skip(0) =~= Val::Unit.bits());
        }
        Self::assemble(inner, 0, Final::unit(), Ghost(Val::Unit))
    }

    /// Create a none value.
    pub fn none(right: Arc<Final>) -> (res: Self)
        requires
            right@.width() + 1 <= usize::MAX,
        ensures
            res@ == Stored::unit().left(right@),
    {
        assert(Ty::Unit.width() == 0);
        Self::left(ValueCompact::unit(), right)
    }

    /// Create a some value.
    pub fn some(inner: Self) -> (res: Self)
        requires
            inner@.ty.width() + 1 <= usize::MAX,
            buffer_fits(inner@.val.size() + 1),
        ensures
            res@ == inner@.right(Ty::Unit),
    {
        assert(Ty::Unit.width() == 0);
        Self::right(Final::unit(), inner)
    }

    /// The buffer with a tag bit set in front of the value.
    fn tagged_bits(&self, tag: bool) -> (res: Arc<Vec<u8>>)
        requires
            buffer_fits(self@.val.size() + 1),
        ensures
            bits_of(res@) == self@.tagged(tag),
    {
        proof {
            use_type_invariant(self);
        }
        let bits: ConstructionBits = if self.inner.len() * 8 > self.compact_bits {
            ConstructionBits::ToCopy(Arc::clone(&self.inner))
        } else {
            let (bits, _) = product_bits(
                None,
                1,
                Some((&self.inner, self.compact_bits)),
                self.compact_bits,
            );
            bits
        };
        proof {
            let raw = self@.raw;
            let room = if raw.len() > self@.val.size() {
                raw
            } else {
                zeros(8) + raw
            };
            assert(raw.skip(0) =~= raw);
            assert(bits_of(bits.bytes()) =~= room);
            assert(bits_of(bits.bytes()).len() == 8 * bits.bytes().len());
        }
        let pos: usize = bits.as_slice().len() * 8 - self.compact_bits - 1;
        if get_bit(bits.as_slice(), pos) == tag {
            bits.into_shared()
        } else {
            let mut bytes = bits.into_owned();
            set_bit(&mut bytes, pos, tag);
            Arc::new(bytes)
        }
    }

    /// Create a left value that wraps the given `inner` value.
    pub fn left(inner: Self, right: Arc<Final>) -> (res: Self)
        requires
            Ty::sum(inner@.ty, right@).fits(),
            buffer_fits(inner@.val.size() + 1),
        ensures
            res@ == inner@.left(right@),
    {
        proof {
            use_type_invariant(&inner);
            lemma_size(inner@.val, inner@.ty);
            lemma_tagged(inner@, right@);
        }
        let new_inner = inner.tagged_bits(false);
        Self::assemble(
            new_inner,
            inner.compact_bits + 1,
            Final::sum(Arc::clone(&inner.ty), right),
            Ghost(Val::left(inner@.val)),
        )
    }

    /// Create a right value that wraps the given `inner` value.
    pub fn right(left: Arc<Final>, inner: Self) -> (res: Self)
        requires
            Ty::sum(left@, inner@.ty).fits(),
            buffer_fits(inner@.val.size() + 1),
        ensures
            res@ == inner@.right(left@),
    {
        proof {
            use_type_invariant(&inner);
            lemma_size(inner@.val, inner@.ty);
            lemma_tagged(inner@, left@);
        }
        let new_inner = inner.tagged_bits(true);
        Self::assemble(
            new_inner,
            inner.compact_bits + 1,
            Final::sum(left, Arc::clone(&inner.ty)),
            Ghost(Val::right(inner@.val)),
        )
    }

    /// Create a product value that wraps the given `left` and `right` values.
    pub fn product(left: Self, right: Self) -> (res: Self)
        requires
            Ty::product(left@.ty, right@.ty).fits(),
            buffer_fits(left@.val.size() + right@.val.size()),
        ensures
            res@ == left@.product(right@),
    {
        proof {
            use_type_invariant(&left);
            use_type_invariant(&right);
            lemma_size(left@.val, left@.ty);
            lemma_size(right@.val, right@.ty);
            lemma_product(left@, right@);
        }
        let (new_inner, compact_bits) = product_bits(
            Some((&left.inner, left.compact_bits)),
            left.compact_bits,
            Some((&right.inner, right.compact_bits)),
            right.compact_bits,
        );
        Self::assemble(
            new_inner.into_shared(),
            compact_bits,
            Final::product(Arc::clone(&left.ty), Arc::clone(&right.ty)),
            Ghost(Val::pair(left@.val, right@.val)),
        )
    }

    /// The last `bits` bits of a buffer as a value of the type `2^(2^n)`.
    fn word(bytes: Vec<u8>, bits: usize, n: usize) -> (res: Self)
        requires
            n < 32,
            bits == pow2(n as nat),
            bits <= 8 * bytes@.len() <= usize::MAX,
        ensures
            res@ == Stored::word(n as nat, bits_of(bytes@)),
    {
        proof {
            lemma_stored_word(n as nat, bits_of(bytes@));
        }
        let ghost val = Stored::word(n as nat, bits_of(bytes@)).val;
        Self::assemble(Arc::new(bytes), bits, Final::two_two_n(n), Ghost(val))
    }

    /// The last bits of a number as a value of the type `2^(2^n)`.
    fn uint(value: u128, bytes: usize, bits: usize, n: usize) -> (res: Self)
        requires
            n < 32,
            bits == pow2(n as nat),
            0 < bytes <= 16,
            bits <= 8 * bytes,
        ensures
            res@ == Stored::word(n as nat, binary(value as nat, (8 * bytes) as nat)),
    {
        let inner = be_bytes(value, bytes);
        proof {
            lemma_binary_len(value as nat, (8 * bytes) as nat);
            assert(bits_of(inner@).len() == 8 * inner@.len());
        }
        Self::word(inner, bits, n)
    }

    /// Create a 1-bit integer.
    pub fn u1(value: u8) -> (res: Self)
        requires
            value <= 1,
        ensures
            res@ == Stored::word(0, binary(value as nat, 8)),
    {
        proof {
            lemma2_to64();
        }
        Self::uint(value as u128, 1, 1, 0)
    }

    /// Create a 2-bit integer.
    pub fn u2(value: u8) -> (res: Self)
        requires
            value <= 3,
        ensures
            res@ == Stored::word(1, binary(value as nat, 8)),
    {
        proof {
            lemma2_to64();
        }
        Self::uint(value as u128, 1, 2, 1)
    }

    /// Create a 4-bit integer.
    pub fn u4(value: u8) -> (res: Self)
        requires
            value <= 15,
        ensures
            res@ == Stored::word(2, binary(value as nat, 8)),
    {
        proof {
            lemma2_to64();
        }
        Self::uint(value as u128, 1, 4, 2)
    }

    /// Create an 8-bit integer.
    pub fn u8(value: u8) -> (res: Self)
        ensures
            res@ == Stored::word(3, binary(value as nat, 8)),
    {
        proof {
            lemma2_to64();
        }
        Self::uint(value as u128, 1, 8, 3)
    }

    /// Create a 16-bit integer.
    pub fn u16(bytes: u16) -> (res: Self)
        ensures
            res@ == Stored::word(4, binary(bytes as nat, 16)),
    {
        proof {
            lemma2_to64();
        }
        Self::uint(bytes as u128, 2, 16, 4)
    }

    /// Create a 32-bit integer.
    pub fn u32(bytes: u32) -> (res: Self)
        ensures
            res@ == Stored::word(5, binary(bytes as nat, 32)),
    {
        proof {
            lemma2_to64();
        }
        Self::uint(bytes as u128, 4, 32, 5)
    }

    /// Create a 64-bit integer.
    pub fn u64(bytes: u64) -> (res: Self)
        ensures
            res@ == Stored::word(6, binary(bytes as nat, 64)),
    {
        proof {
            lemma2_to64();
        }
        Self::uint(bytes as u128, 8, 64, 6)
    }

    /// Create a 128-bit integer.
    pub fn u128(bytes: u128) -> (res: Self)
        ensures
            res@ == Stored::word(7, binary(bytes as nat, 128)),
    {
        proof {
            lemma2_to64();
        }
        Self::uint(bytes, 16, 128, 7)
    }

    /// Create a 256-bit integer.
    pub fn u256(bytes: [u8; 32]) -> (res: Self)
        ensures
            res@ == Stored::word(8, bits_of(bytes@)),
    {
        proof {
            lemma2_to64();
        }
        Self::word(slice_to_vec(bytes.as_slice()), 256, 8)
    }

    /// Create a 512-bit integer.
    pub fn u512(bytes: [u8; 64]) -> (res: Self)
        ensures
            res@ == Stored::word(9, bits_of(bytes@)),
    {
        proof {
            lemma2_to64();
        }
        Self::word(slice_to_vec(bytes.as_slice()), 512, 9)
    }
}

impl Clone for ValueCompact {
    fn clone(&self) -> (res: Self)
        ensures
            res@ == self@,
    {
        self.shallow_clone()
    }
}

impl PartialEq for ValueCompact {
    fn eq(&self, other: &Self) -> (res: bool) {
        proof {
            use_type_invariant(self);
            use_type_invariant(other);
            if self@.ty == other@.ty && self@.val.bits() == other@.val.bits() {
                lemma_bits_determine(self@.val, other@.val, self@.ty);
            }
        }
        *self.ty == *other.ty && self.compact_bits == other.compact_bits
            && self.as_ref().same_bits(&other.as_ref())
    }
}

impl vstd::std_specs::cmp::PartialEqSpecImpl for ValueCompact {
    open spec fn obeys_eq_spec() -> bool {
        true
    }

    /// Values are equal when they are the same value of the same type.
    open spec fn eq_spec(&self, other: &Self) -> bool {
        self@.equal(other@)
    }
}

impl Eq for ValueCompact {

}

} // verus!
