//! # How values are laid out in buffers
//!
//! [`Stored`] is a value at the end of a buffer, [`Located`] a value anywhere in a buffer. Both
//! know the whole buffer, so that the bits around a value are accounted for too.
use crate::bits::{buffer_fits, bytes_for, right_aligned, zeros};
use crate::model::{lemma_prune_same, lemma_prune_size, lemma_size, lemma_word_val, word_val, Val};
use crate::types::{lemma_word, Ty};
use vstd::arithmetic::power2::pow2;
use vstd::prelude::*;

verus! {

/// A value whose compact encoding is right-aligned in a buffer.
#[verifier::ext_equal]
pub struct Stored {
    /// The type of the value.
    pub ty: Ty,
    /// The value.
    pub val: Val,
    /// The bits of the buffer.
    pub raw: Seq<bool>,
}

/// A value whose compact encoding lies somewhere in a buffer.
#[verifier::ext_equal]
pub struct Located {
    /// The type of the value.
    pub ty: Ty,
    /// The value.
    pub val: Val,
    /// The bits of the buffer.
    pub raw: Seq<bool>,
    /// Where the encoding of the value starts.
    pub offset: nat,
}

/// The bits are those of whole bytes, and a `usize` can count them.
pub open spec fn is_buffer(raw: Seq<bool>) -> bool {
    raw.len() % 8 == 0 && raw.len() <= usize::MAX
}

impl Stored {
    /// The value is of its type, and the buffer ends with its compact encoding.
    pub open spec fn wf(self) -> bool {
        &&& self.ty.fits()
        &&& self.val.has_type(self.ty)
        &&& is_buffer(self.raw)
        &&& self.val.size() <= self.raw.len()
        &&& self.raw.skip(self.raw.len() - self.val.size()) == self.val.bits()
    }

    /// The bits of the last bytes of the buffer, as many as hold the value.
    pub open spec fn raw_bytes(self) -> Seq<bool> {
        self.raw.skip(self.raw.len() - 8 * bytes_for(self.val.size()))
    }

    /// Both are the same value of the same type. What else their buffers hold does not matter.
    pub open spec fn equal(self, other: Stored) -> bool {
        self.ty == other.ty && self.val == other.val
    }

    /// The value as part of its own buffer.
    pub open spec fn located(self) -> Located {
        Located {
            ty: self.ty,
            val: self.val,
            raw: self.raw,
            offset: (self.raw.len() - self.val.size()) as nat,
        }
    }

    /// The buffer with a tag bit set in front of the value. A byte of zeros goes in front of
    /// a buffer that has no bit to spare.
    pub open spec fn tagged(self, tag: bool) -> Seq<bool> {
        let room = if self.raw.len() > self.val.size() {
            self.raw
        } else {
            zeros(8) + self.raw
        };
        room.update(room.len() - self.val.size() - 1, tag)
    }

    /// The value in a buffer of its own.
    pub open spec fn fresh(ty: Ty, val: Val) -> Stored {
        Stored { ty, val, raw: right_aligned(val.bits()) }
    }

    /// The unit value in an empty buffer.
    pub open spec fn unit() -> Stored {
        Stored { ty: Ty::Unit, val: Val::Unit, raw: Seq::empty() }
    }

    /// The last `2^n` bits of a buffer as a value of type `2^(2^n)`.
    pub open spec fn word(n: nat, raw: Seq<bool>) -> Stored {
        Stored {
            ty: Ty::word(n),
            val: word_val(n, raw.skip(raw.len() - pow2(n))),
            raw,
        }
    }

    /// The value wrapped on the left of a sum.
    pub open spec fn left(self, right: Ty) -> Stored {
        Stored {
            ty: Ty::sum(self.ty, right),
            val: Val::left(self.val),
            raw: self.tagged(false),
        }
    }

    /// The value wrapped on the right of a sum.
    pub open spec fn right(self, left: Ty) -> Stored {
        Stored {
            ty: Ty::sum(left, self.ty),
            val: Val::right(self.val),
            raw: self.tagged(true),
        }
    }

    /// The pair of two values. Where one of them has no bits, the buffer of the other is kept;
    /// otherwise the bits of both go into a buffer of their own.
    pub open spec fn product(self, other: Stored) -> Stored {
        Stored {
            ty: Ty::product(self.ty, other.ty),
            val: Val::pair(self.val, other.val),
            raw: if self.val.size() == 0 && other.val.size() == 0 {
                Seq::empty()
            } else if other.val.size() == 0 {
                self.raw
            } else if self.val.size() == 0 {
                other.raw
            } else {
                right_aligned(self.val.bits() + other.val.bits())
            },
        }
    }
}

impl Located {
    /// The value is of its type, and its compact encoding lies at its offset.
    pub open spec fn wf(self) -> bool {
        &&& self.ty.fits()
        &&& self.val.has_type(self.ty)
        &&& is_buffer(self.raw)
        &&& self.end() <= self.raw.len()
        &&& self.raw.subrange(self.offset as int, self.end() as int) == self.val.bits()
    }

    /// Where the encoding of the value ends.
    pub open spec fn end(self) -> nat {
        self.offset + self.val.size()
    }

    /// The value on its own. It keeps the buffer if it lies at the end of it; otherwise its bits
    /// go into a buffer of their own.
    pub open spec fn stored(self) -> Stored {
        if self.end() == self.raw.len() {
            Stored { ty: self.ty, val: self.val, raw: self.raw }
        } else {
            Stored::fresh(self.ty, self.val)
        }
    }

    /// The value inside of a left value.
    pub open spec fn as_left(self) -> Option<Located> {
        match (self.ty, self.val) {
            (Ty::Sum(a, _), Val::Left(v)) => Some(
                Located { ty: *a, val: *v, raw: self.raw, offset: self.offset + 1 },
            ),
            _ => None,
        }
    }

    /// The value inside of a right value.
    pub open spec fn as_right(self) -> Option<Located> {
        match (self.ty, self.val) {
            (Ty::Sum(_, b), Val::Right(v)) => Some(
                Located { ty: *b, val: *v, raw: self.raw, offset: self.offset + 1 },
            ),
            _ => None,
        }
    }

    /// The values inside of a pair.
    pub open spec fn as_product(self) -> Option<(Located, Located)> {
        match (self.ty, self.val) {
            (Ty::Product(a, b), Val::Pair(v, w)) => Some(
                (
                    Located { ty: *a, val: *v, raw: self.raw, offset: self.offset },
                    Located { ty: *b, val: *w, raw: self.raw, offset: self.offset + v.size() },
                ),
            ),
            _ => None,
        }
    }

    /// The value cut down to a smaller type. A part whose type stays as it is keeps its bits;
    /// the parts around it are put together again.
    pub open spec fn prune(self, ty: Ty) -> Stored
        decreases ty,
    {
        if self.ty == ty {
            self.stored()
        } else {
            match ty {
                Ty::Unit => Stored::unit(),
                Ty::Sum(a, b) => match (self.as_left(), self.as_right()) {
                    (Some(l), _) => l.prune(*a).left(*b),
                    (_, Some(r)) => r.prune(*b).right(*a),
                    _ => Stored::unit(),
                },
                Ty::Product(a, b) => match self.as_product() {
                    Some((l, r)) => l.prune(*a).product(r.prune(*b)),
                    None => Stored::unit(),
                },
            }
        }
    }
}

/// Right-aligned bits fill whole bytes and end with the bits.
pub proof fn lemma_right_aligned(bits: Seq<bool>)
    ensures
        right_aligned(bits).len() == 8 * bytes_for(bits.len()),
        right_aligned(bits).skip(right_aligned(bits).len() - bits.len()) == bits,
{
    let raw = right_aligned(bits);
    assert(raw.skip(raw.len() - bits.len()) =~= bits);
}

/// A value in a buffer of its own is stored well.
pub proof fn lemma_fresh(ty: Ty, val: Val)
    requires
        ty.fits(),
        val.has_type(ty),
        buffer_fits(val.size()),
    ensures
        Stored::fresh(ty, val).wf(),
{
    lemma_size(val, ty);
    lemma_right_aligned(val.bits());
}

/// A value that is stored well can be located well.
pub proof fn lemma_located(s: Stored)
    requires
        s.wf(),
    ensures
        s.located().wf(),
        s.located().stored() == s,
{
    let l = s.located();
    assert(l.raw.subrange(l.offset as int, l.end() as int) =~= s.raw.skip(
        s.raw.len() - s.val.size(),
    ));
}

/// A value that is located well can be stored well.
pub proof fn lemma_stored(l: Located)
    requires
        l.wf(),
    ensures
        l.stored().wf(),
{
    lemma_size(l.val, l.ty);
    lemma_right_aligned(l.val.bits());
    if l.end() == l.raw.len() {
        assert(l.raw.skip(l.raw.len() - l.val.size()) =~= l.raw.subrange(
            l.offset as int,
            l.end() as int,
        ));
    }
}

/// Wrapping a value in a sum keeps it stored well.
pub proof fn lemma_tagged(s: Stored, other: Ty)
    requires
        s.wf(),
        buffer_fits(s.val.size() + 1),
    ensures
        Ty::sum(s.ty, other).fits() ==> s.left(other).wf(),
        Ty::sum(other, s.ty).fits() ==> s.right(other).wf(),
{
    lemma_size(s.val, s.ty);
    let size = s.val.size();
    let l = s.tagged(false);
    let r = s.tagged(true);
    assert(Val::left(s.val).bits() == seq![false] + s.val.bits());
    assert(Val::right(s.val).bits() == seq![true] + s.val.bits());
    assert forall|i: int| 0 <= i < size implies #[trigger] l[l.len() - size + i] == s.val.bits()[i]
        && r[r.len() - size + i] == s.val.bits()[i] by {
        assert(s.raw.skip(s.raw.len() - size)[i] == s.val.bits()[i]);
    }
    assert(l.skip(l.len() - (size + 1)) =~= seq![false] + s.val.bits());
    assert(r.skip(r.len() - (size + 1)) =~= seq![true] + s.val.bits());
}

/// Pairing values keeps them stored well.
pub proof fn lemma_product(s: Stored, t: Stored)
    requires
        s.wf(),
        t.wf(),
        Ty::product(s.ty, t.ty).fits(),
        buffer_fits(s.val.size() + t.val.size()),
    ensures
        s.product(t).wf(),
{
    lemma_size(s.val, s.ty);
    lemma_size(t.val, t.ty);
    let bits = s.val.bits() + t.val.bits();
    lemma_right_aligned(bits);
    assert(Val::pair(s.val, t.val).bits() == bits);
    if t.val.size() == 0 {
        assert(bits =~= s.val.bits());
    }
    if s.val.size() == 0 {
        assert(bits =~= t.val.bits());
        if t.val.size() == 0 {
            assert(Seq::<bool>::empty().skip(0) =~= bits);
        }
    }
}

/// The parts of a value that is located well are located well.
pub proof fn lemma_parts(l: Located)
    requires
        l.wf(),
    ensures
        l.as_left() matches Some(v) ==> v.wf(),
        l.as_right() matches Some(v) ==> v.wf(),
        l.as_product() matches Some((v, w)) ==> v.wf() && w.wf() && w.offset == v.end() && w.end()
            == l.end(),
{
    let bits = l.val.bits();
    let o = l.offset as int;
    assert(forall|i: int| 0 <= i < bits.len() ==> l.raw.subrange(o, l.end() as int)[i] == bits[i]);
    assert(forall|i: int| 0 <= i < bits.len() ==> #[trigger] l.raw[o + i] == bits[i]);
    if let Some(v) = l.as_left() {
        assert(bits == seq![false] + v.val.bits());
        assert forall|i: int| 0 <= i < v.val.size() implies l.raw.subrange(
            o + 1,
            v.end() as int,
        )[i] == v.val.bits()[i] by {
            assert(l.raw[o + (i + 1)] == bits[i + 1]);
        }
        assert(l.raw.subrange(o + 1, v.end() as int) =~= v.val.bits());
    }
    if let Some(v) = l.as_right() {
        assert(bits == seq![true] + v.val.bits());
        assert forall|i: int| 0 <= i < v.val.size() implies l.raw.subrange(
            o + 1,
            v.end() as int,
        )[i] == v.val.bits()[i] by {
            assert(l.raw[o + (i + 1)] == bits[i + 1]);
        }
        assert(l.raw.subrange(o + 1, v.end() as int) =~= v.val.bits());
    }
    if let Some((v, w)) = l.as_product() {
        assert(bits == v.val.bits() + w.val.bits());
        assert(l.raw.subrange(o, v.end() as int) =~= v.val.bits());
        assert forall|i: int| 0 <= i < w.val.size() implies l.raw.subrange(
            w.offset as int,
            w.end() as int,
        )[i] == w.val.bits()[i] by {
            assert(l.raw[o + (v.val.size() + i)] == bits[v.val.size() + i]);
        }
        assert(l.raw.subrange(w.offset as int, w.end() as int) =~= w.val.bits());
    }
}

/// Any buffer of `2^n` bits or more ends with a word.
pub proof fn lemma_stored_word(n: nat, raw: Seq<bool>)
    requires
        is_buffer(raw),
        pow2(n) <= raw.len(),
    ensures
        Stored::word(n, raw).wf(),
        Stored::word(n, raw).val.bits() == raw.skip(raw.len() - pow2(n)),
{
    lemma_word(n);
    lemma_word_val(n, raw.skip(raw.len() - pow2(n)));
}

/// A buffer has room for as many bits as it holds, and for fewer.
pub proof fn lemma_buffer_fits(n: nat, raw: Seq<bool>)
    requires
        is_buffer(raw),
        n <= raw.len(),
    ensures
        buffer_fits(n),
{
}

/// Wrapping a pruned side of a value again.
proof fn lemma_wrap_side(l: Located, side: Located, pruned: Stored)
    requires
        l.wf(),
        l.as_left() == Some(side) || l.as_right() == Some(side),
        pruned.val.size() <= side.val.size(),
    ensures
        buffer_fits(pruned.val.size() + 1),
{
    lemma_parts(l);
    lemma_buffer_fits(pruned.val.size() + 1, l.raw);
}

/// Pairing pruned parts of a value again.
proof fn lemma_wrap_parts(l: Located, v: Located, w: Located, p: Stored, q: Stored)
    requires
        l.wf(),
        l.as_product() == Some((v, w)),
        p.val.size() <= v.val.size(),
        q.val.size() <= w.val.size(),
    ensures
        buffer_fits(p.val.size() + q.val.size()),
{
    lemma_parts(l);
    lemma_buffer_fits(p.val.size() + q.val.size(), l.raw);
}

/// Pruning a value to a smaller type gives the pruned value, of that type and stored well.
pub proof fn lemma_prune(l: Located, ty: Ty)
    requires
        l.wf(),
        ty.fits(),
        ty.le(l.ty),
    ensures
        l.prune(ty).wf(),
        l.prune(ty).ty == ty,
        l.prune(ty).val == l.val.prune(ty),
        l.prune(ty).val.size() <= l.val.size(),
    decreases ty,
{
    lemma_prune_size(l.val, ty);
    if l.ty == ty {
        lemma_stored(l);
        lemma_prune_same(l.val, ty);
    } else {
        match ty {
            Ty::Unit => {
                assert(Seq::<bool>::empty().skip(0) =~= Val::Unit.bits());
            },
            Ty::Sum(a, b) => {
                lemma_parts(l);
                match (l.as_left(), l.as_right()) {
                    (Some(v), _) => {
                        lemma_prune(v, *a);
                        lemma_wrap_side(l, v, v.prune(*a));
                        lemma_tagged(v.prune(*a), *b);
                    },
                    (_, Some(v)) => {
                        lemma_prune(v, *b);
                        lemma_wrap_side(l, v, v.prune(*b));
                        lemma_tagged(v.prune(*b), *a);
                    },
                    _ => {},
                }
            },
            Ty::Product(a, b) => {
                lemma_parts(l);
                let (v, w) = l.as_product()->0;
                lemma_prune(v, *a);
                lemma_prune(w, *b);
                lemma_wrap_parts(l, v, w, v.prune(*a), w.prune(*b));
                lemma_product(v.prune(*a), w.prune(*b));
            },
        }
    }
}

/// The side of a sum that is pruned to a smaller type can be pruned and wrapped again.
pub(crate) proof fn lemma_prune_side(l: Located, side: Located, ty: Ty)
    requires
        l.wf(),
        l.as_left() == Some(side) || l.as_right() == Some(side),
        ty.fits(),
        ty.le(side.ty),
    ensures
        side.wf(),
        side.prune(ty).ty == ty,
        buffer_fits(side.prune(ty).val.size() + 1),
{
    lemma_parts(l);
    lemma_prune(side, ty);
    lemma_wrap_side(l, side, side.prune(ty));
}

/// The parts of a product that are pruned to smaller types can be pruned and paired again.
pub(crate) proof fn lemma_prune_pair(l: Located, v: Located, w: Located, a: Ty, b: Ty)
    requires
        l.wf(),
        l.as_product() == Some((v, w)),
        a.fits(),
        b.fits(),
        a.le(v.ty),
        b.le(w.ty),
    ensures
        v.wf(),
        w.wf(),
        v.prune(a).ty == a,
        w.prune(b).ty == b,
        buffer_fits(v.prune(a).val.size() + w.prune(b).val.size()),
{
    lemma_parts(l);
    lemma_prune(v, a);
    lemma_prune(w, b);
    lemma_wrap_parts(l, v, w, v.prune(a), w.prune(b));
}

} // verus!
