//! # Laws of pruning
//!
//! When [`ValueCompact::prune`] succeeds and what it gives, in terms of pruning the parts of the
//! value. `call_ensures(f, args, res)` reads: a call of `f` with these arguments can give `res`.
use crate::bits::right_aligned;
use crate::laws::{built_values_are_right_aligned, is_aligned, smallness_is_structural};
use crate::storage::{lemma_located, lemma_parts, lemma_prune, Located, Stored};
use crate::types::{Final, Ty};
use crate::value_compact::{ValueCompact, ValueRef};
use crate::value_laws::{has_bits, is_snug, is_tagged, lemma_bits};
use vstd::prelude::*;

verus! {

/// Any value can be pruned to the unit type, and then has no bits.
pub proof fn pruning_to_the_unit_type(
    v: ValueCompact,
    ty: &Final,
    res: Option<ValueCompact>,
    bits: Seq<bool>,
)
    requires
        ty@ is Unit,
        call_ensures(ValueCompact::prune, (&v, ty), res),
        res is Some ==> has_bits(res->0, bits),
    ensures
        res matches Some(p) && p@.ty is Unit && (!(v@.ty is Unit) ==> p@.raw.len() == 0),
        bits.len() == 0,
{
    lemma_bits(res->0, bits);
}

/// Any value can be pruned to its own type, which has no effect.
pub proof fn pruning_to_the_own_type(v: ValueCompact, ty: &Final, res: Option<ValueCompact>)
    requires
        v.inv(),
        ty@ == v@.ty,
        call_ensures(ValueCompact::prune, (&v, ty), res),
    ensures
        res matches Some(p) && p@.ty == v@.ty && p@.val == v@.val && p@.raw == v@.raw,
{
    lemma_located(v@);
    smallness_is_structural(v@.ty, Ty::Unit, Ty::Unit, Ty::Unit, Ty::Unit);
}

/// A value cannot be pruned to a type of another shape, other than the unit type.
pub proof fn pruning_keeps_the_shape(v: ValueCompact, ty: &Final, res: Option<ValueCompact>)
    requires
        call_ensures(ValueCompact::prune, (&v, ty), res),
    ensures
        ty@ is Sum && !(v@.ty is Sum) ==> res is None,
        ty@ is Product && !(v@.ty is Product) ==> res is None,
        res matches Some(p) ==> p@.ty == ty@,
{
}

/// A value of a sum or of a product can be pruned exactly if values of the left type can be pruned
/// to the left type that is asked for, and values of the right type to the right one. It does not
/// matter which values these are.
pub proof fn pruning_asks_for_smaller_parts(
    v: ValueCompact,
    ty: &Final,
    res: Option<ValueCompact>,
    left: ValueCompact,
    left_ty: &Final,
    left_res: Option<ValueCompact>,
    right: ValueCompact,
    right_ty: &Final,
    right_res: Option<ValueCompact>,
)
    requires
        (v@.ty == Ty::Sum(Box::new(left@.ty), Box::new(right@.ty)) && ty@ == Ty::Sum(
            Box::new(left_ty@),
            Box::new(right_ty@),
        )) || (v@.ty == Ty::Product(Box::new(left@.ty), Box::new(right@.ty)) && ty@
            == Ty::Product(Box::new(left_ty@), Box::new(right_ty@))),
        call_ensures(ValueCompact::prune, (&v, ty), res),
        call_ensures(ValueCompact::prune, (&left, left_ty), left_res),
        call_ensures(ValueCompact::prune, (&right, right_ty), right_res),
    ensures
        res is Some <==> left_res is Some && right_res is Some,
{
    smallness_is_structural(v@.ty, left_ty@, right_ty@, left@.ty, right@.ty);
}

/// Pruning a left value prunes its inner value.
pub proof fn pruning_of_a_left_value(
    v: ValueCompact,
    ty: &Final,
    p: ValueCompact,
    bits: Seq<bool>,
    whole: ValueRef<'_>,
    part: ValueRef<'_>,
    inner: ValueCompact,
    inner_ty: &Final,
    other_ty: Ty,
    inner_p: Option<ValueCompact>,
    inner_bits: Seq<bool>,
)
    requires
        v.inv(),
        ty@ == Ty::Sum(Box::new(inner_ty@), Box::new(other_ty)),
        ty.inv(),
        call_ensures(ValueCompact::prune, (&v, ty), Some(p)),
        has_bits(p, bits),
        call_ensures(ValueCompact::as_ref, (&v,), whole),
        call_ensures(ValueRef::as_left, (&whole,), Some(part)),
        call_ensures(ValueRef::to_value, (&part,), inner),
        call_ensures(ValueCompact::prune, (&inner, inner_ty), inner_p),
        inner_p is Some ==> has_bits(inner_p->0, inner_bits),
    ensures
        inner_p is Some,
        bits == seq![false] + inner_bits,
        ty@ == v@.ty || is_tagged(p, inner_p->0, inner_bits.len(), false),
{
    lemma_located(v@);
    lemma_parts(v@.located());
    let l = v@.located().as_left()->0;
    assert(l.stored().located() == l);
    let q = inner_p->0;
    lemma_bits(p, bits);
    lemma_bits(q, inner_bits);
    assert(p@.val == v@.val.prune(ty@));
    lemma_located(inner@);
    lemma_prune(l, inner_ty@);
}

/// Pruning a right value prunes its inner value.
pub proof fn pruning_of_a_right_value(
    v: ValueCompact,
    ty: &Final,
    p: ValueCompact,
    bits: Seq<bool>,
    whole: ValueRef<'_>,
    part: ValueRef<'_>,
    inner: ValueCompact,
    inner_ty: &Final,
    other_ty: Ty,
    inner_p: Option<ValueCompact>,
    inner_bits: Seq<bool>,
)
    requires
        v.inv(),
        ty@ == Ty::Sum(Box::new(other_ty), Box::new(inner_ty@)),
        ty.inv(),
        call_ensures(ValueCompact::prune, (&v, ty), Some(p)),
        has_bits(p, bits),
        call_ensures(ValueCompact::as_ref, (&v,), whole),
        call_ensures(ValueRef::as_right, (&whole,), Some(part)),
        call_ensures(ValueRef::to_value, (&part,), inner),
        call_ensures(ValueCompact::prune, (&inner, inner_ty), inner_p),
        inner_p is Some ==> has_bits(inner_p->0, inner_bits),
    ensures
        inner_p is Some,
        bits == seq![true] + inner_bits,
        ty@ == v@.ty || is_tagged(p, inner_p->0, inner_bits.len(), true),
{
    lemma_located(v@);
    lemma_parts(v@.located());
    let l = v@.located().as_right()->0;
    assert(l.stored().located() == l);
    let q = inner_p->0;
    lemma_bits(p, bits);
    lemma_bits(q, inner_bits);
    assert(p@.val == v@.val.prune(ty@));
    lemma_located(inner@);
    lemma_prune(l, inner_ty@);
}

/// Pruning a part that does not lie at the end of its buffer gives a value in a buffer of its own.
proof fn lemma_prune_aligned(l: Located, ty: Ty)
    requires
        l.wf(),
        ty.fits(),
        ty.le(l.ty),
        l.end() < l.raw.len(),
    ensures
        is_aligned(l.prune(ty)),
    decreases ty,
{
    lemma_parts(l);
    lemma_prune(l, ty);
    let unit = Stored::unit();
    if l.ty != ty {
        match ty {
            Ty::Unit => {
                assert(unit.raw =~= right_aligned(unit.val.bits()));
            },
            Ty::Sum(a, b) => {
                if let Some(v) = l.as_left() {
                    lemma_prune_aligned(v, *a);
                    lemma_prune(v, *a);
                    built_values_are_right_aligned(v.prune(*a), v.prune(*a), *b);
                }
                if let Some(v) = l.as_right() {
                    lemma_prune_aligned(v, *b);
                    lemma_prune(v, *b);
                    built_values_are_right_aligned(v.prune(*b), v.prune(*b), *a);
                }
            },
            Ty::Product(a, b) => {
                let (v, w) = l.as_product()->0;
                lemma_prune_aligned(v, *a);
                lemma_prune_aligned(w, *b);
                lemma_prune(v, *a);
                lemma_prune(w, *b);
                built_values_are_right_aligned(v.prune(*a), w.prune(*b), *a);
            },
        }
    }
}

/// Pruning a product prunes both of its parts.
///
/// Where only the left part has bits to begin with, its buffer is kept, and likewise where only the
/// right part has bits left. Otherwise the pruned value has a buffer that holds just the value.
pub proof fn pruning_of_a_product(
    v: ValueCompact,
    ty: &Final,
    p: ValueCompact,
    bits: Seq<bool>,
    whole: ValueRef<'_>,
    parts: (ValueRef<'_>, ValueRef<'_>),
    left: ValueCompact,
    left_ty: &Final,
    left_p: Option<ValueCompact>,
    left_bits: Seq<bool>,
    right: ValueCompact,
    right_size: usize,
    right_ty: &Final,
    right_p: Option<ValueCompact>,
    right_bits: Seq<bool>,
)
    requires
        v.inv(),
        ty@ == Ty::Product(Box::new(left_ty@), Box::new(right_ty@)),
        ty.inv(),
        call_ensures(ValueCompact::prune, (&v, ty), Some(p)),
        has_bits(p, bits),
        call_ensures(ValueCompact::as_ref, (&v,), whole),
        call_ensures(ValueRef::as_product, (&whole,), Some(parts)),
        call_ensures(ValueRef::to_value, (&parts.0,), left),
        call_ensures(ValueCompact::prune, (&left, left_ty), left_p),
        left_p is Some ==> has_bits(left_p->0, left_bits),
        call_ensures(ValueRef::to_value, (&parts.1,), right),
        call_ensures(ValueCompact::len, (&right,), right_size),
        call_ensures(ValueCompact::prune, (&right, right_ty), right_p),
        right_p is Some ==> has_bits(right_p->0, right_bits),
    ensures
        left_p is Some,
        right_p is Some,
        bits == left_bits + right_bits,
        ty@ != v@.ty ==> {
            &&& left_bits.len() == 0 && right_bits.len() == 0 ==> p@.raw.len() == 0
            &&& left_bits.len() > 0 && right_bits.len() > 0 ==> is_snug(p, bits.len())
            &&& left_bits.len() == 0 && right_bits.len() > 0 ==> p@.raw == right_p->0@.raw
            &&& left_bits.len() > 0 && right_size == 0 ==> p@.raw == left_p->0@.raw
            &&& left_bits.len() > 0 && right_size > 0 ==> is_snug(p, bits.len())
        },
{
    lemma_located(v@);
    lemma_parts(v@.located());
    let (l, r) = v@.located().as_product()->0;
    assert(r.stored().located() == r);
    lemma_bits(p, bits);
    lemma_bits(left_p->0, left_bits);
    lemma_bits(right_p->0, right_bits);
    assert(p@.val == v@.val.prune(ty@));
    lemma_prune(l, left_ty@);
    lemma_prune(r, right_ty@);
    lemma_prune(v@.located(), ty@);
    if l.end() < l.raw.len() {
        lemma_prune_aligned(l, left_ty@);
    } else {
        assert(l.stored().located() == l);
    }
}

} // verus!
