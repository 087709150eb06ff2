//! # Laws of types
//!
//! What calls of the functions on types give, one in terms of the other. `call_ensures(f, args, res)`
//! reads: a call of `f` with these arguments can give `res`.
use crate::model::{padding, Encoding};
use crate::types::{lemma_word, CompleteBound, Final, Ty};
use std::sync::Arc;
use vstd::arithmetic::power2::pow2;
use vstd::prelude::*;

verus! {

/// The unit type has no parts and no bits.
pub proof fn unit_type_is_empty(
    ty: Arc<Final>,
    is_unit: bool,
    width: usize,
    sum: Option<(&Arc<Final>, &Arc<Final>)>,
    product: Option<(&Arc<Final>, &Arc<Final>)>,
    word: Option<usize>,
)
    requires
        call_ensures(Final::unit, (), ty),
        call_ensures(Final::is_unit, (&*ty,), is_unit),
        call_ensures(Final::bit_width, (&*ty,), width),
        call_ensures(Final::as_sum, (&*ty,), sum),
        call_ensures(Final::as_product, (&*ty,), product),
        call_ensures(Final::word_exponent, (&*ty,), word),
    ensures
        ty@ is Unit,
        is_unit,
        width == 0,
        sum is None,
        product is None,
        word is None,
{
    if let Some(n) = word {
        lemma_word(n as nat);
    }
}

/// The parts of a sum are the types that it was made of, and a sum is nothing else.
pub proof fn sum_type_has_its_sides(
    left: Arc<Final>,
    right: Arc<Final>,
    ty: Arc<Final>,
    is_unit: bool,
    sum: Option<(&Arc<Final>, &Arc<Final>)>,
    product: Option<(&Arc<Final>, &Arc<Final>)>,
)
    requires
        call_ensures(Final::sum, (left, right), ty),
        call_ensures(Final::is_unit, (&*ty,), is_unit),
        call_ensures(Final::as_sum, (&*ty,), sum),
        call_ensures(Final::as_product, (&*ty,), product),
    ensures
        ty@ == Ty::Sum(Box::new(left@), Box::new(right@)),
        !is_unit,
        sum matches Some((a, b)) && a@ == left@ && b@ == right@,
        product is None,
{
}

/// The parts of a product are the types that it was made of, and a product is nothing else.
pub proof fn product_type_has_its_parts(
    left: Arc<Final>,
    right: Arc<Final>,
    ty: Arc<Final>,
    is_unit: bool,
    sum: Option<(&Arc<Final>, &Arc<Final>)>,
    product: Option<(&Arc<Final>, &Arc<Final>)>,
)
    requires
        call_ensures(Final::product, (left, right), ty),
        call_ensures(Final::is_unit, (&*ty,), is_unit),
        call_ensures(Final::as_sum, (&*ty,), sum),
        call_ensures(Final::as_product, (&*ty,), product),
    ensures
        ty@ == Ty::Product(Box::new(left@), Box::new(right@)),
        !is_unit,
        sum is None,
        product matches Some((a, b)) && a@ == left@ && b@ == right@,
{
}

/// Every type is the unit type, a sum or a product, and only one of them. All ways to ask agree.
pub proof fn types_have_one_shape(
    ty: Final,
    is_unit: bool,
    sum: Option<(&Arc<Final>, &Arc<Final>)>,
    product: Option<(&Arc<Final>, &Arc<Final>)>,
    bound: &CompleteBound,
)
    requires
        call_ensures(Final::is_unit, (&ty,), is_unit),
        call_ensures(Final::as_sum, (&ty,), sum),
        call_ensures(Final::as_product, (&ty,), product),
        call_ensures(Final::bound, (&ty,), bound),
    ensures
        is_unit == (ty@ is Unit),
        sum is Some <==> ty@ is Sum,
        product is Some <==> ty@ is Product,
        sum matches Some((a, b)) ==> ty@ == Ty::Sum(Box::new(a@), Box::new(b@)),
        product matches Some((a, b)) ==> ty@ == Ty::Product(Box::new(a@), Box::new(b@)),
        match *bound {
            CompleteBound::Unit => ty@ is Unit,
            CompleteBound::Sum(a, b) => ty@ == Ty::Sum(Box::new(a@), Box::new(b@)),
            CompleteBound::Product(a, b) => ty@ == Ty::Product(Box::new(a@), Box::new(b@)),
        },
{
}

/// A sum is one bit wider than its wider side.
pub proof fn sum_has_room_for_its_wider_side(
    ty: Final,
    left: Arc<Final>,
    right: Arc<Final>,
    width: usize,
    left_width: usize,
    right_width: usize,
)
    requires
        ty@ == Ty::Sum(Box::new(left@), Box::new(right@)),
        call_ensures(Final::bit_width, (&ty,), width),
        call_ensures(Final::bit_width, (&*left,), left_width),
        call_ensures(Final::bit_width, (&*right,), right_width),
    ensures
        width >= left_width + 1,
        width >= right_width + 1,
        width == left_width + 1 || width == right_width + 1,
{
}

/// A product is as wide as both of its parts together.
pub proof fn product_has_room_for_both_parts(
    ty: Final,
    left: Arc<Final>,
    right: Arc<Final>,
    width: usize,
    left_width: usize,
    right_width: usize,
)
    requires
        ty@ == Ty::Product(Box::new(left@), Box::new(right@)),
        call_ensures(Final::bit_width, (&ty,), width),
        call_ensures(Final::bit_width, (&*left,), left_width),
        call_ensures(Final::bit_width, (&*right,), right_width),
    ensures
        width == left_width + right_width,
{
}

/// Widths count bits: no bits for the unit, one bit more than the wider side for a sum, and the bits
/// of both parts for a product.
pub proof fn widths_add_up(a: Ty, b: Ty)
    ensures
        Ty::Unit.width() == 0,
        Ty::Sum(Box::new(a), Box::new(b)).width() >= a.width() + 1,
        Ty::Sum(Box::new(a), Box::new(b)).width() >= b.width() + 1,
        Ty::Sum(Box::new(a), Box::new(b)).width() == a.width() + 1 || Ty::Sum(
            Box::new(a),
            Box::new(b),
        ).width() == b.width() + 1,
        Ty::Product(Box::new(a), Box::new(b)).width() == a.width() + b.width(),
{
}

/// The padding after the tag of a sum is what the side that was chosen is narrower than the wider
/// one. The wider side has none, and the compact encoding has none at all.
pub proof fn padding_levels_the_sides(a: Ty, b: Ty)
    ensures
        padding(Encoding::Padded, a, b, false) + a.width() == padding(Encoding::Padded, a, b, true)
            + b.width(),
        a.width() >= b.width() ==> padding(Encoding::Padded, a, b, false) == 0,
        a.width() <= b.width() ==> padding(Encoding::Padded, a, b, true) == 0,
        1 + padding(Encoding::Padded, a, b, false) + a.width() == Ty::Sum(
            Box::new(a),
            Box::new(b),
        ).width(),
        padding(Encoding::Compact, a, b, false) == 0,
        padding(Encoding::Compact, a, b, true) == 0,
{
}

/// The first word type is a sum of two units. Each further one pairs the one before it with itself,
/// and so doubles its width.
pub proof fn words_are_squared(
    n: usize,
    ty: Arc<Final>,
    width: usize,
    next: Arc<Final>,
    next_width: usize,
)
    requires
        call_ensures(Final::two_two_n, (n,), ty),
        call_ensures(Final::bit_width, (&*ty,), width),
        n < 31,
        call_ensures(Final::two_two_n, ((n + 1) as usize,), next),
        call_ensures(Final::bit_width, (&*next,), next_width),
    ensures
        n == 0 ==> ty@ == Ty::Sum(Box::new(Ty::Unit), Box::new(Ty::Unit)),
        next@ == Ty::Product(Box::new(ty@), Box::new(ty@)),
        width == pow2(n as nat),
        next_width == 2 * width,
{
    lemma_word(n as nat);
    lemma_word((n + 1) as nat);
}

/// A type has the exponent `n` exactly if it is `2^(2^n)`.
pub proof fn word_exponents_tell_words(
    ty: Final,
    word: Option<usize>,
    n: usize,
    other: Arc<Final>,
)
    requires
        call_ensures(Final::word_exponent, (&ty,), word),
        call_ensures(Final::two_two_n, (n,), other),
    ensures
        word == Some(n) <==> ty@ == other@,
{
    lemma_word(n as nat);
}

/// The exponent of a type comes from its parts: a sum of two units has the exponent zero, the
/// product of two types with the same exponent has the next one, and no other type has one.
pub proof fn word_exponents_add_up(
    ty: Final,
    word: Option<usize>,
    left: Final,
    left_word: Option<usize>,
    right: Final,
    right_word: Option<usize>,
)
    requires
        call_ensures(Final::word_exponent, (&ty,), word),
        call_ensures(Final::word_exponent, (&left,), left_word),
        call_ensures(Final::word_exponent, (&right,), right_word),
    ensures
        ty@ is Unit ==> word is None,
        ty@ == Ty::Sum(Box::new(left@), Box::new(right@)) ==> {
            &&& word is Some <==> left@ is Unit && right@ is Unit
            &&& word matches Some(n) ==> n == 0
        },
        ty@ == Ty::Product(Box::new(left@), Box::new(right@)) ==> {
            &&& word is Some <==> left_word is Some && left_word == right_word
            &&& word matches Some(n) ==> left_word matches Some(m) && n == m + 1
        },
{
}

/// Types are equal exactly if their trees are, and a clone is the same type.
pub proof fn types_are_equal_as_trees(a: Final, b: Final, equal: bool, clone: Final)
    requires
        call_ensures(<Final as PartialEq>::eq, (&a, &b), equal),
        call_ensures(<Final as Clone>::clone, (&a,), clone),
    ensures
        equal == (a@ == b@),
        clone@ == a@,
{
}

} // verus!
