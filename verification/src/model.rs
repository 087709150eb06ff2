//! # The mathematics of values
//!
//! [`Val`] is a value as a tree. Its compact encoding spends one bit on every sum and none on
//! anything else. Its padded encoding fills each sum up to the width of the wider side, so that
//! all values of a type are encoded in the same number of bits.
use crate::bits::{drop_bits, zeros};
use crate::types::{max_nat, Ty};
use vstd::arithmetic::power2::{lemma2_to64, lemma_pow2_unfold, pow2};
use vstd::prelude::*;

verus! {

/// A Simplicity value as a mathematical tree.
pub enum Val {
    Unit,
    Left(Box<Val>),
    Right(Box<Val>),
    Pair(Box<Val>, Box<Val>),
}

/// The two bit encodings of values.
#[derive(Clone, Copy, PartialEq, Eq, Structural, Debug)]
pub enum Encoding {
    /// A tag bit for each sum, directly followed by the chosen side.
    Compact,
    /// A tag bit for each sum, followed by padding and then the chosen side.
    Padded,
}

impl Val {
    /// The value that wraps `inner` on the left.
    pub open spec fn left(inner: Val) -> Val {
        Val::Left(Box::new(inner))
    }

    /// The value that wraps `inner` on the right.
    pub open spec fn right(inner: Val) -> Val {
        Val::Right(Box::new(inner))
    }

    /// The value that holds both parts.
    pub open spec fn pair(left: Val, right: Val) -> Val {
        Val::Pair(Box::new(left), Box::new(right))
    }

    /// The value is of the given type.
    pub open spec fn has_type(self, ty: Ty) -> bool
        decreases self,
    {
        match (self, ty) {
            (Val::Unit, Ty::Unit) => true,
            (Val::Left(v), Ty::Sum(a, _)) => v.has_type(*a),
            (Val::Right(v), Ty::Sum(_, b)) => v.has_type(*b),
            (Val::Pair(v, w), Ty::Product(a, b)) => v.has_type(*a) && w.has_type(*b),
            _ => false,
        }
    }

    /// The compact encoding.
    pub open spec fn bits(self) -> Seq<bool>
        decreases self,
    {
        match self {
            Val::Unit => Seq::empty(),
            Val::Left(v) => seq![false] + v.bits(),
            Val::Right(v) => seq![true] + v.bits(),
            Val::Pair(v, w) => v.bits() + w.bits(),
        }
    }

    /// The number of bits of the compact encoding.
    pub open spec fn size(self) -> nat {
        self.bits().len()
    }

    /// The padded encoding as a value of the given type, with zeros for padding.
    pub open spec fn padded_bits(self, ty: Ty) -> Seq<bool>
        decreases self,
    {
        match (self, ty) {
            (Val::Left(v), Ty::Sum(a, b)) => seq![false] + zeros(
                padding(Encoding::Padded, *a, *b, false),
            ) + v.padded_bits(*a),
            (Val::Right(v), Ty::Sum(a, b)) => seq![true] + zeros(
                padding(Encoding::Padded, *a, *b, true),
            ) + v.padded_bits(*b),
            (Val::Pair(v, w), Ty::Product(a, b)) => v.padded_bits(*a) + w.padded_bits(*b),
            _ => Seq::empty(),
        }
    }

    /// The value cut down to a smaller type:
    ///
    /// - `prune( v: T, 1 )` = `(): 1`
    /// - `prune( L(l): A1 + B1, A2 + B2 )` = `L( prune(l: A1, A2) ): A2 + B2`
    /// - `prune( R(r): A1 + B1, A2 + B2 )` = `R( prune(r: B1, B2) ): A2 + B2`
    /// - `prune( (l, r): A1 × B1, A2 × B2 )` = `( prune(l: A1, A2), prune(r: B1, B2) ): A2 × B2`
    pub open spec fn prune(self, ty: Ty) -> Val
        decreases self,
    {
        match (self, ty) {
            (Val::Left(v), Ty::Sum(a, _)) => Val::left(v.prune(*a)),
            (Val::Right(v), Ty::Sum(_, b)) => Val::right(v.prune(*b)),
            (Val::Pair(v, w), Ty::Product(a, b)) => Val::pair(v.prune(*a), w.prune(*b)),
            _ => Val::Unit,
        }
    }
}

/// The number of padding bits between the tag of a sum and the side that the tag selects.
pub open spec fn padding(encoding: Encoding, a: Ty, b: Ty, tag: bool) -> nat {
    match encoding {
        Encoding::Compact => 0,
        Encoding::Padded => (max_nat(a.width(), b.width()) - (if tag {
            b.width()
        } else {
            a.width()
        })) as nat,
    }
}

/// Read a value of the given type from the front of a bit stream.
///
/// Gives the value and the rest of the stream, or nothing where the stream ends before the tag
/// of a sum. Padding is skipped without looking at it; a stream may end inside of padding.
pub open spec fn parse(encoding: Encoding, ty: Ty, bits: Seq<bool>) -> Option<(Val, Seq<bool>)>
    decreases ty,
{
    match ty {
        Ty::Unit => Some((Val::Unit, bits)),
        Ty::Sum(a, b) => if bits.len() == 0 {
            None
        } else {
            let body = drop_bits(bits.skip(1), padding(encoding, *a, *b, bits[0]));
            if bits[0] {
                match parse(encoding, *b, body) {
                    Some((v, rest)) => Some((Val::right(v), rest)),
                    None => None,
                }
            } else {
                match parse(encoding, *a, body) {
                    Some((v, rest)) => Some((Val::left(v), rest)),
                    None => None,
                }
            }
        },
        Ty::Product(a, b) => match parse(encoding, *a, bits) {
            Some((v, rest)) => match parse(encoding, *b, rest) {
                Some((w, rest)) => Some((Val::pair(v, w), rest)),
                None => None,
            },
            None => None,
        },
    }
}

/// What is read has the type that was asked for.
pub proof fn lemma_parse_type(encoding: Encoding, ty: Ty, bits: Seq<bool>)
    ensures
        parse(encoding, ty, bits) matches Some((v, _)) ==> v.has_type(ty),
    decreases ty,
{
    match ty {
        Ty::Unit => {},
        Ty::Sum(a, b) => {
            if bits.len() > 0 {
                let body = drop_bits(bits.skip(1), padding(encoding, *a, *b, bits[0]));
                lemma_parse_type(encoding, *a, body);
                lemma_parse_type(encoding, *b, body);
            }
        },
        Ty::Product(a, b) => {
            lemma_parse_type(encoding, *a, bits);
            if let Some((v, rest)) = parse(encoding, *a, bits) {
                lemma_parse_type(encoding, *b, rest);
            }
        },
    }
}

/// A stream from which a value was read in compact form starts with the bits of that value.
pub proof fn lemma_parse_compact_sound(ty: Ty, bits: Seq<bool>)
    ensures
        parse(Encoding::Compact, ty, bits) matches Some((v, rest)) ==> bits == v.bits() + rest,
    decreases ty,
{
    match ty {
        Ty::Unit => {
            assert(Val::Unit.bits() + bits =~= bits);
        },
        Ty::Sum(a, b) => {
            if bits.len() > 0 {
                let body = bits.skip(1);
                assert(body.skip(0) =~= body);
                lemma_parse_compact_sound(*a, body);
                lemma_parse_compact_sound(*b, body);
                let side = if bits[0] {
                    *b
                } else {
                    *a
                };
                if let Some((v, rest)) = parse(Encoding::Compact, side, body) {
                    let tagged = if bits[0] {
                        Val::right(v)
                    } else {
                        Val::left(v)
                    };
                    assert(tagged.bits() == seq![bits[0]] + v.bits());
                    assert(body == v.bits() + rest);
                    assert(bits =~= seq![bits[0]] + body);
                    assert(bits =~= tagged.bits() + rest);
                }
            }
        },
        Ty::Product(a, b) => {
            lemma_parse_compact_sound(*a, bits);
            if let Some((v, rest)) = parse(Encoding::Compact, *a, bits) {
                lemma_parse_compact_sound(*b, rest);
                if let Some((w, rest2)) = parse(Encoding::Compact, *b, rest) {
                    assert(bits =~= Val::pair(v, w).bits() + rest2);
                }
            }
        },
    }
}

/// Reading in compact form gives back any value whose compact encoding the stream starts with.
pub proof fn lemma_parse_compact_complete(v: Val, ty: Ty, rest: Seq<bool>)
    requires
        v.has_type(ty),
    ensures
        parse(Encoding::Compact, ty, v.bits() + rest) == Some((v, rest)),
    decreases v,
{
    let bits = v.bits() + rest;
    match (v, ty) {
        (Val::Unit, Ty::Unit) => {
            assert(bits =~= rest);
        },
        (Val::Left(w), Ty::Sum(a, b)) => {
            lemma_parse_compact_complete(*w, *a, rest);
            assert(bits.skip(1).skip(0) =~= w.bits() + rest);
        },
        (Val::Right(w), Ty::Sum(a, b)) => {
            lemma_parse_compact_complete(*w, *b, rest);
            assert(bits.skip(1).skip(0) =~= w.bits() + rest);
        },
        (Val::Pair(w, x), Ty::Product(a, b)) => {
            assert(bits =~= w.bits() + (x.bits() + rest));
            lemma_parse_compact_complete(*w, *a, x.bits() + rest);
            lemma_parse_compact_complete(*x, *b, rest);
        },
        _ => {},
    }
}

/// The compact encoding is never longer than the padded one, and it is empty only where the
/// type has no bits at all.
pub proof fn lemma_size(v: Val, ty: Ty)
    requires
        v.has_type(ty),
    ensures
        v.size() <= ty.width(),
        (v.size() == 0) == (ty.width() == 0),
    decreases v,
{
    match (v, ty) {
        (Val::Left(w), Ty::Sum(a, b)) => {
            lemma_size(*w, *a);
        },
        (Val::Right(w), Ty::Sum(a, b)) => {
            lemma_size(*w, *b);
        },
        (Val::Pair(w, x), Ty::Product(a, b)) => {
            lemma_size(*w, *a);
            lemma_size(*x, *b);
        },
        _ => {},
    }
}

/// A value of a type is determined by its bits.
pub proof fn lemma_bits_determine(v: Val, w: Val, ty: Ty)
    requires
        v.has_type(ty),
        w.has_type(ty),
        v.bits() == w.bits(),
    ensures
        v == w,
{
    lemma_parse_compact_complete(v, ty, Seq::empty());
    lemma_parse_compact_complete(w, ty, Seq::empty());
}

/// Pruning a value to its own type has no effect.
pub proof fn lemma_prune_same(v: Val, ty: Ty)
    requires
        v.has_type(ty),
    ensures
        v.prune(ty) == v,
    decreases v,
{
    match (v, ty) {
        (Val::Left(w), Ty::Sum(a, b)) => {
            lemma_prune_same(*w, *a);
        },
        (Val::Right(w), Ty::Sum(a, b)) => {
            lemma_prune_same(*w, *b);
        },
        (Val::Pair(w, x), Ty::Product(a, b)) => {
            lemma_prune_same(*w, *a);
            lemma_prune_same(*x, *b);
        },
        _ => {},
    }
}

/// Pruning never makes a value longer.
pub proof fn lemma_prune_size(v: Val, ty: Ty)
    ensures
        v.prune(ty).size() <= v.size(),
    decreases v,
{
    match (v, ty) {
        (Val::Left(w), Ty::Sum(a, b)) => {
            lemma_prune_size(*w, *a);
        },
        (Val::Right(w), Ty::Sum(a, b)) => {
            lemma_prune_size(*w, *b);
        },
        (Val::Pair(w, x), Ty::Product(a, b)) => {
            lemma_prune_size(*w, *a);
            lemma_prune_size(*x, *b);
        },
        _ => {},
    }
}

/// The value of type `2^(2^n)` whose compact encoding is the given `2^n` bits.
pub open spec fn word_val(n: nat, bits: Seq<bool>) -> Val
    decreases n,
{
    if n == 0 {
        if bits[0] {
            Val::right(Val::Unit)
        } else {
            Val::left(Val::Unit)
        }
    } else {
        let half = bits.len() / 2;
        Val::pair(
            word_val((n - 1) as nat, bits.take(half as int)),
            word_val((n - 1) as nat, bits.skip(half as int)),
        )
    }
}

/// Every sequence of `2^n` bits encodes a value of type `2^(2^n)`.
pub proof fn lemma_word_val(n: nat, bits: Seq<bool>)
    requires
        bits.len() == pow2(n),
    ensures
        word_val(n, bits).has_type(Ty::word(n)),
        word_val(n, bits).bits() == bits,
    decreases n,
{
    if n == 0 {
        lemma2_to64();
        assert(word_val(n, bits).bits() =~= seq![bits[0]] + Val::Unit.bits());
        assert(word_val(n, bits).bits() =~= bits);
        assert(Val::Unit.has_type(Ty::Unit));
    } else {
        lemma_pow2_unfold(n);
        let half = (bits.len() / 2) as int;
        lemma_word_val((n - 1) as nat, bits.take(half));
        lemma_word_val((n - 1) as nat, bits.skip(half));
        assert(bits.take(half) + bits.skip(half) =~= bits);
    }
}

} // verus!
