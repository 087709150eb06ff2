//! # Walking over encodings without recursion
//!
//! Encodings are walked with a stack of the types that are still to be read. The type on top of
//! the stack, which is the last one of the sequence, comes next in the bit stream.
use crate::bits::drop_bits;
use crate::model::{lemma_parse_type, padding, parse, Encoding, Val};
use crate::types::{Final, Ty};
use vstd::prelude::*;

verus! {

/// The types on a stack as trees.
pub open spec fn trees(stack: Seq<&Final>) -> Seq<Ty> {
    stack.map_values(|ty: &Final| ty@)
}

/// Read a value for each type on the stack.
///
/// Gives the compact encodings of the values, one after the other, and the rest of the stream.
pub open spec fn parse_stack(encoding: Encoding, stack: Seq<Ty>, bits: Seq<bool>) -> Option<
    (Seq<bool>, Seq<bool>),
>
    decreases stack.len(),
{
    if stack.len() == 0 {
        Some((Seq::empty(), bits))
    } else {
        match parse(encoding, stack.last(), bits) {
            Some((v, rest)) => match parse_stack(encoding, stack.drop_last(), rest) {
                Some((more, rest)) => Some((v.bits() + more, rest)),
                None => None,
            },
            None => None,
        }
    }
}

/// The nodes that are left to visit.
pub open spec fn stack_nodes(stack: Seq<Ty>) -> nat
    decreases stack.len(),
{
    if stack.len() == 0 {
        0
    } else {
        stack.last().nodes() + stack_nodes(stack.drop_last())
    }
}

/// The bits that the values of the types on the stack take at most.
pub open spec fn stack_width(stack: Seq<Ty>) -> nat
    decreases stack.len(),
{
    if stack.len() == 0 {
        0
    } else {
        stack.last().width() + stack_width(stack.drop_last())
    }
}

pub(crate) proof fn lemma_trees_push(stack: Seq<&Final>, ty: &Final)
    ensures
        trees(stack.push(ty)) == trees(stack).push(ty@),
{
    assert(trees(stack.push(ty)) =~= trees(stack).push(ty@));
}

pub(crate) proof fn lemma_stack_push(stack: Seq<Ty>, ty: Ty)
    ensures
        stack_nodes(stack.push(ty)) == ty.nodes() + stack_nodes(stack),
        stack_width(stack.push(ty)) == ty.width() + stack_width(stack),
{
    assert(stack.push(ty).drop_last() =~= stack);
}

/// A stack of one type.
pub(crate) proof fn lemma_parse_single(encoding: Encoding, ty: Ty, bits: Seq<bool>)
    ensures
        parse_stack(encoding, seq![ty], bits) == match parse(encoding, ty, bits) {
            Some((v, rest)) => Some((v.bits(), rest)),
            None => None,
        },
        stack_nodes(seq![ty]) == ty.nodes(),
        stack_width(seq![ty]) == ty.width(),
{
    let stack = seq![ty];
    assert(stack.drop_last() =~= Seq::empty());
    assert(stack_nodes(stack.drop_last()) == 0);
    assert(stack_width(stack.drop_last()) == 0);
    if let Some((v, rest)) = parse(encoding, ty, bits) {
        assert(parse_stack(encoding, stack.drop_last(), rest) == Some((Seq::<bool>::empty(), rest)));
        assert(v.bits() + Seq::<bool>::empty() =~= v.bits());
    }
}

/// A unit on top of the stack takes no bits.
pub(crate) proof fn lemma_parse_unit(encoding: Encoding, stack: Seq<Ty>, bits: Seq<bool>)
    ensures
        parse_stack(encoding, stack.push(Ty::Unit), bits) == parse_stack(encoding, stack, bits),
{
    assert(stack.push(Ty::Unit).drop_last() =~= stack);
    if let Some((more, rest)) = parse_stack(encoding, stack, bits) {
        assert(Val::Unit.bits() + more =~= more);
    }
}

/// A sum on top of the stack takes a tag bit and turns into the side that the tag selects.
pub(crate) proof fn lemma_parse_sum(
    encoding: Encoding,
    stack: Seq<Ty>,
    a: Ty,
    b: Ty,
    bits: Seq<bool>,
)
    ensures
        parse_stack(encoding, stack.push(Ty::sum(a, b)), bits) == if bits.len() == 0 {
            None
        } else {
            match parse_stack(
                encoding,
                stack.push(
                    if bits[0] {
                        b
                    } else {
                        a
                    },
                ),
                drop_bits(drop_bits(bits, 1), padding(encoding, a, b, bits[0])),
            ) {
                Some((more, rest)) => Some((seq![bits[0]] + more, rest)),
                None => None,
            }
        },
{
    assert(stack.push(Ty::sum(a, b)).drop_last() =~= stack);
    if bits.len() > 0 {
        let side = if bits[0] {
            b
        } else {
            a
        };
        let body = drop_bits(bits.skip(1), padding(encoding, a, b, bits[0]));
        assert(stack.push(side).drop_last() =~= stack);
        if let Some((v, rest)) = parse(encoding, side, body) {
            let tagged = if bits[0] {
                Val::right(v)
            } else {
                Val::left(v)
            };
            assert(tagged.bits() == seq![bits[0]] + v.bits());
            if let Some((more, rest2)) = parse_stack(encoding, stack, rest) {
                assert(tagged.bits() + more =~= seq![bits[0]] + (v.bits() + more));
            }
        }
    }
}

/// A product on top of the stack turns into its parts, the left one on top.
pub(crate) proof fn lemma_parse_product(
    encoding: Encoding,
    stack: Seq<Ty>,
    a: Ty,
    b: Ty,
    bits: Seq<bool>,
)
    ensures
        parse_stack(encoding, stack.push(Ty::product(a, b)), bits) == parse_stack(
            encoding,
            stack.push(b).push(a),
            bits,
        ),
{
    assert(stack.push(Ty::product(a, b)).drop_last() =~= stack);
    assert(stack.push(b).push(a).drop_last() =~= stack.push(b));
    assert(stack.push(b).drop_last() =~= stack);
    reveal_with_fuel(parse_stack, 2);
    if let Some((v, rest)) = parse(encoding, a, bits) {
        if let Some((w, rest2)) = parse(encoding, b, rest) {
            if let Some((more, rest3)) = parse_stack(encoding, stack, rest2) {
                assert(Val::pair(v, w).bits() + more =~= v.bits() + (w.bits() + more));
            }
        }
    }
}

/// How far the reading of a value has come: the value consists of the bits that are done and of
/// what the types on the stack are going to take off the stream ahead.
pub open spec fn progress(
    encoding: Encoding,
    ty: Ty,
    start: Seq<bool>,
    done: Seq<bool>,
    stack: Seq<Ty>,
    ahead: Seq<bool>,
) -> bool {
    match parse_stack(encoding, stack, ahead) {
        Some((more, rest)) => {
            &&& parse(encoding, ty, start) matches Some((v, end))
            &&& v.bits() == done + more
            &&& end == rest
        },
        None => parse(encoding, ty, start) is None,
    }
}

/// Whatever follows the bits that are done, the reading of a value goes on with the types on the
/// stack.
pub open spec fn extends(ty: Ty, done: Seq<bool>, stack: Seq<Ty>) -> bool {
    forall|tail: Seq<bool>|
        #![trigger parse_stack(Encoding::Compact, stack, tail)]
        progress(
            Encoding::Compact,
            ty,
            done + tail,
            done,
            stack,
            tail,
        )
}

pub(crate) proof fn lemma_progress_start(encoding: Encoding, ty: Ty, start: Seq<bool>)
    ensures
        progress(encoding, ty, start, Seq::empty(), seq![ty], start),
{
    lemma_parse_single(encoding, ty, start);
    if let Some((v, _)) = parse(encoding, ty, start) {
        assert(Seq::<bool>::empty() + v.bits() =~= v.bits());
    }
}

pub(crate) proof fn lemma_progress_unit(
    encoding: Encoding,
    ty: Ty,
    start: Seq<bool>,
    done: Seq<bool>,
    stack: Seq<Ty>,
    ahead: Seq<bool>,
)
    requires
        progress(encoding, ty, start, done, stack.push(Ty::Unit), ahead),
    ensures
        progress(encoding, ty, start, done, stack, ahead),
{
    lemma_parse_unit(encoding, stack, ahead);
}

pub(crate) proof fn lemma_progress_sum(
    encoding: Encoding,
    ty: Ty,
    start: Seq<bool>,
    done: Seq<bool>,
    stack: Seq<Ty>,
    a: Ty,
    b: Ty,
    ahead: Seq<bool>,
)
    requires
        progress(encoding, ty, start, done, stack.push(Ty::sum(a, b)), ahead),
    ensures
        ahead.len() == 0 ==> parse(encoding, ty, start) is None,
        ahead.len() > 0 ==> progress(
            encoding,
            ty,
            start,
            done.push(ahead[0]),
            stack.push(
                if ahead[0] {
                    b
                } else {
                    a
                },
            ),
            drop_bits(drop_bits(ahead, 1), padding(encoding, a, b, ahead[0])),
        ),
{
    lemma_parse_sum(encoding, stack, a, b, ahead);
    if ahead.len() > 0 {
        let side = if ahead[0] {
            b
        } else {
            a
        };
        let body = drop_bits(drop_bits(ahead, 1), padding(encoding, a, b, ahead[0]));
        if let Some((more, _)) = parse_stack(encoding, stack.push(side), body) {
            assert(done + (seq![ahead[0]] + more) =~= done.push(ahead[0]) + more);
        }
    }
}

pub(crate) proof fn lemma_progress_product(
    encoding: Encoding,
    ty: Ty,
    start: Seq<bool>,
    done: Seq<bool>,
    stack: Seq<Ty>,
    a: Ty,
    b: Ty,
    ahead: Seq<bool>,
)
    requires
        progress(encoding, ty, start, done, stack.push(Ty::product(a, b)), ahead),
    ensures
        progress(encoding, ty, start, done, stack.push(b).push(a), ahead),
{
    lemma_parse_product(encoding, stack, a, b, ahead);
}

/// With nothing left on the stack, the bits that are done encode the value that was read.
pub(crate) proof fn lemma_progress_end(
    encoding: Encoding,
    ty: Ty,
    start: Seq<bool>,
    done: Seq<bool>,
    ahead: Seq<bool>,
)
    requires
        progress(encoding, ty, start, done, Seq::empty(), ahead),
    ensures
        parse(encoding, ty, start) matches Some((v, rest)) && v.bits() == done && rest == ahead
            && v.has_type(ty),
{
    assert(done + Seq::<bool>::empty() =~= done);
    lemma_parse_type(encoding, ty, start);
}

pub(crate) proof fn lemma_extends_start(ty: Ty)
    ensures
        extends(ty, Seq::empty(), seq![ty]),
{
    assert forall|tail: Seq<bool>|
        #![trigger parse_stack(Encoding::Compact, seq![ty], tail)]
        progress(
        Encoding::Compact,
        ty,
        Seq::empty() + tail,
        Seq::empty(),
        seq![ty],
        tail,
    ) by {
        assert(Seq::empty() + tail =~= tail);
        lemma_progress_start(Encoding::Compact, ty, tail);
    }
}

pub(crate) proof fn lemma_extends_unit(ty: Ty, done: Seq<bool>, stack: Seq<Ty>)
    requires
        extends(ty, done, stack.push(Ty::Unit)),
    ensures
        extends(ty, done, stack),
{
    assert forall|tail: Seq<bool>|
        #![trigger parse_stack(Encoding::Compact, stack, tail)]
        progress(
        Encoding::Compact,
        ty,
        done + tail,
        done,
        stack,
        tail,
    ) by {
        lemma_parse_unit(Encoding::Compact, stack, tail);
    }
}

pub(crate) proof fn lemma_extends_sum(
    ty: Ty,
    done: Seq<bool>,
    stack: Seq<Ty>,
    a: Ty,
    b: Ty,
    tag: bool,
)
    requires
        extends(ty, done, stack.push(Ty::sum(a, b))),
    ensures
        extends(
            ty,
            done.push(tag),
            stack.push(
                if tag {
                    b
                } else {
                    a
                },
            ),
        ),
{
    let side = if tag {
        b
    } else {
        a
    };
    assert forall|tail: Seq<bool>|
        #![trigger parse_stack(Encoding::Compact, stack.push(side), tail)]
        progress(
        Encoding::Compact,
        ty,
        done.push(tag) + tail,
        done.push(tag),
        stack.push(side),
        tail,
    ) by {
        let longer = seq![tag] + tail;
        assert(longer.skip(1).skip(0) =~= tail);
        assert(done + longer =~= done.push(tag) + tail);
        lemma_parse_sum(Encoding::Compact, stack, a, b, longer);
        lemma_progress_sum(Encoding::Compact, ty, done + longer, done, stack, a, b, longer);
    }
}

pub(crate) proof fn lemma_extends_product(ty: Ty, done: Seq<bool>, stack: Seq<Ty>, a: Ty, b: Ty)
    requires
        extends(ty, done, stack.push(Ty::product(a, b))),
    ensures
        extends(ty, done, stack.push(b).push(a)),
{
    assert forall|tail: Seq<bool>|
        #![trigger parse_stack(Encoding::Compact, stack.push(b).push(a), tail)]
        progress(
        Encoding::Compact,
        ty,
        done + tail,
        done,
        stack.push(b).push(a),
        tail,
    ) by {
        lemma_parse_product(Encoding::Compact, stack, a, b, tail);
    }
}

/// With nothing left on the stack, the bits that are done encode a value.
pub(crate) proof fn lemma_extends_end(ty: Ty, done: Seq<bool>)
    requires
        extends(ty, done, Seq::empty()),
    ensures
        parse(Encoding::Compact, ty, done) matches Some((v, _)) && v.bits() == done && v.has_type(
            ty,
        ),
{
    let tail = Seq::<bool>::empty();
    assert(parse_stack(Encoding::Compact, Seq::empty(), tail) is Some);
    assert(done + tail =~= done);
    lemma_progress_end(Encoding::Compact, ty, done, done, tail);
}

} // verus!
