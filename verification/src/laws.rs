//! # Laws of values
//!
//! What holds of the library as a whole, stated over the models that the contracts of its
//! functions speak of.
use crate::bit_iter::EarlyEndOfStreamError;
use crate::bits::{
    append_digits, binary, bits_of, buffer_fits, bytes_for, drop_bits, lemma_binary_len,
    lemma_bits_of_injective, right_aligned, zeros,
};
use crate::decode::{answered, decodes};
use crate::display::{display, hex_text, is_number};
use crate::model::{
    lemma_bits_determine, lemma_parse_compact_complete, lemma_parse_compact_sound,
    lemma_parse_type, lemma_prune_same, lemma_prune_size, lemma_size, lemma_word_val, padding,
    parse, Encoding, Val,
};
use crate::reading::{all_given, reading, Reading};
use crate::storage::{
    is_buffer, lemma_located, lemma_product, lemma_prune, lemma_right_aligned, lemma_stored,
    lemma_stored_word, lemma_tagged, Located, Stored,
};
use crate::types::{lemma_word, lemma_word_exponent, Ty};
use crate::value_compact::ValueCompact;
use vstd::arithmetic::power2::{lemma2_to64, lemma_pow2_unfold, pow2};
use vstd::prelude::*;

verus! {

// ---------------------------------------------------------------------------
// Encodings
// ---------------------------------------------------------------------------

/// Decoding gives back any value whose compact encoding the stream starts with, and leaves what
/// follows it in the stream.
pub proof fn compact_bits_read_back(
    s: Stored,
    rest: Seq<bool>,
    res: Result<ValueCompact, EarlyEndOfStreamError>,
    after: Seq<bool>,
)
    requires
        s.wf(),
        decodes(Encoding::Compact, s.ty, s.val.bits() + rest, res, after),
    ensures
        res matches Ok(value) && value@.equal(s),
        after == rest,
{
    lemma_parse_compact_complete(s.val, s.ty, rest);
}

/// Decoding from compact form asks any stream for exactly the bits of the value.
pub proof fn compact_bits_are_asked_for(
    ty: Ty,
    before: Seq<Option<bool>>,
    after: Seq<Option<bool>>,
    bits: Seq<bool>,
)
    requires
        answered(Encoding::Compact, ty, before, after, Some(bits)),
    ensures
        after == before + all_given(bits),
{
    let new = after.skip(before.len() as int);
    lemma_compact_reading(ty, new);
    assert(after =~= before + new);
    assert(new =~= all_given(bits));
}

proof fn lemma_compact_reading(ty: Ty, answers: Seq<Option<bool>>)
    ensures
        reading(Encoding::Compact, ty, answers) matches Reading::Done(bits, rest) ==> answers
            == all_given(bits) + rest,
    decreases ty,
{
    match ty {
        Ty::Unit => {
            assert(answers =~= all_given(Seq::empty()) + answers);
        },
        Ty::Sum(a, b) => {
            if answers.len() > 0 {
                lemma_compact_reading(*a, answers.skip(1));
                lemma_compact_reading(*b, answers.skip(1));
                if let Reading::Done(bits, rest) = reading(Encoding::Compact, ty, answers) {
                    assert(answers =~= seq![answers[0]] + answers.skip(1));
                    assert(bits =~= seq![bits[0]] + bits.skip(1));
                    let side = if bits[0] {
                        *b
                    } else {
                        *a
                    };
                    let inner = reading(Encoding::Compact, side, answers.skip(1));
                    assert(inner matches Reading::Done(more, _) && more =~= bits.skip(1));
                    assert(answers =~= all_given(bits) + rest);
                }
            }
        },
        Ty::Product(a, b) => {
            lemma_compact_reading(*a, answers);
            if let Reading::Done(bits, rest) = reading(Encoding::Compact, *a, answers) {
                lemma_compact_reading(*b, rest);
                if let Reading::Done(more, last) = reading(Encoding::Compact, *b, rest) {
                    assert(answers =~= all_given(bits + more) + last);
                }
            }
        },
    }
}

/// Decoding from padded form asks any stream for as many bits as the type is wide.
pub proof fn padded_bits_are_asked_for(
    ty: Ty,
    before: Seq<Option<bool>>,
    after: Seq<Option<bool>>,
    bits: Seq<bool>,
)
    requires
        answered(Encoding::Padded, ty, before, after, Some(bits)),
    ensures
        after.len() == before.len() + ty.width(),
{
    lemma_padded_reading(ty, after.skip(before.len() as int));
}

proof fn lemma_padded_reading(ty: Ty, answers: Seq<Option<bool>>)
    ensures
        reading(Encoding::Padded, ty, answers) matches Reading::Done(_, rest) ==> answers.len()
            == ty.width() + rest.len(),
    decreases ty,
{
    match ty {
        Ty::Unit => {},
        Ty::Sum(a, b) => {
            if answers.len() > 0 {
                if let Some(tag) = answers[0] {
                    let asked = 1 + padding(Encoding::Padded, *a, *b, tag);
                    lemma_padded_reading(*a, answers.skip(asked as int));
                    lemma_padded_reading(*b, answers.skip(asked as int));
                }
            }
        },
        Ty::Product(a, b) => {
            lemma_padded_reading(*a, answers);
            if let Reading::Done(_, rest) = reading(Encoding::Padded, *a, answers) {
                lemma_padded_reading(*b, rest);
            }
        },
    }
}

/// A stream that answered each time, whatever stream it is, gave the encoding of the value that was
/// decoded.
pub proof fn given_bits_are_decoded(
    encoding: Encoding,
    ty: Ty,
    before: Seq<Option<bool>>,
    given: Seq<bool>,
    bits: Seq<bool>,
)
    requires
        answered(encoding, ty, before, before + all_given(given), Some(bits)),
    ensures
        parse(encoding, ty, given) matches Some((v, rest)) && v.bits() == bits && rest.len() == 0,
{
    let new = all_given(given);
    assert((before + new).skip(before.len() as int) =~= new);
    lemma_given_reading(encoding, ty, given);
    if let Some((_, rest)) = parse(encoding, ty, given) {
        assert(all_given(rest).len() == rest.len());
    }
}

proof fn lemma_given_reading(encoding: Encoding, ty: Ty, given: Seq<bool>)
    ensures
        reading(encoding, ty, all_given(given)) matches Reading::Done(bits, left) ==> (parse(
            encoding,
            ty,
            given,
        ) matches Some((v, rest)) && v.bits() == bits && all_given(rest) == left),
    decreases ty,
{
    let answers = all_given(given);
    match ty {
        Ty::Unit => {},
        Ty::Sum(a, b) => {
            if given.len() > 0 {
                let skipped = padding(encoding, *a, *b, given[0]);
                let body = drop_bits(given.skip(1), skipped);
                if answers.len() >= 1 + skipped {
                    assert(answers.skip(1 + skipped as int) =~= all_given(body));
                }
                lemma_given_reading(encoding, *a, body);
                lemma_given_reading(encoding, *b, body);
            }
        },
        Ty::Product(a, b) => {
            lemma_given_reading(encoding, *a, given);
            if let Some((_, rest)) = parse(encoding, *a, given) {
                lemma_given_reading(encoding, *b, rest);
            }
        },
    }
}

/// Where decoding fails, the last answer of the stream, whatever stream it is, was that it has no
/// bit.
pub proof fn failure_is_a_missing_bit(
    encoding: Encoding,
    ty: Ty,
    before: Seq<Option<bool>>,
    after: Seq<Option<bool>>,
)
    requires
        answered(encoding, ty, before, after, None),
    ensures
        after.len() > before.len(),
        after.last() is None,
{
    lemma_failed_reading(encoding, ty, after.skip(before.len() as int));
}

proof fn lemma_failed_reading(encoding: Encoding, ty: Ty, answers: Seq<Option<bool>>)
    ensures
        reading(encoding, ty, answers) matches Reading::Failed(rest) ==> {
            &&& rest.len() < answers.len()
            &&& answers[answers.len() - rest.len() - 1] is None
        },
        reading(encoding, ty, answers) matches Reading::Done(_, rest) ==> {
            &&& rest.len() <= answers.len()
            &&& rest == answers.skip(answers.len() - rest.len())
        },
    decreases ty,
{
    match ty {
        Ty::Unit => {
            assert(answers.skip(0) =~= answers);
        },
        Ty::Sum(a, b) => {
            if answers.len() > 0 {
                if let Some(tag) = answers[0] {
                    let asked = 1 + padding(encoding, *a, *b, tag);
                    if answers.len() >= asked {
                        let body = answers.skip(asked as int);
                        lemma_failed_reading(encoding, *a, body);
                        lemma_failed_reading(encoding, *b, body);
                        if let Reading::Done(_, rest) = reading(encoding, ty, answers) {
                            assert(rest =~= answers.skip(answers.len() - rest.len()));
                        }
                    }
                }
            }
        },
        Ty::Product(a, b) => {
            lemma_failed_reading(encoding, *a, answers);
            if let Reading::Done(_, rest) = reading(encoding, *a, answers) {
                lemma_failed_reading(encoding, *b, rest);
                if let Reading::Done(_, last) = reading(encoding, *b, rest) {
                    assert(last =~= answers.skip(answers.len() - last.len()));
                }
            }
        },
    }
}

/// A stream from which a value was decoded in compact form starts with exactly the bits of that
/// value.
pub proof fn compact_bits_are_consumed(
    ty: Ty,
    ahead: Seq<bool>,
    value: ValueCompact,
    after: Seq<bool>,
)
    requires
        decodes(Encoding::Compact, ty, ahead, Ok(value), after),
    ensures
        ahead == value@.val.bits() + after,
        value@.val.has_type(ty),
{
    lemma_parse_compact_sound(ty, ahead);
    lemma_parse_type(Encoding::Compact, ty, ahead);
}

/// Decoding fails on a stream that ends inside of the compact encoding of a value, and uses the
/// stream up.
pub proof fn truncated_compact_bits_fail(
    v: Val,
    ty: Ty,
    len: nat,
    res: Result<ValueCompact, EarlyEndOfStreamError>,
    after: Seq<bool>,
)
    requires
        v.has_type(ty),
        len < v.size(),
        decodes(Encoding::Compact, ty, v.bits().take(len as int), res, after),
    ensures
        res == Err::<ValueCompact, _>(EarlyEndOfStreamError),
        after.len() == 0,
{
    let bits = v.bits().take(len as int);
    lemma_parse_compact_sound(ty, bits);
    lemma_parse_type(Encoding::Compact, ty, bits);
    if let Some((w, rest)) = parse(Encoding::Compact, ty, bits) {
        let tail = v.bits().skip(len as int);
        assert(bits == w.bits() + rest);
        assert(v.bits() =~= bits + tail);
        assert(v.bits() + Seq::<bool>::empty() =~= w.bits() + (rest + tail));
        compact_bits_are_prefix_free(v, w, ty, Seq::empty(), rest + tail);
    }
}

/// Decoding fails only on a stream that ends inside of the compact encoding of some value.
pub proof fn failing_compact_bits_are_truncated(
    ty: Ty,
    ahead: Seq<bool>,
    res: Result<ValueCompact, EarlyEndOfStreamError>,
    after: Seq<bool>,
)
    requires
        decodes(Encoding::Compact, ty, ahead, res, after),
        res is Err,
    ensures
        exists|v: Val| #[trigger]
            v.has_type(ty) && ahead.len() < v.size() && ahead == v.bits().take(ahead.len() as int),
{
    let v = lemma_complete_bits(ty, ahead);
    assert(v.has_type(ty));
}

/// Some value of the type.
spec fn some_val(ty: Ty) -> Val
    decreases ty,
{
    match ty {
        Ty::Unit => Val::Unit,
        Ty::Sum(a, _) => Val::left(some_val(*a)),
        Ty::Product(a, b) => Val::pair(some_val(*a), some_val(*b)),
    }
}

proof fn lemma_some_val(ty: Ty)
    ensures
        some_val(ty).has_type(ty),
    decreases ty,
{
    match ty {
        Ty::Unit => {},
        Ty::Sum(a, _) => {
            lemma_some_val(*a);
        },
        Ty::Product(a, b) => {
            lemma_some_val(*a);
            lemma_some_val(*b);
        },
    }
}

/// A value whose compact encoding starts with bits that are too few.
proof fn lemma_complete_bits(ty: Ty, bits: Seq<bool>) -> (v: Val)
    requires
        parse(Encoding::Compact, ty, bits) is None,
    ensures
        v.has_type(ty),
        bits.len() < v.size(),
        bits == v.bits().take(bits.len() as int),
    decreases ty,
{
    lemma_some_val(ty);
    match ty {
        Ty::Unit => Val::Unit,
        Ty::Sum(a, b) => {
            if bits.len() == 0 {
                let v = some_val(ty);
                assert(bits =~= v.bits().take(0));
                v
            } else {
                let body = bits.skip(1).skip(0);
                let w = lemma_complete_bits(
                    if bits[0] {
                        *b
                    } else {
                        *a
                    },
                    body,
                );
                let v = if bits[0] {
                    Val::right(w)
                } else {
                    Val::left(w)
                };
                assert(v.bits() == seq![bits[0]] + w.bits());
                assert forall|i: int| 0 < i < bits.len() implies bits[i] == v.bits()[i] by {
                    assert(body[i - 1] == w.bits().take(body.len() as int)[i - 1]);
                }
                assert(bits =~= v.bits().take(bits.len() as int));
                v
            }
        },
        Ty::Product(a, b) => {
            lemma_some_val(*b);
            lemma_parse_type(Encoding::Compact, *a, bits);
            lemma_parse_compact_sound(*a, bits);
            match parse(Encoding::Compact, *a, bits) {
                None => {
                    let w = lemma_complete_bits(*a, bits);
                    let v = Val::pair(w, some_val(*b));
                    assert(v.bits().take(bits.len() as int) =~= w.bits().take(bits.len() as int));
                    v
                },
                Some((w, rest)) => {
                    let x = lemma_complete_bits(*b, rest);
                    let v = Val::pair(w, x);
                    assert(v.bits().take(bits.len() as int) =~= w.bits() + x.bits().take(
                        rest.len() as int,
                    ));
                    v
                },
            }
        },
    }
}

/// The bits are a padded encoding of the value. The padding may hold anything.
pub open spec fn is_padded(val: Val, ty: Ty, bits: Seq<bool>) -> bool
    decreases val,
{
    match (val, ty) {
        (Val::Unit, Ty::Unit) => bits.len() == 0,
        (Val::Left(v), Ty::Sum(a, b)) => {
            let skipped = 1 + padding(Encoding::Padded, *a, *b, false);
            skipped <= bits.len() && !bits[0] && is_padded(*v, *a, bits.skip(skipped as int))
        },
        (Val::Right(v), Ty::Sum(a, b)) => {
            let skipped = 1 + padding(Encoding::Padded, *a, *b, true);
            skipped <= bits.len() && bits[0] && is_padded(*v, *b, bits.skip(skipped as int))
        },
        (Val::Pair(v, w), Ty::Product(a, b)) => {
            &&& a.width() <= bits.len()
            &&& is_padded(*v, *a, bits.take(a.width() as int))
            &&& is_padded(*w, *b, bits.skip(a.width() as int))
        },
        _ => false,
    }
}

/// All padded encodings of the values of a type are as long as the type is wide.
pub proof fn padded_bits_fill_the_width(val: Val, ty: Ty, bits: Seq<bool>)
    requires
        is_padded(val, ty, bits),
    ensures
        val.has_type(ty),
        bits.len() == ty.width(),
    decreases val,
{
    match (val, ty) {
        (Val::Left(v), Ty::Sum(a, b)) => {
            let skipped = 1 + padding(Encoding::Padded, *a, *b, false);
            padded_bits_fill_the_width(*v, *a, bits.skip(skipped as int));
        },
        (Val::Right(v), Ty::Sum(a, b)) => {
            let skipped = 1 + padding(Encoding::Padded, *a, *b, true);
            padded_bits_fill_the_width(*v, *b, bits.skip(skipped as int));
        },
        (Val::Pair(v, w), Ty::Product(a, b)) => {
            padded_bits_fill_the_width(*v, *a, bits.take(a.width() as int));
            padded_bits_fill_the_width(*w, *b, bits.skip(a.width() as int));
        },
        _ => {},
    }
}

/// Every value of a type has a padded encoding with zeros for padding.
pub proof fn zeros_can_be_padding(val: Val, ty: Ty)
    requires
        val.has_type(ty),
    ensures
        is_padded(val, ty, val.padded_bits(ty)),
    decreases val,
{
    let bits = val.padded_bits(ty);
    match (val, ty) {
        (Val::Left(v), Ty::Sum(a, b)) => {
            let skipped = 1 + padding(Encoding::Padded, *a, *b, false);
            zeros_can_be_padding(*v, *a);
            assert(bits.skip(skipped as int) =~= v.padded_bits(*a));
        },
        (Val::Right(v), Ty::Sum(a, b)) => {
            let skipped = 1 + padding(Encoding::Padded, *a, *b, true);
            zeros_can_be_padding(*v, *b);
            assert(bits.skip(skipped as int) =~= v.padded_bits(*b));
        },
        (Val::Pair(v, w), Ty::Product(a, b)) => {
            zeros_can_be_padding(*v, *a);
            zeros_can_be_padding(*w, *b);
            padded_bits_fill_the_width(*v, *a, v.padded_bits(*a));
            assert(bits.take(a.width() as int) =~= v.padded_bits(*a));
            assert(bits.skip(a.width() as int) =~= w.padded_bits(*b));
        },
        _ => {},
    }
}

proof fn lemma_padded_parse(val: Val, ty: Ty, bits: Seq<bool>, rest: Seq<bool>)
    requires
        is_padded(val, ty, bits),
    ensures
        parse(Encoding::Padded, ty, bits + rest) == Some((val, rest)),
    decreases val,
{
    let all = bits + rest;
    match (val, ty) {
        (Val::Unit, Ty::Unit) => {
            assert(all =~= rest);
        },
        (Val::Left(v), Ty::Sum(a, b)) => {
            let pad = padding(Encoding::Padded, *a, *b, false);
            lemma_padded_parse(*v, *a, bits.skip((1 + pad) as int), rest);
            assert(all.skip(1).skip(pad as int) =~= bits.skip((1 + pad) as int) + rest);
        },
        (Val::Right(v), Ty::Sum(a, b)) => {
            let pad = padding(Encoding::Padded, *a, *b, true);
            lemma_padded_parse(*v, *b, bits.skip((1 + pad) as int), rest);
            assert(all.skip(1).skip(pad as int) =~= bits.skip((1 + pad) as int) + rest);
        },
        (Val::Pair(v, w), Ty::Product(a, b)) => {
            let front = bits.take(a.width() as int);
            let back = bits.skip(a.width() as int);
            assert(all =~= front + (back + rest));
            lemma_padded_parse(*v, *a, front, back + rest);
            lemma_padded_parse(*w, *b, back, rest);
        },
        _ => {},
    }
}

/// Decoding gives back any value that the stream starts with in padded form, whatever the padding
/// holds, and leaves what follows it in the stream.
pub proof fn padded_bits_read_back(
    s: Stored,
    bits: Seq<bool>,
    rest: Seq<bool>,
    res: Result<ValueCompact, EarlyEndOfStreamError>,
    after: Seq<bool>,
)
    requires
        s.wf(),
        is_padded(s.val, s.ty, bits),
        decodes(Encoding::Padded, s.ty, bits + rest, res, after),
    ensures
        res matches Ok(value) && value@.equal(s),
        after == rest,
{
    lemma_padded_parse(s.val, s.ty, bits, rest);
}

/// A stream with as many bits as the type is wide always holds a value of the type in padded form,
/// and decoding it takes exactly these bits.
pub proof fn padded_bits_are_consumed(
    ty: Ty,
    ahead: Seq<bool>,
    res: Result<ValueCompact, EarlyEndOfStreamError>,
    after: Seq<bool>,
)
    requires
        ty.width() <= ahead.len(),
        decodes(Encoding::Padded, ty, ahead, res, after),
    ensures
        res matches Ok(value) && is_padded(value@.val, ty, ahead.take(ty.width() as int)),
        after == ahead.skip(ty.width() as int),
{
    lemma_parse_padded(ty, ahead);
}

proof fn lemma_split(bits: Seq<bool>, front: int, back: int)
    requires
        0 <= front,
        0 <= back,
        front + back <= bits.len(),
    ensures
        bits.skip(front).skip(back) == bits.skip(front + back),
        bits.take(front + back).take(front) == bits.take(front),
        bits.take(front + back).skip(front) == bits.skip(front).take(back),
{
    assert(bits.skip(front).skip(back) =~= bits.skip(front + back));
    assert(bits.take(front + back).take(front) =~= bits.take(front));
    assert(bits.take(front + back).skip(front) =~= bits.skip(front).take(back));
}

proof fn lemma_parse_padded(ty: Ty, bits: Seq<bool>)
    requires
        ty.width() <= bits.len(),
    ensures
        parse(Encoding::Padded, ty, bits) matches Some((v, rest)) && is_padded(
            v,
            ty,
            bits.take(ty.width() as int),
        ) && rest == bits.skip(ty.width() as int),
    decreases ty,
{
    match ty {
        Ty::Unit => {
            assert(bits.skip(0) =~= bits);
        },
        Ty::Sum(a, b) => {
            let tag = bits[0];
            let side = if tag {
                *b
            } else {
                *a
            };
            let pad = padding(Encoding::Padded, *a, *b, tag);
            let skipped = 1 + pad;
            lemma_split(bits, 1, pad as int);
            lemma_split(bits, skipped as int, side.width() as int);
            assert(skipped + side.width() == ty.width());
            lemma_parse_padded(side, bits.skip(skipped as int));
            assert(bits.take(ty.width() as int)[0] == tag);
        },
        Ty::Product(a, b) => {
            lemma_split(bits, a.width() as int, b.width() as int);
            lemma_parse_padded(*a, bits);
            lemma_parse_padded(*b, bits.skip(a.width() as int));
        },
    }
}

/// The compact encodings of the values of a type are prefix-free: a stream starts with the bits of
/// one value only.
pub proof fn compact_bits_are_prefix_free(
    v: Val,
    w: Val,
    ty: Ty,
    after_v: Seq<bool>,
    after_w: Seq<bool>,
)
    requires
        v.has_type(ty),
        w.has_type(ty),
        v.bits() + after_v == w.bits() + after_w,
    ensures
        v == w,
        after_v == after_w,
{
    lemma_parse_compact_complete(v, ty, after_v);
    lemma_parse_compact_complete(w, ty, after_w);
}

/// The compact encoding is at most as long as the padded one. It is empty exactly for the types of
/// width zero.
pub proof fn compact_bits_fit_the_width(v: Val, ty: Ty)
    requires
        v.has_type(ty),
    ensures
        v.size() <= ty.width(),
        v.size() == 0 <==> ty.width() == 0,
{
    lemma_size(v, ty);
}

/// Words have no padding: the compact encoding of a value of type `2^(2^n)` has `2^n` bits.
pub proof fn words_have_no_padding(v: Val, n: nat)
    requires
        v.has_type(Ty::word(n)),
    ensures
        v.size() == pow2(n),
        Ty::word(n).width() == pow2(n),
    decreases n,
{
    lemma_word(n);
    if n == 0 {
        lemma2_to64();
        match v {
            Val::Left(u) => {
                assert(u.has_type(Ty::Unit));
                assert(u.bits().len() == 0);
            },
            Val::Right(u) => {
                assert(u.has_type(Ty::Unit));
                assert(u.bits().len() == 0);
            },
            _ => {},
        }
    } else {
        lemma_word((n - 1) as nat);
        match v {
            Val::Pair(l, r) => {
                words_have_no_padding(*l, (n - 1) as nat);
                words_have_no_padding(*r, (n - 1) as nat);
            },
            _ => {},
        }
    }
}

// ---------------------------------------------------------------------------
// Construction and access
// ---------------------------------------------------------------------------

/// The inner value of a left value is the value that was wrapped, and a left value is nothing
/// else.
pub proof fn left_is_unwrapped(s: Stored, right: Ty)
    requires
        s.wf(),
        Ty::sum(s.ty, right).fits(),
        buffer_fits(s.val.size() + 1),
    ensures
        s.left(right).wf(),
        s.left(right).located().as_left() matches Some(l) && l.ty == s.ty && l.val == s.val
            && l.stored().raw == s.left(right).raw,
        s.left(right).located().as_right() is None,
        s.left(right).located().as_product() is None,
{
    lemma_tagged(s, right);
    assert(Val::left(s.val).bits() == seq![false] + s.val.bits());
}

/// The inner value of a right value is the value that was wrapped, and a right value is nothing
/// else.
pub proof fn right_is_unwrapped(s: Stored, left: Ty)
    requires
        s.wf(),
        Ty::sum(left, s.ty).fits(),
        buffer_fits(s.val.size() + 1),
    ensures
        s.right(left).wf(),
        s.right(left).located().as_right() matches Some(r) && r.ty == s.ty && r.val == s.val
            && r.stored().raw == s.right(left).raw,
        s.right(left).located().as_left() is None,
        s.right(left).located().as_product() is None,
{
    lemma_tagged(s, left);
    assert(Val::right(s.val).bits() == seq![true] + s.val.bits());
}

/// The inner values of a product are the values that were paired, and a product is nothing else.
pub proof fn product_is_unwrapped(s: Stored, t: Stored)
    requires
        s.wf(),
        t.wf(),
        Ty::product(s.ty, t.ty).fits(),
        buffer_fits(s.val.size() + t.val.size()),
    ensures
        s.product(t).wf(),
        s.product(t).located().as_product() matches Some((l, r)) && l.ty == s.ty && l.val == s.val
            && r.ty == t.ty && r.val == t.val,
        s.product(t).located().as_left() is None,
        s.product(t).located().as_right() is None,
{
    lemma_product(s, t);
}

/// The type of a value decides what it can be taken apart into: a sum is either left or right, a
/// product is a pair, and the unit is neither.
pub proof fn structure_follows_type(l: Located)
    requires
        l.wf(),
    ensures
        l.ty is Sum <==> (l.as_left() is Some || l.as_right() is Some),
        !(l.as_left() is Some && l.as_right() is Some),
        l.ty is Product <==> l.as_product() is Some,
        l.ty is Unit <==> l.val is Unit,
{
}

/// The first bit of a sum value tells its side.
pub proof fn first_bit_tells_side(l: Located)
    requires
        l.wf(),
        l.ty is Sum,
    ensures
        l.val.size() > 0,
        l.as_left() is Some <==> !l.val.bits()[0],
        l.as_right() is Some <==> l.val.bits()[0],
{
}

/// A reference to a whole value converts back to that very value.
pub proof fn reference_converts_back(s: Stored)
    requires
        s.wf(),
    ensures
        s.located().wf(),
        s.located().stored() == s,
{
    lemma_located(s);
}

/// A reference to a part of a value converts to a value of the same type with the same bits.
pub proof fn part_converts_to_value(l: Located)
    requires
        l.wf(),
    ensures
        l.stored().wf(),
        l.stored().ty == l.ty,
        l.stored().val == l.val,
        l.stored().located().val.bits() == l.val.bits(),
{
    lemma_stored(l);
}

/// A buffer has whole bytes, holds at least the value, and the bytes of the value end with its
/// bits.
pub proof fn value_is_right_aligned(s: Stored)
    requires
        s.wf(),
    ensures
        s.raw.len() % 8 == 0,
        s.val.size() <= s.raw_bytes().len() <= s.raw.len(),
        s.raw_bytes().len() == 8 * bytes_for(s.val.size()),
        s.raw_bytes().skip(s.raw_bytes().len() - s.val.size()) == s.val.bits(),
{
    let bytes = s.raw_bytes();
    assert(bytes.skip(bytes.len() - s.val.size()) =~= s.raw.skip(s.raw.len() - s.val.size()));
}

/// A value in a buffer of its own has zeros in front of it.
pub proof fn fresh_values_have_zeros_in_front(ty: Ty, val: Val)
    ensures
        Stored::fresh(ty, val).raw_bytes() == right_aligned(val.bits()),
{
    let s = Stored::fresh(ty, val);
    lemma_right_aligned(val.bits());
    assert(s.raw_bytes() =~= s.raw);
}

/// The buffer holds the right-aligned bits of the value and nothing else.
pub open spec fn is_aligned(s: Stored) -> bool {
    s.raw == right_aligned(s.val.bits())
}

/// Values that are built have zeros in front of them: the unit value has, and wrapping and pairing
/// keep it so.
pub proof fn built_values_are_right_aligned(s: Stored, t: Stored, other: Ty)
    requires
        s.wf(),
        t.wf(),
        is_aligned(s),
        is_aligned(t),
    ensures
        is_aligned(Stored::unit()),
        is_aligned(s.left(other)),
        is_aligned(s.right(other)),
        is_aligned(s.product(t)),
{
    assert(Stored::unit().raw =~= right_aligned(Val::Unit.bits()));
    lemma_tag_aligned(s, false);
    lemma_tag_aligned(s, true);
    assert(Val::pair(s.val, t.val).bits() == s.val.bits() + t.val.bits());
    if t.val.size() == 0 {
        assert(s.val.bits() + t.val.bits() =~= s.val.bits());
    }
    if s.val.size() == 0 {
        assert(s.val.bits() + t.val.bits() =~= t.val.bits());
    }
    if s.val.size() == 0 && t.val.size() == 0 {
        assert(Seq::<bool>::empty() =~= right_aligned(s.val.bits()));
    }
}

proof fn lemma_tag_aligned(s: Stored, tag: bool)
    requires
        is_aligned(s),
    ensures
        s.tagged(tag) == right_aligned(seq![tag] + s.val.bits()),
{
    let bits = s.val.bits();
    let size = bits.len();
    let want = right_aligned(seq![tag] + bits);
    lemma_right_aligned(bits);
    assert(s.raw.len() == 8 * bytes_for(size));
    if size % 8 == 0 {
        assert(bytes_for(size + 1) == bytes_for(size) + 1);
        assert(s.raw =~= bits);
    } else {
        assert(bytes_for(size + 1) == bytes_for(size));
    }
    assert(s.tagged(tag).len() == want.len());
    assert(s.tagged(tag) =~= want);
}

/// Integers and decoded values have zeros in front of them.
pub proof fn fresh_values_are_right_aligned(ty: Ty, val: Val, x: nat, n: nat)
    requires
        x < pow2(pow2(n)),
        8 * bytes_for(pow2(n)) <= usize::MAX,
    ensures
        is_aligned(Stored::fresh(ty, val)),
        is_aligned(Stored::word(n, binary(x, 8 * bytes_for(pow2(n))))),
{
    integers_hold_their_digits(x, n, 8 * bytes_for(pow2(n)));
}

/// Bytes are determined by their bits, so that what is said of the bits of a buffer fixes its bytes.
pub proof fn bits_determine_bytes(a: Seq<u8>, b: Seq<u8>)
    ensures
        bits_of(a) == bits_of(b) <==> a == b,
{
    if bits_of(a) == bits_of(b) {
        lemma_bits_of_injective(a, b);
    }
}

// ---------------------------------------------------------------------------
// Equality
// ---------------------------------------------------------------------------

/// Equality is reflexive, symmetric and transitive.
pub proof fn equality_is_an_equivalence(s: Stored, t: Stored, u: Stored)
    ensures
        s.equal(s),
        s.equal(t) ==> t.equal(s),
        s.equal(t) && t.equal(u) ==> s.equal(u),
{
}

/// Values are equal exactly when they are of the same type and have the same bits.
pub proof fn equality_goes_by_type_and_bits(s: Stored, t: Stored)
    requires
        s.wf(),
        t.wf(),
    ensures
        s.equal(t) <==> s.ty == t.ty && s.val.bits() == t.val.bits(),
{
    if s.ty == t.ty && s.val.bits() == t.val.bits() {
        lemma_bits_determine(s.val, t.val, s.ty);
    }
}

/// The same value of the same type is equal to itself in all buffers.
pub proof fn same_values_are_equal(s: Stored, t: Stored)
    requires
        s.wf(),
        t.wf(),
        s.ty == t.ty,
        s.val == t.val,
    ensures
        s.equal(t),
{
}

/// What is wrapped in a left value, a right value or a product comes out equal to what went in,
/// wherever in the buffer it lies.
pub proof fn unwrapping_undoes_wrapping(s: Stored, t: Stored, other: Ty)
    requires
        s.wf(),
        t.wf(),
    ensures
        s.left(other).located().as_left() matches Some(l) && l.stored().equal(s),
        s.right(other).located().as_right() matches Some(r) && r.stored().equal(s),
        s.product(t).located().as_product() matches Some((l, r)) && l.stored().equal(s)
            && r.stored().equal(t),
{
}

// ---------------------------------------------------------------------------
// Smallness and pruning
// ---------------------------------------------------------------------------

/// Smallness is as documented: every type is smaller than or equal to itself, the unit type is the
/// smallest, and sums and products compare by their parts.
pub proof fn smallness_is_structural(t: Ty, a1: Ty, b1: Ty, a2: Ty, b2: Ty)
    ensures
        t.le(t),
        Ty::Unit.le(t),
        Ty::sum(a1, b1).le(Ty::sum(a2, b2)) <==> a1.le(a2) && b1.le(b2),
        Ty::product(a1, b1).le(Ty::product(a2, b2)) <==> a1.le(a2) && b1.le(b2),
        !Ty::sum(a1, b1).le(Ty::Unit),
        !Ty::product(a1, b1).le(Ty::Unit),
        !Ty::sum(a1, b1).le(Ty::product(a2, b2)),
        !Ty::product(a1, b1).le(Ty::sum(a2, b2)),
{
}

/// Smallness is transitive.
pub proof fn smallness_is_transitive(a: Ty, b: Ty, c: Ty)
    requires
        a.le(b),
        b.le(c),
    ensures
        a.le(c),
    decreases a,
{
    match (a, b, c) {
        (Ty::Sum(a1, a2), Ty::Sum(b1, b2), Ty::Sum(c1, c2)) => {
            smallness_is_transitive(*a1, *b1, *c1);
            smallness_is_transitive(*a2, *b2, *c2);
        },
        (Ty::Product(a1, a2), Ty::Product(b1, b2), Ty::Product(c1, c2)) => {
            smallness_is_transitive(*a1, *b1, *c1);
            smallness_is_transitive(*a2, *b2, *c2);
        },
        _ => {},
    }
}

/// Types that are smaller than or equal to each other are the same.
pub proof fn smallness_is_antisymmetric(a: Ty, b: Ty)
    requires
        a.le(b),
        b.le(a),
    ensures
        a == b,
    decreases a,
{
    match (a, b) {
        (Ty::Sum(a1, a2), Ty::Sum(b1, b2)) => {
            smallness_is_antisymmetric(*a1, *b1);
            smallness_is_antisymmetric(*a2, *b2);
        },
        (Ty::Product(a1, a2), Ty::Product(b1, b2)) => {
            smallness_is_antisymmetric(*a1, *b1);
            smallness_is_antisymmetric(*a2, *b2);
        },
        _ => {},
    }
}

/// A smaller type is at most as wide.
pub proof fn smaller_types_are_narrower(a: Ty, b: Ty)
    requires
        a.le(b),
    ensures
        a.width() <= b.width(),
        b.fits() ==> a.fits(),
    decreases a,
{
    match (a, b) {
        (Ty::Sum(a1, a2), Ty::Sum(b1, b2)) => {
            smaller_types_are_narrower(*a1, *b1);
            smaller_types_are_narrower(*a2, *b2);
        },
        (Ty::Product(a1, a2), Ty::Product(b1, b2)) => {
            smaller_types_are_narrower(*a1, *b1);
            smaller_types_are_narrower(*a2, *b2);
        },
        _ => {},
    }
}

/// Pruning goes by the structure of the type:
///
/// - to the unit type, any value becomes the unit value,
/// - the side of a sum is kept and its inner value is pruned,
/// - both parts of a product are pruned.
pub proof fn pruning_is_structural(v: Val, w: Val, a: Ty, b: Ty)
    ensures
        v.prune(Ty::Unit) == Val::Unit,
        Val::left(v).prune(Ty::sum(a, b)) == Val::left(v.prune(a)),
        Val::right(v).prune(Ty::sum(a, b)) == Val::right(v.prune(b)),
        Val::pair(v, w).prune(Ty::product(a, b)) == Val::pair(v.prune(a), w.prune(b)),
{
}

/// Pruning to the unit type gives the unit value.
pub proof fn pruning_to_unit(s: Stored)
    requires
        s.wf(),
    ensures
        s.located().prune(Ty::Unit).equal(Stored::unit()),
{
    if s.ty is Unit {
        assert(s.val is Unit);
    }
}

/// Pruning a left value is equal to wrapping its pruned inner value.
pub proof fn pruning_a_left_value(s: Stored, right: Ty, a: Ty, b: Ty)
    requires
        s.wf(),
        s.left(right).wf(),
        a.le(s.ty),
        b.le(right),
    ensures
        Ty::sum(a, b).le(s.left(right).ty),
        s.left(right).located().prune(Ty::sum(a, b)).equal(s.located().prune(a).left(b)),
{
    pruned_values_have_the_pruned_type(s, a);
    pruned_values_have_the_pruned_type(s.left(right), Ty::sum(a, b));
}

/// Pruning a right value is equal to wrapping its pruned inner value.
pub proof fn pruning_a_right_value(s: Stored, left: Ty, a: Ty, b: Ty)
    requires
        s.wf(),
        s.right(left).wf(),
        a.le(left),
        b.le(s.ty),
    ensures
        Ty::sum(a, b).le(s.right(left).ty),
        s.right(left).located().prune(Ty::sum(a, b)).equal(s.located().prune(b).right(a)),
{
    pruned_values_have_the_pruned_type(s, b);
    pruned_values_have_the_pruned_type(s.right(left), Ty::sum(a, b));
}

/// Pruning a product is equal to pairing its pruned parts.
pub proof fn pruning_a_product(s: Stored, t: Stored, a: Ty, b: Ty)
    requires
        s.wf(),
        t.wf(),
        s.product(t).wf(),
        a.le(s.ty),
        b.le(t.ty),
    ensures
        Ty::product(a, b).le(s.product(t).ty),
        s.product(t).located().prune(Ty::product(a, b)).equal(
            s.located().prune(a).product(t.located().prune(b)),
        ),
{
    pruned_values_have_the_pruned_type(s, a);
    pruned_values_have_the_pruned_type(t, b);
    pruned_values_have_the_pruned_type(s.product(t), Ty::product(a, b));
}

/// Pruning a value to its own type has no effect.
pub proof fn pruning_to_the_same_type_has_no_effect(s: Stored)
    requires
        s.wf(),
    ensures
        s.val.prune(s.ty) == s.val,
        s.located().prune(s.ty) == s,
        s.located().prune(s.ty).equal(s),
{
    lemma_prune_same(s.val, s.ty);
    lemma_located(s);
}

/// A pruned value is a value of the type that it was pruned to.
pub proof fn pruned_values_have_the_pruned_type(s: Stored, ty: Ty)
    requires
        s.wf(),
        ty.le(s.ty),
    ensures
        s.located().prune(ty).wf(),
        s.located().prune(ty).ty == ty,
        s.located().prune(ty).val == s.val.prune(ty),
        s.val.prune(ty).has_type(ty),
{
    smaller_types_are_narrower(ty, s.ty);
    lemma_located(s);
    lemma_prune(s.located(), ty);
}

/// Pruning in two steps is the same as pruning at once.
pub proof fn pruning_steps_compose(v: Val, ty: Ty, middle: Ty, small: Ty)
    requires
        v.has_type(ty),
        middle.le(ty),
        small.le(middle),
    ensures
        v.prune(middle).prune(small) == v.prune(small),
    decreases v,
{
    match (v, ty, middle, small) {
        (Val::Left(w), Ty::Sum(a, b), Ty::Sum(c, d), Ty::Sum(e, f)) => {
            pruning_steps_compose(*w, *a, *c, *e);
        },
        (Val::Right(w), Ty::Sum(a, b), Ty::Sum(c, d), Ty::Sum(e, f)) => {
            pruning_steps_compose(*w, *b, *d, *f);
        },
        (Val::Pair(w, x), Ty::Product(a, b), Ty::Product(c, d), Ty::Product(e, f)) => {
            pruning_steps_compose(*w, *a, *c, *e);
            pruning_steps_compose(*x, *b, *d, *f);
        },
        _ => {},
    }
}

/// Pruning never makes a value longer.
pub proof fn pruned_values_are_shorter(v: Val, ty: Ty)
    ensures
        v.prune(ty).size() <= v.size(),
{
    lemma_prune_size(v, ty);
}

// ---------------------------------------------------------------------------
// Integers
// ---------------------------------------------------------------------------

proof fn lemma_binary_number(x: nat, n: nat)
    requires
        x < pow2(n),
    ensures
        append_digits(0, binary(x, n)) == x,
    decreases n,
{
    if n > 0 {
        lemma_pow2_unfold(n);
        lemma_binary_number(x / 2, (n - 1) as nat);
        assert(binary(x, n).drop_last() =~= binary(x / 2, (n - 1) as nat));
    } else {
        lemma2_to64();
    }
}

proof fn lemma_binary_short(x: nat, front: nat, n: nat)
    requires
        x < pow2(n),
    ensures
        binary(x, front + n) == zeros(front) + binary(x, n),
    decreases n,
{
    if n > 0 {
        lemma_pow2_unfold(n);
        lemma_binary_short(x / 2, front, (n - 1) as nat);
        assert(binary(x, front + n) =~= zeros(front) + binary(x, n));
    } else {
        lemma2_to64();
        lemma_binary_zero(front);
        assert(zeros(front) + binary(x, 0) =~= zeros(front));
    }
}

proof fn lemma_binary_zero(n: nat)
    ensures
        binary(0, n) == zeros(n),
    decreases n,
{
    if n > 0 {
        lemma_binary_zero((n - 1) as nat);
    }
    assert(binary(0, n) =~= zeros(n));
}

/// The bits of an integer value are the binary digits of the integer, and they spell it. This is
/// what all integers from one bit on are made of.
pub proof fn integers_hold_their_digits(x: nat, n: nat, buffer: nat)
    requires
        x < pow2(pow2(n)),
        buffer % 8 == 0,
        pow2(n) <= buffer <= usize::MAX,
    ensures
        Stored::word(n, binary(x, buffer)).wf(),
        Stored::word(n, binary(x, buffer)).val.bits() == binary(x, pow2(n)),
        append_digits(0, Stored::word(n, binary(x, buffer)).val.bits()) == x,
        Stored::word(n, binary(x, buffer)).raw == zeros((buffer - pow2(n)) as nat) + binary(
            x,
            pow2(n),
        ),
        buffer == 8 * bytes_for(pow2(n)) ==> Stored::word(n, binary(x, buffer)) == Stored::fresh(
            Ty::word(n),
            Stored::word(n, binary(x, buffer)).val,
        ),
{
    let size = pow2(n);
    let raw = binary(x, buffer);
    lemma_binary_len(x, buffer);
    lemma_binary_len(x, size);
    lemma_binary_short(x, (buffer - size) as nat, size);
    assert(raw.skip(raw.len() - size) =~= binary(x, size));
    lemma_word(n);
    lemma_word_val(n, raw.skip(raw.len() - size));
    lemma_binary_number(x, size);
}

/// Integers of the same width are equal as values exactly when they are equal as numbers.
pub proof fn integers_are_equal_as_numbers(x: nat, y: nat, n: nat, buffer: nat)
    requires
        x < pow2(pow2(n)),
        y < pow2(pow2(n)),
        buffer % 8 == 0,
        pow2(n) <= buffer <= usize::MAX,
    ensures
        Stored::word(n, binary(x, buffer)).equal(Stored::word(n, binary(y, buffer))) <==> x == y,
{
    let s = Stored::word(n, binary(x, buffer));
    let t = Stored::word(n, binary(y, buffer));
    integers_hold_their_digits(x, n, buffer);
    integers_hold_their_digits(y, n, buffer);
}

/// A word that fills its buffer has the bits of the buffer.
pub proof fn full_words_hold_their_buffer(n: nat, raw: Seq<bool>)
    requires
        is_buffer(raw),
        raw.len() == pow2(n),
    ensures
        Stored::word(n, raw).wf(),
        Stored::word(n, raw).val.bits() == raw,
{
    lemma_stored_word(n, raw);
    assert(raw.skip(0) =~= raw);
}

/// The text of a number leaves out none of its bits: there is one digit for each bit, or one digit
/// for each four bits.
pub proof fn numbers_are_displayed_in_full(ty: Ty, val: Val)
    requires
        val.has_type(ty),
        is_number(ty),
    ensures
        ty.width() < 4 ==> display(ty, val).len() == 2 + val.size(),
        ty.width() >= 4 ==> val.size() % 4 == 0 && display(ty, val).len() == 2 + val.size() / 4,
{
    let n = ty.word_exponent()->0;
    lemma_word_exponent(ty);
    words_have_no_padding(val, n);
    lemma2_to64();
    reveal_strlit("0b");
    reveal_strlit("0x");
    if n >= 2 {
        vstd::arithmetic::power2::lemma_pow2_adds(2, (n - 2) as nat);
        assert(pow2(n) == 4 * pow2((n - 2) as nat));
    }
    lemma_hex_len(val.bits());
}

proof fn lemma_hex_len(bits: Seq<bool>)
    ensures
        hex_text(bits).len() == bits.len() / 4,
    decreases bits.len(),
{
    if bits.len() >= 4 {
        lemma_hex_len(bits.skip(4));
    }
}

} // verus!
