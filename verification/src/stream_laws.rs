//! # Laws of streams and of decoding
//!
//! What is read off a stream, and which values are decoded from it.
//! `call_ensures(f, args, res)` reads: a call of `f` with these arguments can give `res`.
use crate::bit_iter::{BitIter, EarlyEndOfStreamError};
use crate::bits::{bits_of, drop_bits};
use crate::decode::{answered, decoded_bits, decodes};
use crate::laws::{
    compact_bits_are_asked_for, failure_is_a_missing_bit, padded_bits_are_asked_for,
    padded_bits_are_consumed,
};
use crate::model::{
    lemma_parse_compact_complete, lemma_parse_compact_sound, padding, Encoding,
};
use crate::reading::{reading, Reading};
use crate::storage::lemma_right_aligned;
use crate::types::{Final, Ty};
use crate::value_compact::ValueCompact;
use crate::value_laws::{byte_bit, has_bits, is_snug, lemma_bits, lemma_byte_bit};
use vstd::prelude::*;
use vstd::std_specs::iter::IteratorSpec;

verus! {

// ---------------------------------------------------------------------------
// Bits of streams
// ---------------------------------------------------------------------------

/// A new stream gives the bits of the bytes that follow, each byte from its most significant bit on.
pub proof fn new_streams_give_all_bits<I: Iterator<Item = u8>>(
    iter: I,
    stream: BitIter<I>,
    bytes: Seq<u8>,
)
    requires
        call_ensures(BitIter::<I>::new, (iter,), stream),
    ensures
        stream.source() == iter,
        stream.answers().len() == 0,
        stream.cached().len() == 0,
        stream.ahead(bytes).len() == 8 * bytes.len(),
        forall|i: int|
            0 <= i < 8 * bytes.len() ==> #[trigger] stream.ahead(bytes)[i] == byte_bit(bytes, i),
{
    assert forall|i: int| 0 <= i < 8 * bytes.len() implies #[trigger] stream.ahead(bytes)[i]
        == byte_bit(bytes, i) by {
        lemma_byte_bit(bytes, i);
        assert(stream.ahead(bytes)[i] == bits_of(bytes)[i]);
    }
}

/// Reading takes the first of the bits ahead, and finds none only where there is none.
pub proof fn next_takes_the_first_bit<I: Iterator<Item = u8>>(
    stream: &mut BitIter<I>,
    before: Seq<bool>,
    after: Seq<bool>,
    res: Option<bool>,
)
    requires
        old(stream).source().obeys_prophetic_iter_laws(),
        before == old(stream).ahead(old(stream).source().remaining()),
        after == final(stream).ahead(final(stream).source().remaining()),
        call_ensures(BitIter::<I>::next, (stream,), res),
    ensures
        final(stream).source().obeys_prophetic_iter_laws(),
        res is None <==> before.len() == 0,
        res matches Some(bit) ==> bit == before[0] && after == before.skip(1),
        res is None ==> after.len() == 0,
{
}

/// Every answer is recorded. As long as there are bits left of the current byte, they are what is
/// read, and the byte stream is not touched; a new byte has eight bits.
pub proof fn answers_are_recorded<I: Iterator<Item = u8>>(
    stream: &mut BitIter<I>,
    res: Option<bool>,
)
    requires
        call_ensures(BitIter::<I>::next, (stream,), res),
    ensures
        final(stream).answers() == old(stream).answers().push(res),
        old(stream).cached().len() > 0 ==> res == Some(old(stream).cached()[0])
            && final(stream).cached() == old(stream).cached().skip(1) && final(stream).source()
            == old(stream).source(),
        old(stream).cached().len() == 0 && res is Some ==> final(stream).cached().len() == 7,
        old(stream).cached().len() == 0 && res is None ==> final(stream).cached().len() == 0,
{
}

/// Skipping moves past as many bits as asked for, or to the end of the stream.
pub proof fn skip_moves_past_bits<I: Iterator<Item = u8>>(
    stream: &mut BitIter<I>,
    n: usize,
    before: Seq<bool>,
    after: Seq<bool>,
)
    requires
        old(stream).source().obeys_prophetic_iter_laws(),
        before == old(stream).ahead(old(stream).source().remaining()),
        after == final(stream).ahead(final(stream).source().remaining()),
        call_ensures(BitIter::<I>::skip, (stream, n), ()),
    ensures
        final(stream).source().obeys_prophetic_iter_laws(),
        n <= before.len() ==> after == before.skip(n as int),
        n > before.len() ==> after.len() == 0,
{
}

/// Skipping asks any stream for as many bits as are skipped.
pub proof fn skip_asks_for_bits<I: Iterator<Item = u8>>(stream: &mut BitIter<I>, n: usize)
    requires
        call_ensures(BitIter::<I>::skip, (stream, n), ()),
    ensures
        final(stream).answers().len() == old(stream).answers().len() + n,
        final(stream).answers().take(old(stream).answers().len() as int) == old(stream).answers(),
{
}

// ---------------------------------------------------------------------------
// Decoding
// ---------------------------------------------------------------------------

/// Both calls succeed or both fail. What the first one decoded has the given bits in front of those
/// of what the second one decoded.
pub open spec fn same_after(
    res: Result<ValueCompact, EarlyEndOfStreamError>,
    front: Seq<bool>,
    other: Result<ValueCompact, EarlyEndOfStreamError>,
) -> bool {
    &&& res is Ok <==> other is Ok
    &&& forall|bits: Seq<bool>, more: Seq<bool>|
        res is Ok && #[trigger] has_bits(res->Ok_0, bits) && #[trigger] has_bits(other->Ok_0, more)
            ==> bits == front + more
}

/// The stream without its first bits, or nothing where it has fewer.
pub open spec fn without(bits: Seq<bool>, n: nat) -> Seq<bool> {
    if n <= bits.len() {
        bits.skip(n as int)
    } else {
        Seq::empty()
    }
}

proof fn lemma_same_after(
    res: Result<ValueCompact, EarlyEndOfStreamError>,
    front: Seq<bool>,
    other: Result<ValueCompact, EarlyEndOfStreamError>,
)
    requires
        res is Ok <==> other is Ok,
        res is Ok ==> res->Ok_0@.val.bits() == front + other->Ok_0@.val.bits(),
    ensures
        same_after(res, front, other),
{
    assert forall|bits: Seq<bool>, more: Seq<bool>|
        res is Ok && #[trigger] has_bits(res->Ok_0, bits) && #[trigger] has_bits(
            other->Ok_0,
            more,
        ) implies bits == front + more by {
        lemma_bits(res->Ok_0, bits);
        lemma_bits(other->Ok_0, more);
    }
}

proof fn lemma_decodes_sum(
    encoding: Encoding,
    a: Ty,
    b: Ty,
    before: Seq<bool>,
    res: Result<ValueCompact, EarlyEndOfStreamError>,
    after: Seq<bool>,
    side_res: Result<ValueCompact, EarlyEndOfStreamError>,
    side_after: Seq<bool>,
)
    requires
        before.len() > 0,
        decodes(encoding, Ty::sum(a, b), before, res, after),
        decodes(
            encoding,
            if before[0] {
                b
            } else {
                a
            },
            without(before, 1 + padding(encoding, a, b, before[0])),
            side_res,
            side_after,
        ),
    ensures
        same_after(res, seq![before[0]], side_res),
        after == side_after,
{
    let pad = padding(encoding, a, b, before[0]);
    assert(drop_bits(before.skip(1), pad) =~= without(before, 1 + pad));
    lemma_same_after(res, seq![before[0]], side_res);
    assert(after =~= side_after);
}

proof fn lemma_decodes_product(
    encoding: Encoding,
    a: Ty,
    b: Ty,
    before: Seq<bool>,
    res: Result<ValueCompact, EarlyEndOfStreamError>,
    after: Seq<bool>,
    left: Result<ValueCompact, EarlyEndOfStreamError>,
    middle: Seq<bool>,
    right: Result<ValueCompact, EarlyEndOfStreamError>,
    right_after: Seq<bool>,
)
    requires
        decodes(encoding, Ty::product(a, b), before, res, after),
        decodes(encoding, a, before, left, middle),
        decodes(encoding, b, middle, right, right_after),
    ensures
        left is Err ==> res is Err && after.len() == 0,
        left matches Ok(l) ==> after == right_after && forall|front: Seq<bool>| #[trigger]
            has_bits(l, front) ==> same_after(res, front, right),
{
    if let Ok(l) = left {
        assert(after =~= right_after);
        assert forall|front: Seq<bool>| #[trigger] has_bits(l, front) implies same_after(
            res,
            front,
            right,
        ) by {
            lemma_bits(l, front);
            lemma_same_after(res, front, right);
        }
    }
}

/// Compact decoding of a type without bits succeeds and reads nothing. What is decoded is of the type
/// that was asked for, and its buffer holds just the value.
pub proof fn compact_decoding_gives_the_type<I: Iterator<Item = u8>>(
    stream: &mut BitIter<I>,
    before: Seq<bool>,
    after: Seq<bool>,
    ty: &Final,
    res: Result<ValueCompact, EarlyEndOfStreamError>,
    bits: Seq<bool>,
)
    requires
        old(stream).source().obeys_prophetic_iter_laws(),
        before == old(stream).ahead(old(stream).source().remaining()),
        after == final(stream).ahead(final(stream).source().remaining()),
        call_ensures(ValueCompact::from_compact_bits::<I>, (stream, ty), res),
        res is Ok ==> has_bits(res->Ok_0, bits),
    ensures
        final(stream).source().obeys_prophetic_iter_laws(),
        ty@ is Unit ==> res is Ok && bits.len() == 0 && after == before,
        res matches Ok(v) ==> v@.ty == ty@ && is_snug(v, bits.len()) && v@.raw.skip(
            v@.raw.len() - bits.len(),
        ) == bits,
        res is Err ==> after.len() == 0,
{
    if let Ok(v) = res {
        lemma_bits(v, bits);
        lemma_right_aligned(bits);
    }
}

/// Compact decoding of a sum reads a tag and then the side that the tag selects. It
/// fails if there is no tag.
pub proof fn compact_decoding_of_a_sum<I: Iterator<Item = u8>, J: Iterator<Item = u8>>(
    stream: &mut BitIter<I>,
    before: Seq<bool>,
    after: Seq<bool>,
    ty: &Final,
    res: Result<ValueCompact, EarlyEndOfStreamError>,
    left: Ty,
    right: Ty,
    side: &Final,
    side_stream: &mut BitIter<J>,
    side_before: Seq<bool>,
    side_after: Seq<bool>,
    side_res: Result<ValueCompact, EarlyEndOfStreamError>,
)
    requires
        ty@ == Ty::Sum(Box::new(left), Box::new(right)),
        old(stream).source().obeys_prophetic_iter_laws(),
        before == old(stream).ahead(old(stream).source().remaining()),
        after == final(stream).ahead(final(stream).source().remaining()),
        call_ensures(ValueCompact::from_compact_bits::<I>, (stream, ty), res),
        side@ == if before[0] {
            right
        } else {
            left
        },
        old(side_stream).source().obeys_prophetic_iter_laws(),
        side_before == old(side_stream).ahead(old(side_stream).source().remaining()),
        side_after == final(side_stream).ahead(final(side_stream).source().remaining()),
        side_before == without(before, 1),
        call_ensures(ValueCompact::from_compact_bits::<J>, (side_stream, side), side_res),
    ensures
        before.len() == 0 ==> res is Err && after.len() == 0,
        before.len() > 0 ==> same_after(res, seq![before[0]], side_res) && after == side_after,
{
    if before.len() > 0 {
        assert(padding(Encoding::Compact, left, right, before[0]) == 0);
        lemma_decodes_sum(
            Encoding::Compact,
            left,
            right,
            before,
            res,
            after,
            side_res,
            side_after,
        );
    }
}

/// Compact decoding of a product decodes the left part and then the right part.
pub proof fn compact_decoding_of_a_product<
    I: Iterator<Item = u8>,
    J: Iterator<Item = u8>,
    K: Iterator<Item = u8>,
>(
    stream: &mut BitIter<I>,
    before: Seq<bool>,
    after: Seq<bool>,
    ty: &Final,
    res: Result<ValueCompact, EarlyEndOfStreamError>,
    left: &Final,
    left_stream: &mut BitIter<J>,
    middle: Seq<bool>,
    left_res: Result<ValueCompact, EarlyEndOfStreamError>,
    right: &Final,
    right_stream: &mut BitIter<K>,
    right_after: Seq<bool>,
    right_res: Result<ValueCompact, EarlyEndOfStreamError>,
)
    requires
        ty@ == Ty::Product(Box::new(left@), Box::new(right@)),
        old(stream).source().obeys_prophetic_iter_laws(),
        before == old(stream).ahead(old(stream).source().remaining()),
        after == final(stream).ahead(final(stream).source().remaining()),
        call_ensures(ValueCompact::from_compact_bits::<I>, (stream, ty), res),
        old(left_stream).source().obeys_prophetic_iter_laws(),
        before == old(left_stream).ahead(old(left_stream).source().remaining()),
        middle == final(left_stream).ahead(final(left_stream).source().remaining()),
        call_ensures(ValueCompact::from_compact_bits::<J>, (left_stream, left), left_res),
        old(right_stream).source().obeys_prophetic_iter_laws(),
        middle == old(right_stream).ahead(old(right_stream).source().remaining()),
        right_after == final(right_stream).ahead(final(right_stream).source().remaining()),
        call_ensures(ValueCompact::from_compact_bits::<K>, (right_stream, right), right_res),
    ensures
        left_res is Err ==> res is Err && after.len() == 0,
        left_res matches Ok(l) ==> after == right_after && forall|front: Seq<bool>| #[trigger]
            has_bits(l, front) ==> same_after(res, front, right_res),
{
    lemma_decodes_product(
        Encoding::Compact,
        left@,
        right@,
        before,
        res,
        after,
        left_res,
        middle,
        right_res,
        right_after,
    );
}

/// Padded decoding of a type without bits succeeds and reads nothing. What is decoded is of the type
/// that was asked for, and its buffer holds just the value.
pub proof fn padded_decoding_gives_the_type<I: Iterator<Item = u8>>(
    stream: &mut BitIter<I>,
    before: Seq<bool>,
    after: Seq<bool>,
    ty: &Final,
    res: Result<ValueCompact, EarlyEndOfStreamError>,
    bits: Seq<bool>,
)
    requires
        old(stream).source().obeys_prophetic_iter_laws(),
        before == old(stream).ahead(old(stream).source().remaining()),
        after == final(stream).ahead(final(stream).source().remaining()),
        call_ensures(ValueCompact::from_padded_bits::<I>, (stream, ty), res),
        res is Ok ==> has_bits(res->Ok_0, bits),
    ensures
        final(stream).source().obeys_prophetic_iter_laws(),
        ty@ is Unit ==> res is Ok && bits.len() == 0 && after == before,
        res matches Ok(v) ==> v@.ty == ty@ && is_snug(v, bits.len()) && v@.raw.skip(
            v@.raw.len() - bits.len(),
        ) == bits,
        res is Err ==> after.len() == 0,
{
    if let Ok(v) = res {
        lemma_bits(v, bits);
        lemma_right_aligned(bits);
    }
}

/// Padded decoding of a sum reads a tag, the padding and then the side that the tag selects. It
/// fails if there is no tag.
pub proof fn padded_decoding_of_a_sum<I: Iterator<Item = u8>, J: Iterator<Item = u8>>(
    stream: &mut BitIter<I>,
    before: Seq<bool>,
    after: Seq<bool>,
    ty: &Final,
    res: Result<ValueCompact, EarlyEndOfStreamError>,
    left: Ty,
    right: Ty,
    width: usize,
    side_width: usize,
    side: &Final,
    side_stream: &mut BitIter<J>,
    side_before: Seq<bool>,
    side_after: Seq<bool>,
    side_res: Result<ValueCompact, EarlyEndOfStreamError>,
)
    requires
        ty@ == Ty::Sum(Box::new(left), Box::new(right)),
        old(stream).source().obeys_prophetic_iter_laws(),
        before == old(stream).ahead(old(stream).source().remaining()),
        after == final(stream).ahead(final(stream).source().remaining()),
        call_ensures(ValueCompact::from_padded_bits::<I>, (stream, ty), res),
        side@ == if before[0] {
            right
        } else {
            left
        },
        call_ensures(Final::bit_width, (ty,), width),
        call_ensures(Final::bit_width, (side,), side_width),
        old(side_stream).source().obeys_prophetic_iter_laws(),
        side_before == old(side_stream).ahead(old(side_stream).source().remaining()),
        side_after == final(side_stream).ahead(final(side_stream).source().remaining()),
        side_before == without(before, (width - side_width) as nat),
        call_ensures(ValueCompact::from_padded_bits::<J>, (side_stream, side), side_res),
    ensures
        before.len() == 0 ==> res is Err && after.len() == 0,
        before.len() > 0 ==> same_after(res, seq![before[0]], side_res) && after == side_after,
{
    if before.len() > 0 {
        lemma_decodes_sum(
            Encoding::Padded,
            left,
            right,
            before,
            res,
            after,
            side_res,
            side_after,
        );
    }
}

/// Padded decoding of a product decodes the left part and then the right part.
pub proof fn padded_decoding_of_a_product<
    I: Iterator<Item = u8>,
    J: Iterator<Item = u8>,
    K: Iterator<Item = u8>,
>(
    stream: &mut BitIter<I>,
    before: Seq<bool>,
    after: Seq<bool>,
    ty: &Final,
    res: Result<ValueCompact, EarlyEndOfStreamError>,
    left: &Final,
    left_stream: &mut BitIter<J>,
    middle: Seq<bool>,
    left_res: Result<ValueCompact, EarlyEndOfStreamError>,
    right: &Final,
    right_stream: &mut BitIter<K>,
    right_after: Seq<bool>,
    right_res: Result<ValueCompact, EarlyEndOfStreamError>,
)
    requires
        ty@ == Ty::Product(Box::new(left@), Box::new(right@)),
        old(stream).source().obeys_prophetic_iter_laws(),
        before == old(stream).ahead(old(stream).source().remaining()),
        after == final(stream).ahead(final(stream).source().remaining()),
        call_ensures(ValueCompact::from_padded_bits::<I>, (stream, ty), res),
        old(left_stream).source().obeys_prophetic_iter_laws(),
        before == old(left_stream).ahead(old(left_stream).source().remaining()),
        middle == final(left_stream).ahead(final(left_stream).source().remaining()),
        call_ensures(ValueCompact::from_padded_bits::<J>, (left_stream, left), left_res),
        old(right_stream).source().obeys_prophetic_iter_laws(),
        middle == old(right_stream).ahead(old(right_stream).source().remaining()),
        right_after == final(right_stream).ahead(final(right_stream).source().remaining()),
        call_ensures(ValueCompact::from_padded_bits::<K>, (right_stream, right), right_res),
    ensures
        left_res is Err ==> res is Err && after.len() == 0,
        left_res matches Ok(l) ==> after == right_after && forall|front: Seq<bool>| #[trigger]
            has_bits(l, front) ==> same_after(res, front, right_res),
{
    lemma_decodes_product(
        Encoding::Padded,
        left@,
        right@,
        before,
        res,
        after,
        left_res,
        middle,
        right_res,
        right_after,
    );
}

/// Compact decoding gives back any value whose bits the stream starts with, and leaves what follows
/// them.
pub proof fn compact_decoding_reads_values_back<I: Iterator<Item = u8>>(
    stream: &mut BitIter<I>,
    v: ValueCompact,
    bits: Seq<bool>,
    rest: Seq<bool>,
    after: Seq<bool>,
    ty: &Final,
    res: Result<ValueCompact, EarlyEndOfStreamError>,
    equal: bool,
)
    requires
        v.inv(),
        has_bits(v, bits),
        ty@ == v@.ty,
        old(stream).source().obeys_prophetic_iter_laws(),
        bits + rest == old(stream).ahead(old(stream).source().remaining()),
        after == final(stream).ahead(final(stream).source().remaining()),
        call_ensures(ValueCompact::from_compact_bits::<I>, (stream, ty), res),
        res is Ok ==> call_ensures(
            <ValueCompact as PartialEq>::eq,
            (&res->Ok_0, &v),
            equal,
        ),
    ensures
        res is Ok,
        equal,
        after == rest,
{
    lemma_bits(v, bits);
    lemma_parse_compact_complete(v@.val, v@.ty, rest);
}

/// A stream from which a value was decoded in compact form starts with exactly its bits.
pub proof fn compact_decoding_takes_the_bits<I: Iterator<Item = u8>>(
    stream: &mut BitIter<I>,
    before: Seq<bool>,
    after: Seq<bool>,
    ty: &Final,
    v: ValueCompact,
    bits: Seq<bool>,
)
    requires
        old(stream).source().obeys_prophetic_iter_laws(),
        before == old(stream).ahead(old(stream).source().remaining()),
        after == final(stream).ahead(final(stream).source().remaining()),
        call_ensures(ValueCompact::from_compact_bits::<I>, (stream, ty), Ok(v)),
        has_bits(v, bits),
    ensures
        before == bits + after,
{
    lemma_bits(v, bits);
    lemma_parse_compact_sound(ty@, before);
}

/// Padded decoding takes as many bits as the type is wide, and succeeds wherever there are as many.
pub proof fn padded_decoding_takes_the_width<I: Iterator<Item = u8>>(
    stream: &mut BitIter<I>,
    before: Seq<bool>,
    after: Seq<bool>,
    ty: &Final,
    width: usize,
    res: Result<ValueCompact, EarlyEndOfStreamError>,
)
    requires
        old(stream).source().obeys_prophetic_iter_laws(),
        before == old(stream).ahead(old(stream).source().remaining()),
        after == final(stream).ahead(final(stream).source().remaining()),
        call_ensures(ValueCompact::from_padded_bits::<I>, (stream, ty), res),
        call_ensures(Final::bit_width, (ty,), width),
        width <= before.len(),
    ensures
        res is Ok,
        after == before.skip(width as int),
{
    padded_bits_are_consumed(ty@, before, res, after);
}

// ---------------------------------------------------------------------------
// Decoding from any stream
// ---------------------------------------------------------------------------

proof fn lemma_answered_sum(
    encoding: Encoding,
    a: Ty,
    b: Ty,
    asked: Seq<Option<bool>>,
    res: Result<ValueCompact, EarlyEndOfStreamError>,
    side_res: Result<ValueCompact, EarlyEndOfStreamError>,
)
    requires
        answered(encoding, Ty::sum(a, b), Seq::empty(), asked, decoded_bits(res)),
    ensures
        asked.len() > 0,
        asked[0] is None ==> res is Err && asked.len() == 1,
        asked[0] matches Some(tag) ==> {
            let k = 1 + padding(encoding, a, b, tag);
            &&& asked.len() >= k
            &&& answered(
                encoding,
                if tag {
                    b
                } else {
                    a
                },
                Seq::empty(),
                asked.skip(k as int),
                decoded_bits(side_res),
            ) ==> same_after(res, seq![tag], side_res)
        },
{
    let none = Seq::<Option<bool>>::empty();
    assert(asked.skip(0) =~= asked);
    if let Some(tag) = asked[0] {
        let k = 1 + padding(encoding, a, b, tag);
        let body = asked.skip(k as int);
        assert(body.skip(0) =~= body);
        let side = if tag {
            b
        } else {
            a
        };
        if answered(encoding, side, none, body, decoded_bits(side_res)) {
            lemma_same_after(res, seq![tag], side_res);
        }
    }
}

proof fn lemma_answered_product(
    encoding: Encoding,
    a: Ty,
    b: Ty,
    left_asked: Seq<Option<bool>>,
    left: Result<ValueCompact, EarlyEndOfStreamError>,
    right_asked: Seq<Option<bool>>,
    right: Result<ValueCompact, EarlyEndOfStreamError>,
    res: Result<ValueCompact, EarlyEndOfStreamError>,
)
    requires
        answered(encoding, a, Seq::empty(), left_asked, decoded_bits(left)),
        answered(encoding, b, Seq::empty(), right_asked, decoded_bits(right)),
    ensures
        left is Err && answered(
            encoding,
            Ty::product(a, b),
            Seq::empty(),
            left_asked,
            decoded_bits(res),
        ) ==> res is Err,
        left is Ok && answered(
            encoding,
            Ty::product(a, b),
            Seq::empty(),
            left_asked + right_asked,
            decoded_bits(res),
        ) ==> forall|front: Seq<bool>| #[trigger]
            has_bits(left->Ok_0, front) ==> same_after(res, front, right),
{
    let all = left_asked + right_asked;
    assert(left_asked.skip(0) =~= left_asked);
    assert(right_asked.skip(0) =~= right_asked);
    assert(all.skip(0) =~= all);
    if left is Ok && answered(
        encoding,
        Ty::product(a, b),
        Seq::empty(),
        all,
        decoded_bits(res),
    ) {
        lemma_reading_extends(encoding, a, left_asked, right_asked);
        assert(Seq::<Option<bool>>::empty() + right_asked =~= right_asked);
        assert forall|front: Seq<bool>| #[trigger] has_bits(left->Ok_0, front) implies same_after(
            res,
            front,
            right,
        ) by {
            lemma_bits(left->Ok_0, front);
            lemma_same_after(res, front, right);
        }
    }
}

/// Further answers do not change what was read.
proof fn lemma_reading_extends(
    encoding: Encoding,
    ty: Ty,
    answers: Seq<Option<bool>>,
    more: Seq<Option<bool>>,
)
    ensures
        reading(encoding, ty, answers) matches Reading::Done(bits, rest) ==> reading(
            encoding,
            ty,
            answers + more,
        ) == Reading::Done(bits, rest + more),
    decreases ty,
{
    let all = answers + more;
    match ty {
        Ty::Unit => {},
        Ty::Sum(a, b) => {
            if answers.len() > 0 {
                if let Some(tag) = answers[0] {
                    let k = 1 + padding(encoding, *a, *b, tag);
                    if answers.len() >= k {
                        assert(all.skip(k as int) =~= answers.skip(k as int) + more);
                        lemma_reading_extends(encoding, *a, answers.skip(k as int), more);
                        lemma_reading_extends(encoding, *b, answers.skip(k as int), more);
                    }
                }
            }
        },
        Ty::Product(a, b) => {
            lemma_reading_extends(encoding, *a, answers, more);
            if let Reading::Done(_, rest) = reading(encoding, *a, answers) {
                lemma_reading_extends(encoding, *b, rest, more);
            }
        },
    }
}

proof fn lemma_asked(
    encoding: Encoding,
    ty: Ty,
    before: Seq<Option<bool>>,
    asked: Seq<Option<bool>>,
    res: Option<Seq<bool>>,
)
    requires
        answered(encoding, ty, before, before + asked, res),
    ensures
        answered(encoding, ty, Seq::empty(), asked, res),
{
    assert((before + asked).skip(before.len() as int) =~= asked);
    assert(asked.skip(0) =~= asked);
}

/// Compact decoding keeps what any stream answered before. It asks for exactly the bits of the value.
/// Where it fails, the last answer was that there is no bit.
pub proof fn compact_decoding_asks_for_bits<I: Iterator<Item = u8>>(
    stream: &mut BitIter<I>,
    ty: &Final,
    width: usize,
    res: Result<ValueCompact, EarlyEndOfStreamError>,
    bits: Seq<bool>,
)
    requires
        call_ensures(ValueCompact::from_compact_bits::<I>, (stream, ty), res),
        call_ensures(Final::bit_width, (ty,), width),
        res is Ok ==> has_bits(res->Ok_0, bits),
    ensures
        old(stream).answers().is_prefix_of(final(stream).answers()),
        res is Ok ==> final(stream).answers() == old(stream).answers() + bits.map_values(
            |bit: bool| Some(bit),
        ),
        res is Err ==> final(stream).answers().len() > old(stream).answers().len(),
        res is Err ==> final(stream).answers().last() is None,
        ty@ is Unit ==> res is Ok && final(stream).answers() == old(stream).answers(),
{
    let before = old(stream).answers();
    let after = final(stream).answers();
    match res {
        Ok(v) => {
            lemma_bits(v, bits);
            compact_bits_are_asked_for(ty@, before, after, bits);
            assert(after =~= before + bits.map_values(|bit: bool| Some(bit)));
        },
        Err(_) => {
            failure_is_a_missing_bit(Encoding::Compact, ty@, before, after);
        },
    }
    if ty@ is Unit {
        assert(after =~= before);
    }
}

/// Compact decoding of a sum asks any stream for a tag and then for the side that the tag
/// selects. It fails if there is no tag.
pub proof fn compact_answers_of_a_sum<I: Iterator<Item = u8>, J: Iterator<Item = u8>>(
    stream: &mut BitIter<I>,
    asked: Seq<Option<bool>>,
    ty: &Final,
    res: Result<ValueCompact, EarlyEndOfStreamError>,
    left: Ty,
    right: Ty,
    side: &Final,
    side_stream: &mut BitIter<J>,
    side_asked: Seq<Option<bool>>,
    side_res: Result<ValueCompact, EarlyEndOfStreamError>,
)
    requires
        ty@ == Ty::Sum(Box::new(left), Box::new(right)),
        final(stream).answers() == old(stream).answers() + asked,
        call_ensures(ValueCompact::from_compact_bits::<I>, (stream, ty), res),
        asked.len() > 0,
        side@ == if asked[0] == Some(true) {
            right
        } else {
            left
        },
        final(side_stream).answers() == old(side_stream).answers() + side_asked,
        call_ensures(ValueCompact::from_compact_bits::<J>, (side_stream, side), side_res),
    ensures
        asked[0] is None ==> res is Err && asked.len() == 1,
        asked[0] matches Some(tag) ==> {
            &&& asked.len() >= 1
            &&& asked.skip(1) == side_asked ==> same_after(res, seq![tag], side_res)
        },
{
    lemma_asked(
        Encoding::Compact,
        ty@,
        old(stream).answers(),
        asked,
        decoded_bits(res),
    );
    lemma_asked(
        Encoding::Compact,
        side@,
        old(side_stream).answers(),
        side_asked,
        decoded_bits(side_res),
    );
    lemma_answered_sum(Encoding::Compact, left, right, asked, res, side_res);
}

/// Compact decoding of a product asks any stream for the left part and then for the right part.
pub proof fn compact_answers_of_a_product<
    I: Iterator<Item = u8>,
    J: Iterator<Item = u8>,
    K: Iterator<Item = u8>,
>(
    stream: &mut BitIter<I>,
    asked: Seq<Option<bool>>,
    ty: &Final,
    res: Result<ValueCompact, EarlyEndOfStreamError>,
    left: &Final,
    left_stream: &mut BitIter<J>,
    left_asked: Seq<Option<bool>>,
    left_res: Result<ValueCompact, EarlyEndOfStreamError>,
    right: &Final,
    right_stream: &mut BitIter<K>,
    right_asked: Seq<Option<bool>>,
    right_res: Result<ValueCompact, EarlyEndOfStreamError>,
)
    requires
        ty@ == Ty::Product(Box::new(left@), Box::new(right@)),
        final(stream).answers() == old(stream).answers() + asked,
        call_ensures(ValueCompact::from_compact_bits::<I>, (stream, ty), res),
        final(left_stream).answers() == old(left_stream).answers() + left_asked,
        call_ensures(ValueCompact::from_compact_bits::<J>, (left_stream, left), left_res),
        final(right_stream).answers() == old(right_stream).answers() + right_asked,
        call_ensures(ValueCompact::from_compact_bits::<K>, (right_stream, right), right_res),
    ensures
        left_res is Err && asked == left_asked ==> res is Err,
        left_res is Ok && asked == left_asked + right_asked ==> forall|front: Seq<bool>| #[trigger]
            has_bits(left_res->Ok_0, front) ==> same_after(res, front, right_res),
{
    lemma_asked(Encoding::Compact, ty@, old(stream).answers(), asked, decoded_bits(res));
    lemma_asked(
        Encoding::Compact,
        left@,
        old(left_stream).answers(),
        left_asked,
        decoded_bits(left_res),
    );
    lemma_asked(
        Encoding::Compact,
        right@,
        old(right_stream).answers(),
        right_asked,
        decoded_bits(right_res),
    );
    lemma_answered_product(
        Encoding::Compact,
        left@,
        right@,
        left_asked,
        left_res,
        right_asked,
        right_res,
        res,
    );
}

/// Padded decoding keeps what any stream answered before. It asks for as many bits as the type is wide.
/// Where it fails, the last answer was that there is no bit.
pub proof fn padded_decoding_asks_for_bits<I: Iterator<Item = u8>>(
    stream: &mut BitIter<I>,
    ty: &Final,
    width: usize,
    res: Result<ValueCompact, EarlyEndOfStreamError>,
    bits: Seq<bool>,
)
    requires
        call_ensures(ValueCompact::from_padded_bits::<I>, (stream, ty), res),
        call_ensures(Final::bit_width, (ty,), width),
        res is Ok ==> has_bits(res->Ok_0, bits),
    ensures
        old(stream).answers().is_prefix_of(final(stream).answers()),
        res is Ok ==> final(stream).answers().len() == old(stream).answers().len() + width,
        res is Err ==> final(stream).answers().len() > old(stream).answers().len(),
        res is Err ==> final(stream).answers().last() is None,
        ty@ is Unit ==> res is Ok && final(stream).answers() == old(stream).answers(),
{
    let before = old(stream).answers();
    let after = final(stream).answers();
    match res {
        Ok(v) => {
            lemma_bits(v, bits);
            padded_bits_are_asked_for(ty@, before, after, bits);
        },
        Err(_) => {
            failure_is_a_missing_bit(Encoding::Padded, ty@, before, after);
        },
    }
    if ty@ is Unit {
        assert(after =~= before);
    }
}

/// Padded decoding of a sum asks any stream for a tag, for the padding and then for the side that the tag
/// selects. It fails if there is no tag, and passes over padding that is missing.
pub proof fn padded_answers_of_a_sum<I: Iterator<Item = u8>, J: Iterator<Item = u8>>(
    stream: &mut BitIter<I>,
    asked: Seq<Option<bool>>,
    ty: &Final,
    res: Result<ValueCompact, EarlyEndOfStreamError>,
    left: Ty,
    right: Ty,
    width: usize,
    side_width: usize,
    side: &Final,
    side_stream: &mut BitIter<J>,
    side_asked: Seq<Option<bool>>,
    side_res: Result<ValueCompact, EarlyEndOfStreamError>,
)
    requires
        ty@ == Ty::Sum(Box::new(left), Box::new(right)),
        final(stream).answers() == old(stream).answers() + asked,
        call_ensures(ValueCompact::from_padded_bits::<I>, (stream, ty), res),
        asked.len() > 0,
        side@ == if asked[0] == Some(true) {
            right
        } else {
            left
        },
        call_ensures(Final::bit_width, (ty,), width),
        call_ensures(Final::bit_width, (side,), side_width),
        final(side_stream).answers() == old(side_stream).answers() + side_asked,
        call_ensures(ValueCompact::from_padded_bits::<J>, (side_stream, side), side_res),
    ensures
        asked[0] is None ==> res is Err && asked.len() == 1,
        asked[0] matches Some(tag) ==> {
            &&& asked.len() >= width - side_width
            &&& asked.skip(width - side_width) == side_asked ==> same_after(res, seq![tag], side_res)
        },
{
    lemma_asked(
        Encoding::Padded,
        ty@,
        old(stream).answers(),
        asked,
        decoded_bits(res),
    );
    lemma_asked(
        Encoding::Padded,
        side@,
        old(side_stream).answers(),
        side_asked,
        decoded_bits(side_res),
    );
    lemma_answered_sum(Encoding::Padded, left, right, asked, res, side_res);
}

/// Padded decoding of a product asks any stream for the left part and then for the right part.
pub proof fn padded_answers_of_a_product<
    I: Iterator<Item = u8>,
    J: Iterator<Item = u8>,
    K: Iterator<Item = u8>,
>(
    stream: &mut BitIter<I>,
    asked: Seq<Option<bool>>,
    ty: &Final,
    res: Result<ValueCompact, EarlyEndOfStreamError>,
    left: &Final,
    left_stream: &mut BitIter<J>,
    left_asked: Seq<Option<bool>>,
    left_res: Result<ValueCompact, EarlyEndOfStreamError>,
    right: &Final,
    right_stream: &mut BitIter<K>,
    right_asked: Seq<Option<bool>>,
    right_res: Result<ValueCompact, EarlyEndOfStreamError>,
)
    requires
        ty@ == Ty::Product(Box::new(left@), Box::new(right@)),
        final(stream).answers() == old(stream).answers() + asked,
        call_ensures(ValueCompact::from_padded_bits::<I>, (stream, ty), res),
        final(left_stream).answers() == old(left_stream).answers() + left_asked,
        call_ensures(ValueCompact::from_padded_bits::<J>, (left_stream, left), left_res),
        final(right_stream).answers() == old(right_stream).answers() + right_asked,
        call_ensures(ValueCompact::from_padded_bits::<K>, (right_stream, right), right_res),
    ensures
        left_res is Err && asked == left_asked ==> res is Err,
        left_res is Ok && asked == left_asked + right_asked ==> forall|front: Seq<bool>| #[trigger]
            has_bits(left_res->Ok_0, front) ==> same_after(res, front, right_res),
{
    lemma_asked(Encoding::Padded, ty@, old(stream).answers(), asked, decoded_bits(res));
    lemma_asked(
        Encoding::Padded,
        left@,
        old(left_stream).answers(),
        left_asked,
        decoded_bits(left_res),
    );
    lemma_asked(
        Encoding::Padded,
        right@,
        old(right_stream).answers(),
        right_asked,
        decoded_bits(right_res),
    );
    lemma_answered_product(
        Encoding::Padded,
        left@,
        right@,
        left_asked,
        left_res,
        right_asked,
        right_res,
        res,
    );
}

} // verus!
