//! # Decoding values from bit streams
use crate::bit_iter::{BitIter, EarlyEndOfStreamError};
use crate::bits::{bits_of, buffer_fits, left_aligned, lemma_realign, push_bit, shift_right};
use crate::model::{lemma_bits_determine, lemma_size, parse, Encoding, Val};
use crate::reading::{
    follows, lemma_follows_end, lemma_follows_fail, lemma_follows_product, lemma_follows_start,
    lemma_follows_sum, lemma_follows_unit, reading, Reading,
};
use crate::storage::{lemma_fresh, Stored};
use crate::traversal::{
    extends, lemma_extends_end, lemma_extends_product, lemma_extends_start, lemma_extends_sum,
    lemma_extends_unit, lemma_progress_end, lemma_progress_product, lemma_progress_start,
    lemma_progress_sum, lemma_progress_unit, lemma_stack_push, lemma_trees_push, progress,
    stack_nodes, stack_width, trees,
};
use crate::types::{CompleteBound, Final, Ty};
use crate::value_compact::ValueCompact;
use std::sync::Arc;
use vstd::prelude::*;
use vstd::std_specs::iter::IteratorSpec;

verus! {

/// What decoding a value from a stream of bits gives.
///
/// The value that the stream starts with is returned in a buffer of its own, and what follows it
/// stays in the stream. A stream that ends too early is used up and gives an error.
pub open spec fn decodes(
    encoding: Encoding,
    ty: Ty,
    ahead: Seq<bool>,
    res: Result<ValueCompact, EarlyEndOfStreamError>,
    after: Seq<bool>,
) -> bool {
    match parse(encoding, ty, ahead) {
        Some((v, rest)) => {
            &&& res matches Ok(value)
            &&& value@ == Stored::fresh(ty, v)
            &&& after == rest
        },
        None => {
            &&& res == Err::<ValueCompact, _>(EarlyEndOfStreamError)
            &&& after.len() == 0
        },
    }
}

/// What reading the bits of a value from a stream gives.
spec fn reads(
    encoding: Encoding,
    ty: Ty,
    ahead: Seq<bool>,
    res: Result<(Vec<u8>, usize), EarlyEndOfStreamError>,
    after: Seq<bool>,
) -> bool {
    match parse(encoding, ty, ahead) {
        Some((v, rest)) => {
            &&& res matches Ok((buffer, bit_len))
            &&& bits_of(buffer@).take(bit_len as int) == v.bits()
            &&& v.has_type(ty)
            &&& after == rest
        },
        None => res is Err && after.len() == 0,
    }
}

/// What a stream answered, whatever stream it is, led to the given result: the compact encoding of
/// a value, or none where there was no bit for a tag. Nothing else was asked for.
pub open spec fn answered(
    encoding: Encoding,
    ty: Ty,
    before: Seq<Option<bool>>,
    after: Seq<Option<bool>>,
    res: Option<Seq<bool>>,
) -> bool {
    &&& before.is_prefix_of(after)
    &&& reading(encoding, ty, after.skip(before.len() as int)) == match res {
        Some(bits) => Reading::Done(bits, Seq::empty()),
        None => Reading::Failed(Seq::empty()),
    }
}

/// The compact encoding of a decoded value.
pub open spec fn decoded_bits(res: Result<ValueCompact, EarlyEndOfStreamError>) -> Option<
    Seq<bool>,
> {
    match res {
        Ok(value) => Some(value@.val.bits()),
        Err(_) => None,
    }
}

/// Read the encoding of a value of the given type.
///
/// Gives a buffer that starts with the compact encoding of the value, and the number of bits of
/// that encoding.
fn read_bits<I: Iterator<Item = u8>>(
    encoding: Encoding,
    bits: &mut BitIter<I>,
    ty: &Final,
) -> (res: Result<(Vec<u8>, usize), EarlyEndOfStreamError>)
    ensures
        res matches Ok((buffer, bit_len)) ==> {
            &&& bit_len <= bits_of(buffer@).len()
            &&& bits_of(buffer@) == left_aligned(bits_of(buffer@).take(bit_len as int))
            &&& extends(ty@, bits_of(buffer@).take(bit_len as int), Seq::empty())
        },
        answered(
            encoding,
            ty@,
            old(bits).answers(),
            final(bits).answers(),
            match res {
                Ok((buffer, bit_len)) => Some(bits_of(buffer@).take(bit_len as int)),
                Err(_) => None,
            },
        ),
        ty@.width() == 0 ==> res is Ok,
        final(bits).lawful() == old(bits).lawful(),
        old(bits).lawful() ==> reads(
            encoding,
            ty@,
            old(bits).ahead(old(bits).source().remaining()),
            res,
            final(bits).ahead(final(bits).source().remaining()),
        ),
{
    let ghost mut done: Seq<bool> = Seq::empty();
    let ghost goal = ty@;
    let ghost mut new: Seq<Option<bool>> = Seq::empty();
    let mut buffer: Vec<u8> = Vec::new();
    let mut bit_len: usize = 0;
    let mut stack: Vec<&Final> = Vec::new();
    stack.push(ty);
    let width: usize = ty.bit_width();
    proof {
        assert(bits_of(buffer@) =~= left_aligned(done));
        assert(trees(stack@) =~= seq![goal]);
        lemma_stack_push(Seq::empty(), goal);
        assert(Seq::empty().push(goal) =~= seq![goal]);
        lemma_extends_start(goal);
        lemma_follows_start(encoding, goal);
        assert(bits.answers() =~= old(bits).answers() + new);
        lemma_progress_start(encoding, goal, bits.ahead(bits.source().remaining()));
    }
    while stack.len() > 0
        invariant
            goal == ty@,
            width == goal.width(),
            bits_of(buffer@) == left_aligned(done),
            bit_len == done.len(),
            done.len() + stack_width(trees(stack@)) <= width,
            extends(goal, done, trees(stack@)),
            follows(encoding, goal, new, done, trees(stack@)),
            bits.answers() == old(bits).answers() + new,
            bits.lawful() == old(bits).lawful(),
            bits.lawful() ==> progress(
                encoding,
                goal,
                old(bits).ahead(old(bits).source().remaining()),
                done,
                trees(stack@),
                bits.ahead(bits.source().remaining()),
            ),
        decreases stack_nodes(trees(stack@)),
    {
        let ghost before = stack@;
        let top = stack.pop().unwrap();
        let ghost rest = trees(stack@);
        proof {
            assert(before == stack@.push(top));
            lemma_trees_push(stack@, top);
            lemma_stack_push(rest, top@);
        }
        match top.bound() {
            CompleteBound::Unit => {
                proof {
                    lemma_extends_unit(goal, done, rest);
                    lemma_follows_unit(encoding, goal, new, done, rest);
                    if bits.lawful() {
                        lemma_progress_unit(
                            encoding,
                            goal,
                            old(bits).ahead(old(bits).source().remaining()),
                            done,
                            rest,
                            bits.ahead(bits.source().remaining()),
                        );
                    }
                }
            },
            CompleteBound::Sum(left, right) => {
                proof {
                    lemma_stack_push(rest, left@);
                    lemma_stack_push(rest, right@);
                    lemma_trees_push(stack@, &**left);
                    lemma_trees_push(stack@, &**right);
                    if bits.lawful() {
                        lemma_progress_sum(
                            encoding,
                            goal,
                            old(bits).ahead(old(bits).source().remaining()),
                            done,
                            rest,
                            left@,
                            right@,
                            bits.ahead(bits.source().remaining()),
                        );
                    }
                }
                let tag = match bits.next() {
                    None => {
                        proof {
                            lemma_follows_fail(encoding, goal, new, done, rest, left@, right@);
                            assert(bits.answers().skip(old(bits).answers().len() as int)
                                =~= new.push(None));
                            assert(old(bits).answers().is_prefix_of(bits.answers()));
                        }
                        return Err(EarlyEndOfStreamError);
                    },
                    Some(tag) => tag,
                };
                let padding: usize = match encoding {
                    Encoding::Compact => 0,
                    Encoding::Padded => {
                        let left_size: usize = left.bit_width();
                        let right_size: usize = right.bit_width();
                        let max: usize = if left_size >= right_size {
                            left_size
                        } else {
                            right_size
                        };
                        if tag {
                            max - right_size
                        } else {
                            max - left_size
                        }
                    },
                };
                let ghost tagged = bits.answers();
                bits.skip(padding);
                proof {
                    let more = bits.answers().skip(tagged.len() as int);
                    assert(bits.answers() =~= tagged + more);
                    lemma_follows_sum(encoding, goal, new, done, rest, left@, right@, tag, more);
                    new = new.push(Some(tag)) + more;
                    assert(bits.answers() =~= old(bits).answers() + new);
                    assert(left_aligned(done).take(done.len() as int) =~= done);
                    lemma_extends_sum(goal, done, rest, left@, right@, tag);
                    done = done.push(tag);
                }
                push_bit(tag, &mut bit_len, &mut buffer);
                if tag {
                    stack.push(&**right);
                } else {
                    stack.push(&**left);
                }
            },
            CompleteBound::Product(left, right) => {
                proof {
                    lemma_stack_push(rest, right@);
                    lemma_stack_push(rest.push(right@), left@);
                    lemma_trees_push(stack@, &**right);
                    lemma_trees_push(stack@.push(&**right), &**left);
                    lemma_extends_product(goal, done, rest, left@, right@);
                    lemma_follows_product(encoding, goal, new, done, rest, left@, right@);
                    if bits.lawful() {
                        lemma_progress_product(
                            encoding,
                            goal,
                            old(bits).ahead(old(bits).source().remaining()),
                            done,
                            rest,
                            left@,
                            right@,
                            bits.ahead(bits.source().remaining()),
                        );
                    }
                }
                stack.push(&**right);
                stack.push(&**left);
            },
        }
    }
    proof {
        assert(trees(stack@) =~= Seq::empty());
        assert(left_aligned(done).take(done.len() as int) =~= done);
        lemma_follows_end(encoding, goal, new, done);
        assert(bits.answers().skip(old(bits).answers().len() as int) =~= new);
        assert(old(bits).answers().is_prefix_of(bits.answers()));
        if bits.lawful() {
            lemma_progress_end(
                encoding,
                goal,
                old(bits).ahead(old(bits).source().remaining()),
                done,
                bits.ahead(bits.source().remaining()),
            );
        }
    }
    Ok((buffer, bit_len))
}

impl ValueCompact {
    /// Decode a value of the given type from one of its encodings.
    fn from_bits<I: Iterator<Item = u8>>(
        encoding: Encoding,
        bits: &mut BitIter<I>,
        ty: &Final,
    ) -> (res: Result<Self, EarlyEndOfStreamError>)
        requires
            buffer_fits(ty@.width()) || (old(bits).lawful() && (parse(
                encoding,
                ty@,
                old(bits).ahead(old(bits).source().remaining()),
            ) matches Some((v, _)) ==> buffer_fits(v.size()))),
        ensures
            res matches Ok(value) ==> value@ == Stored::fresh(ty@, value@.val),
            ty@.width() == 0 ==> res is Ok,
            answered(
                encoding,
                ty@,
                old(bits).answers(),
                final(bits).answers(),
                decoded_bits(res),
            ),
            final(bits).lawful() == old(bits).lawful(),
            old(bits).lawful() ==> decodes(
                encoding,
                ty@,
                old(bits).ahead(old(bits).source().remaining()),
                res,
                final(bits).ahead(final(bits).source().remaining()),
            ),
    {
        let (mut buffer, bit_len) = match read_bits(encoding, bits, ty) {
            Ok(read) => read,
            Err(e) => {
                return Err(e);
            },
        };
        let ghost done = bits_of(buffer@).take(bit_len as int);
        let ghost val = match parse(Encoding::Compact, ty@, done) {
            Some((v, _)) => v,
            None => Val::Unit,
        };
        let unused_bits: usize = (8 - (bit_len % 8)) % 8;
        proof {
            use_type_invariant(ty);
            lemma_extends_end(ty@, done);
            lemma_size(val, ty@);
            lemma_fresh(ty@, val);
            lemma_realign(done, unused_bits as nat);
        }
        shift_right(&mut buffer, unused_bits);
        let res = Self::assemble(Arc::new(buffer), bit_len, Arc::new(ty.clone()), Ghost(val));
        proof {
            assert forall|v: Val| #[trigger] v.bits() == val.bits() && v.has_type(ty@) implies v
                == val by {
                lemma_bits_determine(v, val, ty@);
            }
        }
        Ok(res)
    }

    /// Decode a value of the given type from its compact bit encoding.
    ///
    /// The bits of the value must fit in a buffer. They do if the type is not too wide, or if the
    /// stream is not too long.
    pub fn from_compact_bits<I: Iterator<Item = u8>>(bits: &mut BitIter<I>, ty: &Final) -> (res:
        Result<Self, EarlyEndOfStreamError>)
        requires
            buffer_fits(ty@.width()) || (old(bits).lawful() && (parse(
                Encoding::Compact,
                ty@,
                old(bits).ahead(old(bits).source().remaining()),
            ) matches Some((v, _)) ==> buffer_fits(v.size()))),
        ensures
            res matches Ok(value) ==> value@ == Stored::fresh(ty@, value@.val),
            ty@.width() == 0 ==> res is Ok,
            answered(
                Encoding::Compact,
                ty@,
                old(bits).answers(),
                final(bits).answers(),
                decoded_bits(res),
            ),
            final(bits).lawful() == old(bits).lawful(),
            old(bits).lawful() ==> decodes(
                Encoding::Compact,
                ty@,
                old(bits).ahead(old(bits).source().remaining()),
                res,
                final(bits).ahead(final(bits).source().remaining()),
            ),
    {
        Self::from_bits(Encoding::Compact, bits, ty)
    }

    /// Decode a value of the given type from its padded bit encoding.
    ///
    /// The bits of the value must fit in a buffer. They do if the type is not too wide, or if the
    /// stream is not too long.
    pub fn from_padded_bits<I: Iterator<Item = u8>>(bits: &mut BitIter<I>, ty: &Final) -> (res:
        Result<Self, EarlyEndOfStreamError>)
        requires
            buffer_fits(ty@.width()) || (old(bits).lawful() && (parse(
                Encoding::Padded,
                ty@,
                old(bits).ahead(old(bits).source().remaining()),
            ) matches Some((v, _)) ==> buffer_fits(v.size()))),
        ensures
            res matches Ok(value) ==> value@ == Stored::fresh(ty@, value@.val),
            ty@.width() == 0 ==> res is Ok,
            answered(
                Encoding::Padded,
                ty@,
                old(bits).answers(),
                final(bits).answers(),
                decoded_bits(res),
            ),
            final(bits).lawful() == old(bits).lawful(),
            old(bits).lawful() ==> decodes(
                Encoding::Padded,
                ty@,
                old(bits).ahead(old(bits).source().remaining()),
                res,
                final(bits).ahead(final(bits).source().remaining()),
            ),
    {
        Self::from_bits(Encoding::Padded, bits, ty)
    }
}

} // verus!
