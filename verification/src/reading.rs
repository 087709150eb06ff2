//! # Reading values answer by answer
//!
//! A stream is asked for one bit at a time. It answers with a bit, or with nothing where it has
//! none to give. What is read is a function of the answers alone, whatever the stream is.
use crate::model::{padding, Encoding};
use crate::types::Ty;
use vstd::prelude::*;

verus! {

/// The answers of a stream that gave the bits, one after the other.
pub open spec fn all_given(bits: Seq<bool>) -> Seq<Option<bool>> {
    bits.map_values(|bit: bool| Some(bit))
}

/// How far some answers get in reading a value.
pub enum Reading {
    /// A value was read. It has the given compact encoding, and the given answers are left.
    Done(Seq<bool>, Seq<Option<bool>>),
    /// There was no bit where a tag was due. The given answers are left.
    Failed(Seq<Option<bool>>),
    /// More is to be asked for.
    Unfinished,
}

impl Reading {
    /// The same after some bits of the compact encoding.
    pub open spec fn after(self, done: Seq<bool>) -> Reading {
        match self {
            Reading::Done(bits, rest) => Reading::Done(done + bits, rest),
            _ => self,
        }
    }
}

/// Read a value of the given type from the answers of a stream.
///
/// A sum takes an answer for its tag and one for each bit of padding. Answers for padding are not
/// looked at.
pub open spec fn reading(encoding: Encoding, ty: Ty, answers: Seq<Option<bool>>) -> Reading
    decreases ty,
{
    match ty {
        Ty::Unit => Reading::Done(Seq::empty(), answers),
        Ty::Sum(a, b) => if answers.len() == 0 {
            Reading::Unfinished
        } else {
            match answers[0] {
                None => Reading::Failed(answers.skip(1)),
                Some(tag) => {
                    let asked = 1 + padding(encoding, *a, *b, tag);
                    if answers.len() < asked {
                        Reading::Unfinished
                    } else if tag {
                        reading(encoding, *b, answers.skip(asked as int)).after(seq![tag])
                    } else {
                        reading(encoding, *a, answers.skip(asked as int)).after(seq![tag])
                    }
                },
            }
        },
        Ty::Product(a, b) => match reading(encoding, *a, answers) {
            Reading::Done(bits, rest) => reading(encoding, *b, rest).after(bits),
            other => other,
        },
    }
}

/// Read a value for each type on the stack.
pub open spec fn reading_stack(
    encoding: Encoding,
    stack: Seq<Ty>,
    answers: Seq<Option<bool>>,
) -> Reading
    decreases stack.len(),
{
    if stack.len() == 0 {
        Reading::Done(Seq::empty(), answers)
    } else {
        match reading(encoding, stack.last(), answers) {
            Reading::Done(bits, rest) => reading_stack(encoding, stack.drop_last(), rest).after(
                bits,
            ),
            other => other,
        }
    }
}

/// After the given answers, which gave the bits that are done, the types on the stack are still to
/// be read.
pub open spec fn follows(
    encoding: Encoding,
    ty: Ty,
    answers: Seq<Option<bool>>,
    done: Seq<bool>,
    stack: Seq<Ty>,
) -> bool {
    forall|tail: Seq<Option<bool>>| #[trigger]
        reading_stack(encoding, stack, tail).after(done) == reading(encoding, ty, answers + tail)
}

proof fn lemma_after(r: Reading, first: Seq<bool>, second: Seq<bool>)
    ensures
        r.after(Seq::empty()) == r,
        r.after(second).after(first) == r.after(first + second),
{
    if let Reading::Done(bits, rest) = r {
        assert(Seq::<bool>::empty() + bits =~= bits);
        assert(first + (second + bits) =~= (first + second) + bits);
    }
}

proof fn lemma_stack_top(
    encoding: Encoding,
    stack: Seq<Ty>,
    top: Ty,
    answers: Seq<Option<bool>>,
)
    ensures
        reading_stack(encoding, stack.push(top), answers) == match reading(
            encoding,
            top,
            answers,
        ) {
            Reading::Done(bits, rest) => reading_stack(encoding, stack, rest).after(bits),
            other => other,
        },
{
    assert(stack.push(top).drop_last() =~= stack);
}

pub(crate) proof fn lemma_follows_start(encoding: Encoding, ty: Ty)
    ensures
        follows(encoding, ty, Seq::empty(), Seq::empty(), seq![ty]),
{
    let none = Seq::<Option<bool>>::empty();
    assert forall|tail: Seq<Option<bool>>| #[trigger]
        reading_stack(encoding, seq![ty], tail).after(Seq::empty()) == reading(
            encoding,
            ty,
            none + tail,
        ) by {
        assert(none + tail =~= tail);
        assert(Seq::empty().push(ty) =~= seq![ty]);
        lemma_stack_top(encoding, Seq::empty(), ty, tail);
        lemma_after(reading_stack(encoding, seq![ty], tail), Seq::empty(), Seq::empty());
        if let Reading::Done(bits, rest) = reading(encoding, ty, tail) {
            assert(bits + Seq::empty() =~= bits);
        }
    }
}

pub(crate) proof fn lemma_follows_unit(
    encoding: Encoding,
    ty: Ty,
    answers: Seq<Option<bool>>,
    done: Seq<bool>,
    stack: Seq<Ty>,
)
    requires
        follows(encoding, ty, answers, done, stack.push(Ty::Unit)),
    ensures
        follows(encoding, ty, answers, done, stack),
{
    assert forall|tail: Seq<Option<bool>>| #[trigger]
        reading_stack(encoding, stack, tail).after(done) == reading(
            encoding,
            ty,
            answers + tail,
        ) by {
        lemma_stack_top(encoding, stack, Ty::Unit, tail);
        lemma_after(reading_stack(encoding, stack, tail), done, Seq::empty());
        assert(reading_stack(encoding, stack.push(Ty::Unit), tail).after(done) == reading(
            encoding,
            ty,
            answers + tail,
        ));
    }
}

/// A tag and the answers for its padding.
pub(crate) proof fn lemma_follows_sum(
    encoding: Encoding,
    ty: Ty,
    answers: Seq<Option<bool>>,
    done: Seq<bool>,
    stack: Seq<Ty>,
    a: Ty,
    b: Ty,
    tag: bool,
    more: Seq<Option<bool>>,
)
    requires
        follows(encoding, ty, answers, done, stack.push(Ty::sum(a, b))),
        more.len() == padding(encoding, a, b, tag),
    ensures
        follows(
            encoding,
            ty,
            answers.push(Some(tag)) + more,
            done.push(tag),
            stack.push(
                if tag {
                    b
                } else {
                    a
                },
            ),
        ),
{
    let side = if tag {
        b
    } else {
        a
    };
    let asked = answers.push(Some(tag)) + more;
    assert forall|tail: Seq<Option<bool>>| #[trigger]
        reading_stack(encoding, stack.push(side), tail).after(done.push(tag)) == reading(
            encoding,
            ty,
            asked + tail,
        ) by {
        let longer = seq![Some(tag)] + more + tail;
        assert(longer.skip(1 + more.len() as int) =~= tail);
        assert(answers + longer =~= asked + tail);
        assert(done + seq![tag] =~= done.push(tag));
        lemma_stack_top(encoding, stack, Ty::sum(a, b), longer);
        lemma_stack_top(encoding, stack, side, tail);
        assert(reading_stack(encoding, stack.push(Ty::sum(a, b)), longer).after(done) == reading(
            encoding,
            ty,
            answers + longer,
        ));
        assert(reading(encoding, Ty::sum(a, b), longer) == reading(encoding, side, tail).after(
            seq![tag],
        ));
        if let Reading::Done(bits, rest) = reading(encoding, side, tail) {
            lemma_after(reading_stack(encoding, stack, rest), seq![tag], bits);
        }
        lemma_after(reading_stack(encoding, stack.push(side), tail), done, seq![tag]);
    }
}

/// No bit where a tag is due.
pub(crate) proof fn lemma_follows_fail(
    encoding: Encoding,
    ty: Ty,
    answers: Seq<Option<bool>>,
    done: Seq<bool>,
    stack: Seq<Ty>,
    a: Ty,
    b: Ty,
)
    requires
        follows(encoding, ty, answers, done, stack.push(Ty::sum(a, b))),
    ensures
        reading(encoding, ty, answers.push(None)) == Reading::Failed(Seq::empty()),
{
    let tail = seq![None::<bool>];
    lemma_stack_top(encoding, stack, Ty::sum(a, b), tail);
    assert(tail.skip(1) =~= Seq::empty());
    assert(answers + tail =~= answers.push(None));
    assert(reading_stack(encoding, stack.push(Ty::sum(a, b)), tail).after(done) == reading(
        encoding,
        ty,
        answers + tail,
    ));
}

pub(crate) proof fn lemma_follows_product(
    encoding: Encoding,
    ty: Ty,
    answers: Seq<Option<bool>>,
    done: Seq<bool>,
    stack: Seq<Ty>,
    a: Ty,
    b: Ty,
)
    requires
        follows(encoding, ty, answers, done, stack.push(Ty::product(a, b))),
    ensures
        follows(encoding, ty, answers, done, stack.push(b).push(a)),
{
    assert forall|tail: Seq<Option<bool>>| #[trigger]
        reading_stack(encoding, stack.push(b).push(a), tail).after(done) == reading(
            encoding,
            ty,
            answers + tail,
        ) by {
        lemma_stack_top(encoding, stack, Ty::product(a, b), tail);
        lemma_stack_top(encoding, stack.push(b), a, tail);
        if let Reading::Done(bits, rest) = reading(encoding, a, tail) {
            lemma_stack_top(encoding, stack, b, rest);
            if let Reading::Done(more, rest) = reading(encoding, b, rest) {
                lemma_after(reading_stack(encoding, stack, rest), bits, more);
            }
        }
        assert(reading_stack(encoding, stack.push(Ty::product(a, b)), tail).after(done)
            == reading(encoding, ty, answers + tail));
    }
}

pub(crate) proof fn lemma_follows_end(
    encoding: Encoding,
    ty: Ty,
    answers: Seq<Option<bool>>,
    done: Seq<bool>,
)
    requires
        follows(encoding, ty, answers, done, Seq::empty()),
    ensures
        reading(encoding, ty, answers) == Reading::Done(done, Seq::empty()),
{
    let none = Seq::<Option<bool>>::empty();
    assert(reading_stack(encoding, Seq::empty(), none).after(done) == reading(
        encoding,
        ty,
        answers + none,
    ));
    assert(answers + none =~= answers);
    assert(done + Seq::empty() =~= done);
}

} // verus!
