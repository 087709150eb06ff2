//! # Pruning values
use crate::bits::buffer_fits;
use crate::storage::{lemma_located, lemma_prune, lemma_prune_pair, lemma_prune_side, Stored};
use crate::types::{CompleteBound, Final, Ty};
use crate::value_compact::{ValueCompact, ValueRef};
use std::sync::Arc;
use vstd::prelude::*;

verus! {

/// A step of the pruning machine.
///
/// The machine works off a stack of tasks and keeps the values that are finished on a second
/// stack.
enum Task<'v, 'ty> {
    /// Prune a value to a type.
    Prune(ValueRef<'v>, &'ty Final),
    /// Wrap the last value on the left.
    MakeLeft(Arc<Final>),
    /// Wrap the last value on the right.
    MakeRight(Arc<Final>),
    /// Pair the last two values.
    MakeProduct,
}

/// The finished values.
spec fn views(output: Seq<ValueCompact>) -> Seq<Stored> {
    output.map_values(|v: ValueCompact| v@)
}

impl<'v, 'ty> Task<'v, 'ty> {
    /// The finished values after the task.
    spec fn apply(self, output: Seq<Stored>) -> Seq<Stored> {
        match self {
            Task::Prune(value, ty) => output.push(value@.prune(ty@)),
            Task::MakeLeft(right) => output.drop_last().push(output.last().left(right@)),
            Task::MakeRight(left) => output.drop_last().push(output.last().right(left@)),
            Task::MakeProduct => output.drop_last().drop_last().push(
                output[output.len() - 2].product(output.last()),
            ),
        }
    }

    /// The task can be carried out.
    spec fn ready(self, output: Seq<Stored>) -> bool {
        match self {
            Task::Prune(value, ty) => value@.wf() && ty@.fits() && ty@.le(value@.ty),
            Task::MakeLeft(right) => {
                &&& output.len() >= 1
                &&& Ty::sum(output.last().ty, right@).fits()
                &&& buffer_fits(output.last().val.size() + 1)
            },
            Task::MakeRight(left) => {
                &&& output.len() >= 1
                &&& Ty::sum(left@, output.last().ty).fits()
                &&& buffer_fits(output.last().val.size() + 1)
            },
            Task::MakeProduct => {
                let (l, r) = (output[output.len() - 2], output.last());
                &&& output.len() >= 2
                &&& Ty::product(l.ty, r.ty).fits()
                &&& buffer_fits(l.val.size() + r.val.size())
            },
        }
    }

    /// A bound on the steps that the task takes.
    spec fn steps(self) -> nat {
        match self {
            Task::Prune(_, ty) => 2 * ty@.nodes(),
            _ => 1,
        }
    }
}

/// The finished values after all tasks, the last one first.
spec fn run(tasks: Seq<Task>, output: Seq<Stored>) -> Seq<Stored>
    decreases tasks.len(),
{
    if tasks.len() == 0 {
        output
    } else {
        run(tasks.drop_last(), tasks.last().apply(output))
    }
}

/// Each task can be carried out when its turn comes.
spec fn all_ready(tasks: Seq<Task>, output: Seq<Stored>) -> bool
    decreases tasks.len(),
{
    tasks.len() > 0 ==> tasks.last().ready(output) && all_ready(
        tasks.drop_last(),
        tasks.last().apply(output),
    )
}

spec fn all_steps(tasks: Seq<Task>) -> nat
    decreases tasks.len(),
{
    if tasks.len() == 0 {
        0
    } else {
        tasks.last().steps() + all_steps(tasks.drop_last())
    }
}

proof fn lemma_push(tasks: Seq<Task>, task: Task, output: Seq<Stored>)
    ensures
        run(tasks.push(task), output) == run(tasks, task.apply(output)),
        all_ready(tasks.push(task), output) == (task.ready(output) && all_ready(
            tasks,
            task.apply(output),
        )),
        all_steps(tasks.push(task)) == task.steps() + all_steps(tasks),
{
    assert(tasks.push(task).drop_last() =~= tasks);
}

impl ValueCompact {
    /// Prune the value down to the given type.
    ///
    /// The pruned type must be _smaller than or equal to_ the current type of the value.
    /// Otherwise, this method returns `None`.
    ///
    /// ## Smallness
    ///
    /// - `T` ≤ `T` for all types `T`
    /// - `1` ≤ `T` for all types `T`
    /// - `A1 + B1` ≤ `A2 + B2` if `A1` ≤ `A2` and `B1` ≤ `B2`
    /// - `A1 × B1` ≤ `A2 × B2` if `A1` ≤ `A2` and `B1` ≤ `B2`
    ///
    /// ## Pruning
    ///
    /// - `prune( v: T, 1 )` = `(): 1`
    /// - `prune( L(l): A1 + B1, A2 + B2 )` = `L( prune(l: A1, A2) ): A2 + B2`
    /// - `prune( R(r): A1 + B1, A2 + B2 )` = `R( prune(r: B1, B2) ): A2 + B2`
    /// - `prune( (l, r): A1 × B1, A2 × B2 )` = `( prune(l: A1, A2), prune(r: B1, B2) ): A2 × B2`
    pub fn prune(&self, pruned_ty: &Final) -> (res: Option<Self>)
        ensures
            match res {
                Some(pruned) => {
                    &&& pruned_ty@.le(self@.ty)
                    &&& pruned@.ty == pruned_ty@
                    &&& pruned@.val == self@.val.prune(pruned_ty@)
                    &&& pruned@ == self@.located().prune(pruned_ty@)
                },
                None => !pruned_ty@.le(self@.ty),
            },
    {
        if !pruned_ty.is_smaller_or_equal(self.ty()) {
            return None;
        }
        proof {
            use_type_invariant(self);
            use_type_invariant(pruned_ty);
            lemma_located(self@);
            lemma_prune(self@.located(), pruned_ty@);
        }
        let ghost goal = self@.located().prune(pruned_ty@);
        let mut stack: Vec<Task> = Vec::new();
        stack.push(Task::Prune(self.as_ref(), pruned_ty));
        let mut output: Vec<ValueCompact> = Vec::new();
        proof {
            let task = stack@[0];
            assert(stack@ =~= Seq::empty().push(task));
            lemma_push(Seq::empty(), task, views(output@));
            assert(views(output@) =~= Seq::empty());
            assert(run(Seq::<Task>::empty(), seq![goal]) == seq![goal]);
            assert(Seq::<Stored>::empty().push(goal) =~= seq![goal]);
        }
        while stack.len() > 0
            invariant
                all_ready(stack@, views(output@)),
                run(stack@, views(output@)) == seq![goal],
            decreases all_steps(stack@),
        {
            let ghost before = stack@;
            let ghost out = views(output@);
            let task = stack.pop().unwrap();
            let ghost rest = stack@;
            proof {
                assert(before == rest.push(task));
                lemma_push(rest, task, out);
            }
            match task {
                Task::Prune(value, pruned_ty) => {
                    if value.ty() == pruned_ty {
                        output.push(value.to_value());
                        assert(views(output@) =~= task.apply(out));
                    } else {
                        match pruned_ty.bound() {
                            CompleteBound::Unit => {
                                output.push(ValueCompact::unit());
                                assert(views(output@) =~= task.apply(out));
                            },
                            CompleteBound::Sum(l_ty, r_ty) => {
                                if let Some(l_value) = value.as_left() {
                                    let make = Task::MakeLeft(Arc::clone(r_ty));
                                    let sub = Task::Prune(l_value, &**l_ty);
                                    proof {
                                        lemma_prune_side(value@, l_value@, l_ty@);
                                        lemma_push(rest.push(make), sub, out);
                                        lemma_push(rest, make, sub.apply(out));
                                        assert(make.apply(sub.apply(out)) =~= task.apply(out));
                                    }
                                    stack.push(make);
                                    stack.push(sub);
                                } else {
                                    match value.as_right() {
                                        Some(r_value) => {
                                            let make = Task::MakeRight(Arc::clone(l_ty));
                                            let sub = Task::Prune(r_value, &**r_ty);
                                            proof {
                                                lemma_prune_side(value@, r_value@, r_ty@);
                                                lemma_push(rest.push(make), sub, out);
                                                lemma_push(rest, make, sub.apply(out));
                                                assert(make.apply(sub.apply(out)) =~= task.apply(
                                                    out,
                                                ));
                                            }
                                            stack.push(make);
                                            stack.push(sub);
                                        },
                                        None => {
                                            return None;
                                        },
                                    }
                                }
                            },
                            CompleteBound::Product(l_ty, r_ty) => {
                                match value.as_product() {
                                    Some((l_value, r_value)) => {
                                        let l_sub = Task::Prune(l_value, &**l_ty);
                                        let r_sub = Task::Prune(r_value, &**r_ty);
                                        proof {
                                            let make = Task::MakeProduct;
                                            lemma_prune_pair(
                                                value@,
                                                l_value@,
                                                r_value@,
                                                l_ty@,
                                                r_ty@,
                                            );
                                            lemma_push(rest.push(make).push(r_sub), l_sub, out);
                                            lemma_push(rest.push(make), r_sub, l_sub.apply(out));
                                            lemma_push(
                                                rest,
                                                make,
                                                r_sub.apply(l_sub.apply(out)),
                                            );
                                            assert(make.apply(r_sub.apply(l_sub.apply(out)))
                                                =~= task.apply(out));
                                        }
                                        stack.push(Task::MakeProduct);
                                        stack.push(r_sub);
                                        stack.push(l_sub);
                                    },
                                    None => {
                                        return None;
                                    },
                                }
                            },
                        }
                    }
                },
                Task::MakeLeft(r_ty) => {
                    let l_value = output.pop().unwrap();
                    output.push(ValueCompact::left(l_value, r_ty));
                    assert(views(output@) =~= task.apply(out));
                },
                Task::MakeRight(l_ty) => {
                    let r_value = output.pop().unwrap();
                    output.push(ValueCompact::right(l_ty, r_value));
                    assert(views(output@) =~= task.apply(out));
                },
                Task::MakeProduct => {
                    let r_value = output.pop().unwrap();
                    let l_value = output.pop().unwrap();
                    output.push(ValueCompact::product(l_value, r_value));
                    assert(views(output@) =~= task.apply(out));
                },
            }
        }
        assert(views(output@)[0] == goal);
        output.pop()
    }
}

} // verus!
