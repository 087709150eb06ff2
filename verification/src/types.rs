//! # Simplicity types
//!
//! Every Simplicity type is built from the unit type by sums and products.
//! [`Ty`] is the mathematical tree; [`Final`] is its shared, executable form,
//! which caches the padded bit width of the type.
use std::sync::Arc;
use vstd::prelude::*;

verus! {

/// A Simplicity type as a mathematical tree.
pub enum Ty {
    Unit,
    Sum(Box<Ty>, Box<Ty>),
    Product(Box<Ty>, Box<Ty>),
}

impl Ty {
    /// The sum `left + right`.
    pub open spec fn sum(left: Ty, right: Ty) -> Ty {
        Ty::Sum(Box::new(left), Box::new(right))
    }

    /// The product `left × right`.
    pub open spec fn product(left: Ty, right: Ty) -> Ty {
        Ty::Product(Box::new(left), Box::new(right))
    }

    /// The number of bits of the padded encoding: a sum has one tag bit followed by room for
    /// its wider side.
    pub open spec fn width(self) -> nat
        decreases self,
    {
        match self {
            Ty::Unit => 0,
            Ty::Sum(a, b) => 1 + max_nat(a.width(), b.width()),
            Ty::Product(a, b) => a.width() + b.width(),
        }
    }

    /// The number of nodes of the tree.
    pub open spec fn nodes(self) -> nat
        decreases self,
    {
        match self {
            Ty::Unit => 1,
            Ty::Sum(a, b) => 1 + a.nodes() + b.nodes(),
            Ty::Product(a, b) => 1 + a.nodes() + b.nodes(),
        }
    }

    /// The word type `2^(2^n)`: a bit is `1 + 1`, and each step pairs the type with itself.
    pub open spec fn word(n: nat) -> Ty
        decreases n,
    {
        if n == 0 {
            Ty::sum(Ty::Unit, Ty::Unit)
        } else {
            Ty::product(Ty::word((n - 1) as nat), Ty::word((n - 1) as nat))
        }
    }

    /// The `n` for which the type is `2^(2^n)`, if there is one.
    pub open spec fn word_exponent(self) -> Option<nat>
        decreases self,
    {
        match self {
            Ty::Unit => None,
            Ty::Sum(a, b) => if *a is Unit && *b is Unit {
                Some(0)
            } else {
                None
            },
            Ty::Product(a, b) => match (a.word_exponent(), b.word_exponent()) {
                (Some(m), Some(n)) => if m == n {
                    Some(n + 1)
                } else {
                    None
                },
                _ => None,
            },
        }
    }

    /// The smallness order on types:
    ///
    /// - `T` ≤ `T`
    /// - `1` ≤ `T`
    /// - `A1 + B1` ≤ `A2 + B2` if `A1` ≤ `A2` and `B1` ≤ `B2`
    /// - `A1 × B1` ≤ `A2 × B2` if `A1` ≤ `A2` and `B1` ≤ `B2`
    pub open spec fn le(self, other: Ty) -> bool
        decreases self,
    {
        self == other || match (self, other) {
            (Ty::Unit, _) => true,
            (Ty::Sum(a1, b1), Ty::Sum(a2, b2)) => a1.le(*a2) && b1.le(*b2),
            (Ty::Product(a1, b1), Ty::Product(a2, b2)) => a1.le(*a2) && b1.le(*b2),
            _ => false,
        }
    }

    /// The width can be counted in a `usize`.
    pub open spec fn fits(self) -> bool {
        self.width() <= usize::MAX
    }
}

/// The larger of two numbers.
pub open spec fn max_nat(a: nat, b: nat) -> nat {
    if a >= b {
        a
    } else {
        b
    }
}

/// A type is `2^(2^n)` exactly when its exponent is `n`, and such a type is `2^n` bits wide.
pub proof fn lemma_word(n: nat)
    ensures
        Ty::word(n).word_exponent() == Some(n),
        Ty::word(n).width() == vstd::arithmetic::power2::pow2(n),
        Ty::word(n).width() > n,
    decreases n,
{
    if n == 0 {
        vstd::arithmetic::power2::lemma2_to64();
        assert(Ty::Unit.width() == 0);
    } else {
        lemma_word((n - 1) as nat);
        vstd::arithmetic::power2::lemma_pow2_unfold(n);
    }
}

/// Only `2^(2^n)` itself has the exponent `n`.
pub proof fn lemma_word_exponent(ty: Ty)
    requires
        ty.word_exponent() is Some,
    ensures
        ty == Ty::word(ty.word_exponent()->0),
    decreases ty,
{
    match ty {
        Ty::Unit => {},
        Ty::Sum(a, b) => {},
        Ty::Product(a, b) => {
            lemma_word_exponent(*a);
            lemma_word_exponent(*b);
        },
    }
}

/// A type with its parts shared behind reference counts.
///
/// Types are compared structurally. Word types remember their exponent, so that comparing two
/// of them does not walk their exponentially large trees.
#[derive(Debug)]
pub struct Final {
    bound: CompleteBound,
    bit_width: usize,
    word: Option<usize>,
}

/// The outermost constructor of a type.
#[derive(Debug)]
pub enum CompleteBound {
    /// The unit type `1`.
    Unit,
    /// The sum of a left and a right type.
    Sum(Arc<Final>, Arc<Final>),
    /// The product of a left and a right type.
    Product(Arc<Final>, Arc<Final>),
}

impl View for Final {
    type V = Ty;

    closed spec fn view(&self) -> Ty {
        self.tree()
    }
}

impl View for CompleteBound {
    type V = Ty;

    open spec fn view(&self) -> Ty {
        match *self {
            CompleteBound::Unit => Ty::Unit,
            CompleteBound::Sum(a, b) => Ty::sum(a@, b@),
            CompleteBound::Product(a, b) => Ty::product(a@, b@),
        }
    }
}

impl Final {
    spec fn tree(self) -> Ty
        decreases self,
    {
        match self.bound {
            CompleteBound::Unit => Ty::Unit,
            CompleteBound::Sum(a, b) => Ty::sum(a.tree(), b.tree()),
            CompleteBound::Product(a, b) => Ty::product(a.tree(), b.tree()),
        }
    }

    /// The cached facts are those of the type, and its width fits the machine.
    #[verifier::type_invariant]
    pub open spec fn inv(self) -> bool {
        self@.fits() && self.cached()
    }

    /// The width and the word exponent are those of the tree.
    pub closed spec fn cached(self) -> bool {
        &&& self.bit_width == self@.width()
        &&& self.word matches Some(n) ==> self@.word_exponent() == Some(n as nat)
        &&& self.word is None ==> self@.word_exponent() is None
    }

    /// Create the unit type.
    pub fn unit() -> (res: Arc<Final>)
        ensures
            res@ == Ty::Unit,
    {
        Arc::new(Final { bound: CompleteBound::Unit, bit_width: 0, word: None })
    }

    /// Create the sum of the given types.
    pub fn sum(left: Arc<Final>, right: Arc<Final>) -> (res: Arc<Final>)
        requires
            Ty::sum(left@, right@).fits(),
        ensures
            res@ == Ty::sum(left@, right@),
    {
        let left_width: usize = left.bit_width();
        let right_width: usize = right.bit_width();
        let wider: usize = if left_width >= right_width {
            left_width
        } else {
            right_width
        };
        let word: Option<usize> = if left.is_unit() && right.is_unit() {
            Some(0)
        } else {
            None
        };
        Arc::new(Final { bound: CompleteBound::Sum(left, right), bit_width: 1 + wider, word })
    }

    /// Create the product of the given types.
    pub fn product(left: Arc<Final>, right: Arc<Final>) -> (res: Arc<Final>)
        requires
            Ty::product(left@, right@).fits(),
        ensures
            res@ == Ty::product(left@, right@),
    {
        let bit_width: usize = left.bit_width() + right.bit_width();
        let word: Option<usize> = match (left.word_exponent(), right.word_exponent()) {
            (Some(m), Some(n)) => if m == n {
                proof {
                    lemma_word_exponent(left@);
                    lemma_word(n as nat);
                }
                Some(n + 1)
            } else {
                None
            },
            _ => None,
        };
        Arc::new(Final { bound: CompleteBound::Product(left, right), bit_width, word })
    }

    /// Create the type `2^(2^n)`.
    pub fn two_two_n(n: usize) -> (res: Arc<Final>)
        requires
            n < 32,
        ensures
            res@ == Ty::word(n as nat),
    {
        proof {
            lemma_word(0);
            vstd::arithmetic::power2::lemma2_to64();
        }
        let mut res = Final::sum(Final::unit(), Final::unit());
        let mut i: usize = 0;
        while i < n
            invariant
                i <= n < 32,
                res@ == Ty::word(i as nat),
            decreases n - i,
        {
            proof {
                lemma_word((i + 1) as nat);
                vstd::arithmetic::power2::lemma2_to64();
                if i + 1 < 31 {
                    vstd::arithmetic::power2::lemma_pow2_strictly_increases((i + 1) as nat, 31);
                }
            }
            res = Final::product(Arc::clone(&res), res);
            i = i + 1;
        }
        res
    }

    /// Access the outermost constructor of the type.
    pub fn bound(&self) -> (res: &CompleteBound)
        ensures
            res@ == self@,
    {
        &self.bound
    }

    /// The width of the padded bit encoding.
    pub fn bit_width(&self) -> (res: usize)
        ensures
            res == self@.width(),
            self@.fits(),
    {
        proof {
            use_type_invariant(self);
        }
        self.bit_width
    }

    /// The `n` for which the type is `2^(2^n)`, if there is one.
    pub fn word_exponent(&self) -> (res: Option<usize>)
        ensures
            match res {
                Some(n) => self@ == Ty::word(n as nat) && self@.word_exponent() == Some(n as nat),
                None => self@.word_exponent() is None,
            },
    {
        proof {
            use_type_invariant(self);
            if self@.word_exponent() is Some {
                lemma_word_exponent(self@);
            }
        }
        self.word
    }

    /// Check if the type is the unit type.
    pub fn is_unit(&self) -> (res: bool)
        ensures
            res == (self@ is Unit),
    {
        match self.bound {
            CompleteBound::Unit => true,
            _ => false,
        }
    }

    /// Access the parts of a sum type.
    pub fn as_sum(&self) -> (res: Option<(&Arc<Final>, &Arc<Final>)>)
        ensures
            match res {
                Some((left, right)) => self@ == Ty::sum(left@, right@),
                None => !(self@ is Sum),
            },
    {
        match &self.bound {
            CompleteBound::Sum(left, right) => Some((left, right)),
            _ => None,
        }
    }

    /// Access the parts of a product type.
    pub fn as_product(&self) -> (res: Option<(&Arc<Final>, &Arc<Final>)>)
        ensures
            match res {
                Some((left, right)) => self@ == Ty::product(left@, right@),
                None => !(self@ is Product),
            },
    {
        match &self.bound {
            CompleteBound::Product(left, right) => Some((left, right)),
            _ => None,
        }
    }

    /// Check if two types are the same tree.
    fn same(&self, other: &Final) -> (res: bool)
        ensures
            res == (self@ == other@),
    {
        let mut stack: Vec<(&Final, &Final)> = Vec::new();
        stack.push((self, other));
        assert(stack@[0] == (self, other));
        while stack.len() > 0
            invariant
                (self@ == other@) == all_same(stack@),
            decreases pending_nodes(stack@),
        {
            let ghost before = stack@;
            let (a, b) = stack.pop().unwrap();
            proof {
                assert(before == stack@.push((a, b)));
                lemma_all_same_push(stack@, (a, b));
                lemma_pending_push(stack@, (a, b));
            }
            if let (Some(m), Some(n)) = (a.word_exponent(), b.word_exponent()) {
                if m != n {
                    return false;
                }
            } else {
                match (a.bound(), b.bound()) {
                    (CompleteBound::Unit, CompleteBound::Unit) => {},
                    (CompleteBound::Sum(a1, a2), CompleteBound::Sum(b1, b2)) => {
                        push_parts(&mut stack, a1, b1, a2, b2);
                    },
                    (CompleteBound::Product(a1, a2), CompleteBound::Product(b1, b2)) => {
                        push_parts(&mut stack, a1, b1, a2, b2);
                    },
                    _ => {
                        return false;
                    },
                }
            }
        }
        true
    }

    /// Check if the type is smaller than or equal to the other type.
    pub(crate) fn is_smaller_or_equal(&self, other: &Final) -> (res: bool)
        ensures
            res == self@.le(other@),
    {
        let mut stack: Vec<(&Final, &Final)> = Vec::new();
        stack.push((self, other));
        assert(stack@[0] == (self, other));
        while stack.len() > 0
            invariant
                self@.le(other@) == all_le(stack@),
            decreases pending_nodes(stack@),
        {
            let ghost before = stack@;
            let (a, b) = stack.pop().unwrap();
            proof {
                assert(before == stack@.push((a, b)));
                lemma_all_le_push(stack@, (a, b));
                lemma_pending_push(stack@, (a, b));
            }
            let same_word = match (a.word_exponent(), b.word_exponent()) {
                (Some(m), Some(n)) => m == n,
                _ => false,
            };
            if !same_word {
                match (a.bound(), b.bound()) {
                    (CompleteBound::Unit, _) => {},
                    (CompleteBound::Sum(a1, a2), CompleteBound::Sum(b1, b2)) => {
                        push_parts(&mut stack, a1, b1, a2, b2);
                    },
                    (CompleteBound::Product(a1, a2), CompleteBound::Product(b1, b2)) => {
                        push_parts(&mut stack, a1, b1, a2, b2);
                    },
                    _ => {
                        return false;
                    },
                }
            }
        }
        true
    }
}

/// Compare the left parts and the right parts next.
fn push_parts<'a>(
    stack: &mut Vec<(&'a Final, &'a Final)>,
    a1: &'a Arc<Final>,
    b1: &'a Arc<Final>,
    a2: &'a Arc<Final>,
    b2: &'a Arc<Final>,
)
    ensures
        all_same(final(stack)@) == (all_same(old(stack)@) && a1@ == b1@ && a2@ == b2@),
        all_le(final(stack)@) == (all_le(old(stack)@) && a1@.le(b1@) && a2@.le(b2@)),
        pending_nodes(final(stack)@) == a1@.nodes() + a2@.nodes() + pending_nodes(old(stack)@),
{
    let ghost rest = stack@;
    stack.push((&**a1, &**b1));
    let ghost longer = stack@;
    stack.push((&**a2, &**b2));
    proof {
        lemma_all_same_push(rest, (&**a1, &**b1));
        lemma_all_same_push(longer, (&**a2, &**b2));
        lemma_all_le_push(rest, (&**a1, &**b1));
        lemma_all_le_push(longer, (&**a2, &**b2));
        lemma_pending_push(rest, (&**a1, &**b1));
        lemma_pending_push(longer, (&**a2, &**b2));
    }
}

impl Clone for Final {
    fn clone(&self) -> (res: Self)
        ensures
            res@ == self@,
    {
        proof {
            use_type_invariant(self);
        }
        let bound = match &self.bound {
            CompleteBound::Unit => CompleteBound::Unit,
            CompleteBound::Sum(left, right) => CompleteBound::Sum(
                Arc::clone(left),
                Arc::clone(right),
            ),
            CompleteBound::Product(left, right) => CompleteBound::Product(
                Arc::clone(left),
                Arc::clone(right),
            ),
        };
        Final { bound, bit_width: self.bit_width, word: self.word }
    }
}

impl PartialEq for Final {
    fn eq(&self, other: &Self) -> (res: bool) {
        self.same(other)
    }
}

impl vstd::std_specs::cmp::PartialEqSpecImpl for Final {
    open spec fn obeys_eq_spec() -> bool {
        true
    }

    /// Types are equal when their trees are.
    open spec fn eq_spec(&self, other: &Self) -> bool {
        self@ == other@
    }
}

impl Eq for Final {

}

/// Both types of every pair are the same.
spec fn all_same(pairs: Seq<(&Final, &Final)>) -> bool {
    forall|i: int| 0 <= i < pairs.len() ==> (#[trigger] pairs[i]).0@ == pairs[i].1@
}

/// The first type of every pair is smaller than or equal to the second.
spec fn all_le(pairs: Seq<(&Final, &Final)>) -> bool {
    forall|i: int| 0 <= i < pairs.len() ==> (#[trigger] pairs[i]).0@.le(pairs[i].1@)
}

/// The nodes that are left to visit.
spec fn pending_nodes(pairs: Seq<(&Final, &Final)>) -> nat
    decreases pairs.len(),
{
    if pairs.len() == 0 {
        0
    } else {
        pairs.last().0@.nodes() + pending_nodes(pairs.drop_last())
    }
}

proof fn lemma_all_same_push(pairs: Seq<(&Final, &Final)>, pair: (&Final, &Final))
    ensures
        all_same(pairs.push(pair)) == (all_same(pairs) && pair.0@ == pair.1@),
{
    let longer = pairs.push(pair);
    assert(longer[pairs.len() as int] == pair);
    assert(forall|i: int| 0 <= i < pairs.len() ==> #[trigger] pairs[i] == longer[i]);
}

proof fn lemma_all_le_push(pairs: Seq<(&Final, &Final)>, pair: (&Final, &Final))
    ensures
        all_le(pairs.push(pair)) == (all_le(pairs) && pair.0@.le(pair.1@)),
{
    let longer = pairs.push(pair);
    assert(longer[pairs.len() as int] == pair);
    assert(forall|i: int| 0 <= i < pairs.len() ==> #[trigger] pairs[i] == longer[i]);
}

proof fn lemma_pending_push(pairs: Seq<(&Final, &Final)>, pair: (&Final, &Final))
    ensures
        pending_nodes(pairs.push(pair)) == pair.0@.nodes() + pending_nodes(pairs),
{
    assert(pairs.push(pair).drop_last() =~= pairs);
}

} // verus!
