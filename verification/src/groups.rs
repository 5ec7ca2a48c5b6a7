//! The combinable contract: an identity element and an associative binary
//! combination over a value type, with a fold over ordered slices.

use std::cmp::Ordering;

use vstd::prelude::*;

verus! {

/// The model of folding a sequence left to right with a binary operator,
/// starting from `id`: `op(op(op(id, ms[0]), ms[1]), ...)`.
pub open spec fn fold_model<M>(ms: Seq<M>, id: M, op: spec_fn(M, M) -> M) -> M
    decreases ms.len(),
{
    if ms.len() == 0 {
        id
    } else {
        op(fold_model(ms.drop_last(), id, op), ms.last())
    }
}

/// Folding any sequence made only of the values `id`, whatever its length,
/// yields `id` again, provided `id` absorbs itself under `op`.
pub proof fn lemma_fold_identities<M>(ms: Seq<M>, id: M, op: spec_fn(M, M) -> M)
    requires
        op(id, id) == id,
        forall|i: int| 0 <= i < ms.len() ==> ms[i] == id,
    ensures
        fold_model(ms, id, op) == id,
    decreases ms.len(),
{
    if ms.len() > 0 {
        lemma_fold_identities(ms.drop_last(), id, op);
    }
}

/// A value type with an identity element and an associative combination.
///
/// Each implementation states its mathematical model through the `Model`
/// associated type and the `model` spec function, and must prove the two
/// monoid laws over that model:
/// 1. identity: `associate(a, identity_value()) == associate(identity_value(), a) == a`;
/// 2. associativity: `associate(associate(a, b), c) == associate(a, associate(b, c))`.
pub trait Monoid: Sized {
    /// The mathematical value an element of the type stands for.
    type Model;

    /// Maps an element to its mathematical model.
    spec fn model(self) -> Self::Model;

    /// The model of the identity element.
    spec fn identity_model() -> Self::Model;

    /// The combination, stated over models.
    spec fn associate_model(a: Self::Model, b: Self::Model) -> Self::Model;

    /// The identity law: combining with the identity on either side
    /// changes nothing.
    proof fn lemma_monoid_identity(a: Self::Model)
        ensures
            Self::associate_model(a, Self::identity_model()) == a,
            Self::associate_model(Self::identity_model(), a) == a,
    ;

    /// The associativity law: the grouping of combinations does not matter.
    proof fn lemma_monoid_associative(a: Self::Model, b: Self::Model, c: Self::Model)
        ensures
            Self::associate_model(Self::associate_model(a, b), c) == Self::associate_model(
                a,
                Self::associate_model(b, c),
            ),
    ;

    /// Returns the identity element of the type.
    fn identity_value() -> (r: Self)
        ensures
            r.model() == Self::identity_model(),
    ;

    /// Returns a fresh element with the same model, so that combining can
    /// revisit an element without consuming it.
    fn duplicate(&self) -> (r: Self)
        ensures
            r.model() == self.model(),
    ;

    /// The associative binary combination.
    fn associate(self, other: &Self) -> (r: Self)
        ensures
            r.model() == Self::associate_model(self.model(), other.model()),
    ;

    /// Folds a slice left to right with `associate`, starting from
    /// `identity_value`, so `mfold(&[])` is the identity element.
    fn mfold(xs: &[Self]) -> (r: Self)
        ensures
            r.model() == fold_model(
                xs@.map_values(|x: Self| x.model()),
                Self::identity_model(),
                |a: Self::Model, b: Self::Model| Self::associate_model(a, b),
            ),
    {
        let mut acc = Self::identity_value();
        let n = xs.len();
        let mut i: usize = 0;
        while i < n
            invariant
                n == xs@.len(),
                i <= n,
                acc.model() == fold_model(
                    xs@.take(i as int).map_values(|x: Self| x.model()),
                    Self::identity_model(),
                    |a: Self::Model, b: Self::Model| Self::associate_model(a, b),
                ),
            decreases n - i,
        {
            let ghost pre_model = acc.model();
            acc = acc.associate(&xs[i]);
            proof {
                let op = |a: Self::Model, b: Self::Model| Self::associate_model(a, b);
                let pre = xs@.take(i as int).map_values(|x: Self| x.model());
                let post = xs@.take(i + 1).map_values(|x: Self| x.model());
                assert(acc.model() == Self::associate_model(pre_model, xs@[i as int].model()));
                assert(post.drop_last() =~= pre);
                assert(post.last() == xs@[i as int].model());
                assert(fold_model(post, Self::identity_model(), op) == op(
                    fold_model(pre, Self::identity_model(), op),
                    post.last(),
                ));
            }
            i = i + 1;
        }
        proof {
            let ms = xs@.map_values(|x: Self| x.model());
            assert(xs@.take(n as int).map_values(|x: Self| x.model()) =~= ms);
        }
        acc
    }
}

impl Monoid for () {
    type Model = ();

    open spec fn model(self) -> () {
        ()
    }

    open spec fn identity_model() -> () {
        ()
    }

    open spec fn associate_model(a: (), b: ()) -> () {
        ()
    }

    proof fn lemma_monoid_identity(a: ()) {
    }

    proof fn lemma_monoid_associative(a: (), b: (), c: ()) {
    }

    fn identity_value() -> (r: Self) {
    }

    fn duplicate(&self) -> (r: Self) {
    }

    fn associate(self, other: &Self) -> (r: Self) {
    }
}

impl Monoid for Ordering {
    type Model = Ordering;

    open spec fn model(self) -> Ordering {
        self
    }

    open spec fn identity_model() -> Ordering {
        Ordering::Equal
    }

    open spec fn associate_model(a: Ordering, b: Ordering) -> Ordering {
        match a {
            Ordering::Less => Ordering::Less,
            Ordering::Equal => b,
            Ordering::Greater => Ordering::Greater,
        }
    }

    proof fn lemma_monoid_identity(a: Ordering) {
    }

    proof fn lemma_monoid_associative(a: Ordering, b: Ordering, c: Ordering) {
    }

    fn identity_value() -> (r: Self)
        ensures
            r == Ordering::Equal,
    {
        Ordering::Equal
    }

    fn duplicate(&self) -> (r: Self)
        ensures
            r == *self,
    {
        match self {
            Ordering::Less => Ordering::Less,
            Ordering::Equal => Ordering::Equal,
            Ordering::Greater => Ordering::Greater,
        }
    }

    fn associate(self, other: &Self) -> (r: Self)
        ensures
            r == Self::associate_model(self, *other),
    {
        match self {
            Ordering::Less => Ordering::Less,
            Ordering::Equal => other.duplicate(),
            Ordering::Greater => Ordering::Greater,
        }
    }
}

/// Folding a slice of identity elements of any length yields the identity
/// element again.
pub proof fn lemma_mfold_identities<T: Monoid>(ms: Seq<T::Model>)
    requires
        forall|i: int| 0 <= i < ms.len() ==> ms[i] == T::identity_model(),
    ensures
        fold_model(
            ms,
            T::identity_model(),
            |a: T::Model, b: T::Model| T::associate_model(a, b),
        ) == T::identity_model(),
{
    T::lemma_monoid_identity(T::identity_model());
    lemma_fold_identities(
        ms,
        T::identity_model(),
        |a: T::Model, b: T::Model| T::associate_model(a, b),
    );
}

} // verus!
