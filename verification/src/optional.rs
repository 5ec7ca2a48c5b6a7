//! The optional-value shape: `Option<T>` holds either one payload or nothing.

use vstd::prelude::*;

use crate::functors::{
    applications_allowed, bind_output, flat_slot_values, lemma_bind_left_identity_law,
    lemma_bind_right_identity_law, lemma_flat_slot_values_empty, lemma_flat_slot_values_singleton,
    lemma_map_composition_law, lemma_map_identity_law, map_output, Applicative, Functor, Monad,
};
use crate::groups::Monoid;
use crate::hkt::{Bind, ForAll, Rebind, ShapeView};

verus! {

impl<T> Bind for Option<T> {
    type Orig = Option<ForAll>;

    type Type1 = T;

    type Type2 = ();
}

impl<A, B> Rebind<A> for Option<B> {
    type Res = Option<A>;
}

impl<T> ShapeView<T> for Option<T> {
    type Frame = ();

    open spec fn slot_values(self) -> Seq<T> {
        match self {
            None => seq![],
            Some(x) => seq![x],
        }
    }

    open spec fn frame(self) -> () {
        ()
    }

    open spec fn neutral_frame() -> () {
        ()
    }
}

impl<T> Functor<T> for Option<T> {
    fn fmap<B, F: Fn(T) -> B>(self, f: F) -> (r: <Self as Rebind<B>>::Res)
        ensures
            match self {
                None => r is None,
                Some(x) => r matches Some(y) && f.ensures((x,), y),
            },
    {
        let ghost c = self;
        match self {
            Some(value) => {
                proof {
                    assert(c.slot_values()[0] == value);
                }
                let y = f(value);
                Some(y)
            },
            None => None,
        }
    }
}

impl<T> Applicative<T> for Option<T> {
    fn pure(value: T) -> (r: Self)
        ensures
            r == Some(value),
    {
        proof {
            let ro: Option<T> = Some(value);
            assert(ro.slot_values() =~= seq![value]);
        }
        Some(value)
    }

    fn lift<B, F: Fn(T) -> B>(self, fs: <Self as Rebind<F>>::Res) -> (r: <Self as Rebind<
        B,
    >>::Res)
        ensures
            match (fs, self) {
                (Some(func), Some(x)) => r matches Some(y) && func.ensures((x,), y),
                _ => r is None,
            },
    {
        let ghost c = self;
        let ghost fc = fs;
        proof {
            assert(applications_allowed(fs, self));
        }
        match fs {
            Some(func) => match self {
                Some(x) => {
                    proof {
                        assert(fc.slot_values()[0] == func);
                        assert(c.slot_values()[0] == x);
                    }
                    let y = func(x);
                    proof {
                        let ro: Option<B> = Some(y);
                        assert(ro.slot_values()[0] == y);
                        assert forall|i: int, j: int|
                            #![trigger fc.slot_values()[i], c.slot_values()[j]]
                            0 <= i < fc.slot_values().len() && 0 <= j < c.slot_values().len()
                                implies fc.slot_values()[i].ensures(
                                (c.slot_values()[j],),
                                ro.slot_values()[i * c.slot_values().len() + j],
                            ) by {
                            assert(i == 0 && j == 0);
                            assert(i * c.slot_values().len() + j == 0) by (nonlinear_arith)
                                requires i == 0 && j == 0;
                        }
                    }
                    Some(y)
                },
                None => None,
            },
            None => None,
        }
    }
}

impl<T> Monad<T> for Option<T> {
    fn bind<B, F: Fn(T) -> <Self as Rebind<B>>::Res>(self, f: F) -> (r: <Self as Rebind<
        B,
    >>::Res)
        ensures
            match self {
                None => r is None,
                Some(x) => f.ensures((x,), r),
            },
    {
        let ghost c = self;
        match self {
            Some(value) => {
                proof {
                    assert(c.slot_values()[0] == value);
                }
                let out = f(value);
                proof {
                    let outs: Seq<Option<B>> = seq![out];
                    assert(outs.len() == c.slot_values().len());
                    assert(forall|j: int|
                        0 <= j < outs.len() ==> f.ensures((c.slot_values()[j],), #[trigger] outs[j]));
                    lemma_flat_slot_values_singleton::<B, Option<B>>(out);
                    assert(outs =~= seq![out]);
                    assert(out.frame() == outs[0].frame());
                    assert(bind_output::<T, B, F, Option<T>, Option<B>>(c, f, out));
                }
                out
            },
            None => {
                proof {
                    let outs: Seq<Option<B>> = seq![];
                    let rv: Option<B> = None;
                    lemma_flat_slot_values_empty::<B, Option<B>>();
                    assert(outs =~= Seq::<Option<B>>::empty());
                    assert(flat_slot_values::<B, Option<B>>(outs) =~= rv.slot_values());
                    assert(bind_output::<T, B, F, Option<T>, Option<B>>(c, f, rv));
                }
                None
            },
        }
    }
}

impl<T: Monoid> Monoid for Option<T> {
    type Model = Option<T::Model>;

    open spec fn model(self) -> Option<T::Model> {
        match self {
            None => None,
            Some(x) => Some(x.model()),
        }
    }

    open spec fn identity_model() -> Option<T::Model> {
        None
    }

    open spec fn associate_model(a: Option<T::Model>, b: Option<T::Model>) -> Option<T::Model> {
        match (a, b) {
            (None, y) => y,
            (x, None) => x,
            (Some(x), Some(y)) => Some(T::associate_model(x, y)),
        }
    }

    proof fn lemma_monoid_identity(a: Option<T::Model>) {
    }

    proof fn lemma_monoid_associative(
        a: Option<T::Model>,
        b: Option<T::Model>,
        c: Option<T::Model>,
    ) {
        match (a, b, c) {
            (Some(x), Some(y), Some(z)) => {
                T::lemma_monoid_associative(x, y, z);
            },
            _ => {},
        }
    }

    fn identity_value() -> (r: Self)
        ensures
            r is None,
    {
        None
    }

    fn duplicate(&self) -> (r: Self)
        ensures
            r.model() == self.model(),
    {
        match self {
            None => None,
            Some(x) => Some(x.duplicate()),
        }
    }

    fn associate(self, other: &Self) -> (r: Self)
        ensures
            r.model() == Self::associate_model(self.model(), other.model()),
    {
        match self {
            None => other.duplicate(),
            Some(x) => match other {
                None => Some(x),
                Some(y) => Some(x.associate(y)),
            },
        }
    }
}

/// An optional container is determined by its slot values: none for absent,
/// exactly one for present.
pub proof fn lemma_option_view_injective<T>(a: Option<T>, b: Option<T>)
    requires
        a.slot_values() == b.slot_values(),
    ensures
        a == b,
{
    assert(a.slot_values().len() == b.slot_values().len());
    match (a, b) {
        (Some(x), Some(y)) => {
            assert(a.slot_values() =~= seq![x]);
            assert(b.slot_values() =~= seq![y]);
            assert(a.slot_values()[0] == x);
            assert(b.slot_values()[0] == y);
            assert(x == y);
        },
        (None, None) => {},
        (Some(x), None) => {
            assert(a.slot_values() =~= seq![x]);
            assert(b.slot_values() =~= Seq::<T>::empty());
        },
        (None, Some(y)) => {
            assert(b.slot_values() =~= seq![y]);
            assert(a.slot_values() =~= Seq::<T>::empty());
        },
    }
}

/// The mappable identity law at the optional shape: mapping with a function
/// that can only hand its argument back returns the container unchanged.
pub proof fn lemma_option_fmap_identity<T, F: Fn(T) -> T>(c: Option<T>, f: F, r: Option<T>)
    requires
        map_output(c, f, r),
        forall|x: T, y: T| f.ensures((x,), y) ==> y == x,
    ensures
        r == c,
{
    lemma_map_identity_law(c, f, r);
    lemma_option_view_injective(r, c);
}

/// The mappable composition law at the optional shape: for pure functions,
/// mapping with `g` and then with `f` equals mapping once with `f` after `g`.
pub proof fn lemma_option_fmap_composition<A, B, C, G: Fn(A) -> B, F: Fn(B) -> C, H: Fn(A) -> C>(
    c: Option<A>,
    g: G,
    f: F,
    h: H,
    r1: Option<B>,
    r2: Option<C>,
    r3: Option<C>,
    gs: spec_fn(A) -> B,
    fs: spec_fn(B) -> C,
)
    requires
        forall|x: A, y: B| g.ensures((x,), y) ==> y == gs(x),
        forall|x: B, y: C| f.ensures((x,), y) ==> y == fs(x),
        forall|x: A, y: C| h.ensures((x,), y) ==> y == fs(gs(x)),
        map_output(c, g, r1),
        map_output(r1, f, r2),
        map_output(c, h, r3),
    ensures
        r2 == r3,
{
    lemma_map_composition_law(c, g, f, h, r1, r2, r3, gs, fs);
    lemma_option_view_injective(r2, r3);
}

/// The sequential right-identity law at the optional shape: chaining with a
/// function that can only embed its argument returns the container unchanged.
pub proof fn lemma_option_bind_pure<T, F: Fn(T) -> Option<T>>(c: Option<T>, f: F, r: Option<T>)
    requires
        bind_output(c, f, r),
        forall|x: T, o: Option<T>| #[trigger] f.ensures((x,), o) ==> o == Some(x),
    ensures
        r == c,
{
    assert forall|x: T, o: Option<T>| #[trigger] f.ensures((x,), o) implies o.slot_values()
        == seq![x] && o.frame() == <Option<T> as ShapeView<T>>::neutral_frame() by {
        assert(o == Some(x));
        assert(o.slot_values() =~= seq![x]);
    }
    lemma_bind_right_identity_law(c, f, r);
    lemma_option_view_injective(r, c);
}

/// The sequential left-identity law at the optional shape: chaining an
/// embedded value through `f` returns a possible result of `f` on it.
pub proof fn lemma_option_pure_bind<T, B, F: Fn(T) -> Option<B>>(v: T, f: F, r: Option<B>)
    requires
        bind_output(Some(v), f, r),
    ensures
        f.ensures((v,), r),
{
    let c: Option<T> = Some(v);
    assert(c.slot_values() =~= seq![v]);
    lemma_bind_left_identity_law(c, f, r, v);
    let o = choose|o: Option<B>|
        {
            &&& #[trigger] f.ensures((v,), o)
            &&& r.slot_values() == o.slot_values()
            &&& r.frame() == o.frame()
        };
    lemma_option_view_injective(r, o);
}

} // verus!
