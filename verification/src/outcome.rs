//! The success/failure shape: `Result<T, E>` holds either a success payload
//! in its primary slot or a failure payload in its fixed secondary slot.

use vstd::prelude::*;

use crate::functors::{
    applications_allowed, bind_output, flat_slot_values, lemma_bind_left_identity_law,
    lemma_bind_right_identity_law, lemma_flat_slot_values_empty, lemma_flat_slot_values_singleton,
    lemma_map_composition_law, lemma_map_identity_law, map_output, Applicative, Functor, Monad,
};
use crate::hkt::{Bind, ForAll, Rebind, ShapeView};

verus! {

impl<T, E> Bind for Result<T, E> {
    type Orig = Result<ForAll, ForAll>;

    type Type1 = T;

    type Type2 = E;
}

impl<T, E, A> Rebind<A> for Result<T, E> {
    type Res = Result<A, E>;
}

impl<T, E> ShapeView<T> for Result<T, E> {
    type Frame = Option<E>;

    open spec fn slot_values(self) -> Seq<T> {
        match self {
            Ok(x) => seq![x],
            Err(_) => seq![],
        }
    }

    open spec fn frame(self) -> Option<E> {
        match self {
            Ok(_) => None,
            Err(e) => Some(e),
        }
    }

    open spec fn neutral_frame() -> Option<E> {
        None
    }
}

impl<T, E> Functor<T> for Result<T, E> {
    fn fmap<B, F: Fn(T) -> B>(self, f: F) -> (r: <Self as Rebind<B>>::Res)
        ensures
            match self {
                Ok(x) => r matches Ok(y) && f.ensures((x,), y),
                Err(e) => r == Err::<B, E>(e),
            },
    {
        let ghost c = self;
        match self {
            Ok(value) => {
                proof {
                    assert(c.slot_values()[0] == value);
                }
                let y = f(value);
                Ok(y)
            },
            Err(err) => Err(err),
        }
    }
}

impl<T, E> Applicative<T> for Result<T, E> {
    fn pure(value: T) -> (r: Self)
        ensures
            r == Ok::<T, E>(value),
    {
        proof {
            let ro: Result<T, E> = Ok(value);
            assert(ro.slot_values() =~= seq![value]);
        }
        Ok(value)
    }

    fn lift<B, F: Fn(T) -> B>(self, fs: <Self as Rebind<F>>::Res) -> (r: <Self as Rebind<
        B,
    >>::Res)
        ensures
            match fs {
                Err(e) => r == Err::<B, E>(e),
                Ok(func) => match self {
                    Err(e) => r == Err::<B, E>(e),
                    Ok(x) => r matches Ok(y) && func.ensures((x,), y),
                },
            },
    {
        let ghost c = self;
        let ghost fc = fs;
        proof {
            assert(applications_allowed(fs, self));
        }
        match fs {
            Ok(func) => match self {
                Ok(x) => {
                    proof {
                        assert(fc.slot_values()[0] == func);
                        assert(c.slot_values()[0] == x);
                    }
                    let y = func(x);
                    proof {
                        let ro: Result<B, E> = Ok(y);
                        assert(ro.slot_values()[0] == y);
                        assert forall|i: int, j: int|
                            #![trigger fc.slot_values()[i], c.slot_values()[j]]
                            0 <= i < fc.slot_values().len() && 0 <= j < c.slot_values().len()
                                implies fc.slot_values()[i].ensures(
                            (c.slot_values()[j],),
                            ro.slot_values()[i * c.slot_values().len() + j],
                        ) by {
                            assert(i == 0 && j == 0);
                            assert(i * c.slot_values().len() + j == 0) by (nonlinear_arith)
                                requires
                                    i == 0 && j == 0,
                            ;
                        }
                    }
                    Ok(y)
                },
                Err(e) => Err(e),
            },
            Err(e) => Err(e),
        }
    }
}

impl<T, E> Monad<T> for Result<T, E> {
    fn bind<B, F: Fn(T) -> <Self as Rebind<B>>::Res>(self, f: F) -> (r: <Self as Rebind<
        B,
    >>::Res)
        ensures
            match self {
                Ok(x) => f.ensures((x,), r),
                Err(e) => r == Err::<B, E>(e),
            },
    {
        let ghost c = self;
        match self {
            Ok(value) => {
                proof {
                    assert(c.slot_values()[0] == value);
                }
                let out = f(value);
                proof {
                    let outs: Seq<Result<B, E>> = seq![out];
                    assert(outs.len() == c.slot_values().len());
                    assert(forall|j: int|
                        0 <= j < outs.len() ==> f.ensures((c.slot_values()[j],), #[trigger] outs[j]));
                    lemma_flat_slot_values_singleton::<B, Result<B, E>>(out);
                    assert(outs =~= seq![out]);
                    assert(bind_output::<T, B, F, Result<T, E>, Result<B, E>>(c, f, out));
                }
                out
            },
            Err(err) => {
                let r: <Self as Rebind<B>>::Res = Err(err);
                proof {
                    let outs: Seq<Result<B, E>> = seq![];
                    lemma_flat_slot_values_empty::<B, Result<B, E>>();
                    assert(outs =~= Seq::<Result<B, E>>::empty());
                    assert(r.slot_values() =~= flat_slot_values(outs));
                    assert(bind_output::<T, B, F, Result<T, E>, Result<B, E>>(c, f, r));
                }
                r
            },
        }
    }
}

/// An outcome container is determined by its slot values and its frame:
/// one value and no failure for a success, no value and a failure payload
/// for a failure.
pub proof fn lemma_result_view_injective<T, E>(a: Result<T, E>, b: Result<T, E>)
    requires
        a.slot_values() == b.slot_values(),
        a.frame() == b.frame(),
    ensures
        a == b,
{
    assert(a.slot_values().len() == b.slot_values().len());
    match (a, b) {
        (Ok(x), Ok(y)) => {
            assert(a.slot_values() =~= seq![x]);
            assert(b.slot_values() =~= seq![y]);
            assert(a.slot_values()[0] == x);
            assert(b.slot_values()[0] == y);
            assert(x == y);
        },
        (Err(e1), Err(e2)) => {
            assert(a.frame() == Some(e1));
            assert(b.frame() == Some(e2));
        },
        (Ok(x), Err(_)) => {
            assert(a.slot_values() =~= seq![x]);
            assert(b.slot_values() =~= Seq::<T>::empty());
        },
        (Err(_), Ok(y)) => {
            assert(b.slot_values() =~= seq![y]);
            assert(a.slot_values() =~= Seq::<T>::empty());
        },
    }
}

/// The mappable identity law at the outcome shape: mapping with a function
/// that can only hand its argument back returns the container unchanged.
pub proof fn lemma_result_fmap_identity<T, E, F: Fn(T) -> T>(
    c: Result<T, E>,
    f: F,
    r: Result<T, E>,
)
    requires
        map_output(c, f, r),
        forall|x: T, y: T| f.ensures((x,), y) ==> y == x,
    ensures
        r == c,
{
    lemma_map_identity_law(c, f, r);
    lemma_result_view_injective(r, c);
}

/// The mappable composition law at the outcome shape: for pure functions,
/// mapping with `g` and then with `f` equals mapping once with `f` after `g`.
pub proof fn lemma_result_fmap_composition<
    A,
    B,
    C,
    E,
    G: Fn(A) -> B,
    F: Fn(B) -> C,
    H: Fn(A) -> C,
>(
    c: Result<A, E>,
    g: G,
    f: F,
    h: H,
    r1: Result<B, E>,
    r2: Result<C, E>,
    r3: Result<C, E>,
    gs: spec_fn(A) -> B,
    fs: spec_fn(B) -> C,
)
    requires
        forall|x: A, y: B| g.ensures((x,), y) ==> y == gs(x),
        forall|x: B, y: C| f.ensures((x,), y) ==> y == fs(x),
        forall|x: A, y: C| h.ensures((x,), y) ==> y == fs(gs(x)),
        map_output(c, g, r1),
        map_output(r1, f, r2),
        map_output(c, h, r3),
    ensures
        r2 == r3,
{
    lemma_map_composition_law(c, g, f, h, r1, r2, r3, gs, fs);
    lemma_result_view_injective(r2, r3);
}

/// The sequential right-identity law at the outcome shape: chaining with a
/// function that can only embed its argument returns the container unchanged.
pub proof fn lemma_result_bind_pure<T, E, F: Fn(T) -> Result<T, E>>(
    c: Result<T, E>,
    f: F,
    r: Result<T, E>,
)
    requires
        bind_output(c, f, r),
        forall|x: T, o: Result<T, E>| #[trigger] f.ensures((x,), o) ==> o == Ok::<T, E>(x),
    ensures
        r == c,
{
    assert forall|x: T, o: Result<T, E>| #[trigger] f.ensures((x,), o) implies o.slot_values()
        == seq![x] && o.frame() == <Result<T, E> as ShapeView<T>>::neutral_frame() by {
        assert(o == Ok::<T, E>(x));
        assert(o.slot_values() =~= seq![x]);
    }
    lemma_bind_right_identity_law(c, f, r);
    match c {
        Ok(_) => {
            assert(c.frame() == <Result<T, E> as ShapeView<T>>::neutral_frame());
        },
        Err(_) => {},
    }
    lemma_result_view_injective(r, c);
}

/// The sequential left-identity law at the outcome shape: chaining an
/// embedded value through `f` returns a possible result of `f` on it.
pub proof fn lemma_result_pure_bind<T, E, B, F: Fn(T) -> Result<B, E>>(
    v: T,
    f: F,
    r: Result<B, E>,
)
    requires
        bind_output(Ok(v), f, r),
    ensures
        f.ensures((v,), r),
{
    let c: Result<T, E> = Ok(v);
    assert(c.slot_values() =~= seq![v]);
    lemma_bind_left_identity_law(c, f, r, v);
    let o = choose|o: Result<B, E>|
        {
            &&& #[trigger] f.ensures((v,), o)
            &&& r.slot_values() == o.slot_values()
            &&& r.frame() == o.frame()
        };
    lemma_result_view_injective(r, o);
}

} // verus!
