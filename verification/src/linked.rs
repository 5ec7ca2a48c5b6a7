//! The linked-sequence shape: `VecDeque<T>` holds any number of values in
//! order, duplicates allowed, in storage with cheap appends at both ends.
//! Its observable contract is the same as the ordered sequence's.

use std::collections::VecDeque;

use vstd::prelude::*;

use crate::functors::{
    applications_allowed, bind_output, flat_slot_values, lemma_bind_left_identity_law,
    lemma_bind_right_identity_law, lemma_flat_slot_values_empty, lemma_flat_slot_values_push,
    lemma_map_composition_law, lemma_map_identity_law, map_output, Applicative, Functor, Monad,
};
use crate::groups::Monoid;
use crate::hkt::{Bind, ForAll, Rebind, ShapeView};

verus! {

impl<T> Bind for VecDeque<T> {
    type Orig = VecDeque<ForAll>;

    type Type1 = T;

    type Type2 = ();
}

impl<A, T> Rebind<A> for VecDeque<T> {
    type Res = VecDeque<A>;
}

impl<T> ShapeView<T> for VecDeque<T> {
    type Frame = ();

    open spec fn slot_values(self) -> Seq<T> {
        self@
    }

    open spec fn frame(self) -> () {
        ()
    }

    open spec fn neutral_frame() -> () {
        ()
    }
}

impl<T> Functor<T> for VecDeque<T> {
    fn fmap<B, F: Fn(T) -> B>(self, f: F) -> (r: <Self as Rebind<B>>::Res)
        ensures
            r@.len() == self@.len(),
            forall|i: int| 0 <= i < self@.len() ==> f.ensures((self@[i],), #[trigger] r@[i]),
    {
        let ghost c = self;
        let mut rest = self;
        let mut out: VecDeque<B> = VecDeque::new();
        while rest.len() > 0
            invariant
                c.slot_values().len() == out@.len() + rest@.len(),
                rest@ == c.slot_values().skip(out@.len() as int),
                forall|i: int|
                    0 <= i < c.slot_values().len() ==> f.requires((#[trigger] c.slot_values()[i],)),
                forall|i: int|
                    0 <= i < out@.len() ==> f.ensures((c.slot_values()[i],), #[trigger] out@[i]),
            decreases rest@.len(),
        {
            let ghost done = out@.len() as int;
            let x = rest.pop_front().unwrap();
            proof {
                assert(x == c.slot_values()[done]);
                assert(rest@ =~= c.slot_values().skip(done + 1));
            }
            let y = f(x);
            out.push_back(y);
        }
        out
    }
}

impl<T: Copy> Applicative<T> for VecDeque<T> {
    fn pure(value: T) -> (r: Self)
        ensures
            r@ == seq![value],
    {
        let mut v: VecDeque<T> = VecDeque::new();
        v.push_back(value);
        proof {
            assert(v@ =~= seq![value]);
        }
        v
    }

    fn lift<B, F: Fn(T) -> B>(self, fs: <Self as Rebind<F>>::Res) -> (r: <Self as Rebind<
        B,
    >>::Res)
        ensures
            r@.len() == fs@.len() * self@.len(),
            forall|i: int, j: int|
                #![trigger fs@[i], self@[j]]
                0 <= i < fs@.len() && 0 <= j < self@.len() ==> fs@[i].ensures(
                    (self@[j],),
                    r@[i * self@.len() + j],
                ),
    {
        let ghost c = self;
        let ghost fc = fs;
        proof {
            assert(applications_allowed(fs, self));
        }
        let vals = self;
        let mut fs_rem = fs;
        let mut out: VecDeque<B> = VecDeque::new();
        while fs_rem.len() > 0
            invariant
                vals@ == c.slot_values(),
                applications_allowed(fc, c),
                fs_rem@.len() <= fc.slot_values().len(),
                fs_rem@ == fc.slot_values().skip(fc.slot_values().len() - fs_rem@.len()),
                out@.len() == (fc.slot_values().len() - fs_rem@.len()) * c.slot_values().len(),
                forall|a: int, b: int|
                    #![trigger fc.slot_values()[a], c.slot_values()[b]]
                    0 <= a < fc.slot_values().len() - fs_rem@.len() && 0 <= b
                        < c.slot_values().len() ==> fc.slot_values()[a].ensures(
                        (c.slot_values()[b],),
                        out@[a * c.slot_values().len() + b],
                    ),
            decreases fs_rem@.len(),
        {
            let ghost m = fc.slot_values().len() as int;
            let ghost i = m - fs_rem@.len();
            let func = fs_rem.pop_front().unwrap();
            proof {
                assert(func == fc.slot_values()[i]);
                assert(fs_rem@ =~= fc.slot_values().skip(i + 1));
            }
            let mut j: usize = 0;
            while j < vals.len()
                invariant
                    vals@ == c.slot_values(),
                    applications_allowed(fc, c),
                    0 <= i < fc.slot_values().len(),
                    func == fc.slot_values()[i],
                    j <= vals@.len(),
                    out@.len() == i * c.slot_values().len() + j,
                    forall|a: int, b: int|
                        #![trigger fc.slot_values()[a], c.slot_values()[b]]
                        0 <= a < i && 0 <= b < c.slot_values().len()
                            ==> fc.slot_values()[a].ensures(
                            (c.slot_values()[b],),
                            out@[a * c.slot_values().len() + b],
                        ),
                    forall|b: int|
                        0 <= b < j ==> fc.slot_values()[i].ensures(
                            (#[trigger] c.slot_values()[b],),
                            out@[i * c.slot_values().len() + b],
                        ),
                decreases vals@.len() - j,
            {
                let x = vals[j];
                let y = func(x);
                out.push_back(y);
                proof {
                    let n = c.slot_values().len() as int;
                    assert forall|a: int, b: int|
                        #![trigger fc.slot_values()[a], c.slot_values()[b]]
                        0 <= a < i && 0 <= b < n implies fc.slot_values()[a].ensures(
                        (c.slot_values()[b],),
                        out@[a * n + b],
                    ) by {
                        assert((a + 1) * n == a * n + n) by (nonlinear_arith);
                        assert((a + 1) * n <= i * n) by (nonlinear_arith)
                            requires
                                a + 1 <= i && n >= 0,
                        ;
                    }
                }
                j = j + 1;
            }
            proof {
                let n = c.slot_values().len() as int;
                assert(i * n + n == (i + 1) * n) by (nonlinear_arith);
            }
        }
        proof {
            let m = fc.slot_values().len() as int;
            let n = c.slot_values().len() as int;
            assert(out@.len() == m * n);
            assert forall|a: int, b: int|
                #![trigger fc.slot_values()[a], c.slot_values()[b]]
                0 <= a < fc.slot_values().len() && 0 <= b < c.slot_values().len()
                    implies fc.slot_values()[a].ensures(
                (c.slot_values()[b],),
                out@[a * c.slot_values().len() + b],
            ) by {
                assert(fc.slot_values().len() - 0 == fc.slot_values().len());
            }
        }
        out
    }
}

impl<T: Copy> Monad<T> for VecDeque<T> {
    fn bind<B, F: Fn(T) -> <Self as Rebind<B>>::Res>(self, f: F) -> (r: <Self as Rebind<
        B,
    >>::Res)
        ensures
            bind_output(self, f, r),
    {
        let ghost c = self;
        let mut rest = self;
        let mut out: VecDeque<B> = VecDeque::new();
        let ghost mut outs: Seq<VecDeque<B>> = Seq::empty();
        proof {
            lemma_flat_slot_values_empty::<B, VecDeque<B>>();
        }
        while rest.len() > 0
            invariant
                c.slot_values().len() == outs.len() + rest@.len(),
                rest@ == c.slot_values().skip(outs.len() as int),
                forall|i: int|
                    0 <= i < c.slot_values().len() ==> f.requires((#[trigger] c.slot_values()[i],)),
                forall|j: int|
                    0 <= j < outs.len() ==> f.ensures((c.slot_values()[j],), #[trigger] outs[j]),
                out@ == flat_slot_values(outs),
            decreases rest@.len(),
        {
            let ghost done = outs.len() as int;
            let x = rest.pop_front().unwrap();
            proof {
                assert(x == c.slot_values()[done]);
                assert(rest@ =~= c.slot_values().skip(done + 1));
            }
            let mut ys = f(x);
            proof {
                lemma_flat_slot_values_push(outs, ys);
                outs = outs.push(ys);
            }
            out.append(&mut ys);
        }
        proof {
            assert(bind_output::<T, B, F, VecDeque<T>, VecDeque<B>>(c, f, out));
        }
        out
    }
}

impl<T: Copy> Monoid for VecDeque<T> {
    type Model = Seq<T>;

    open spec fn model(self) -> Seq<T> {
        self@
    }

    open spec fn identity_model() -> Seq<T> {
        Seq::empty()
    }

    open spec fn associate_model(a: Seq<T>, b: Seq<T>) -> Seq<T> {
        a + b
    }

    proof fn lemma_monoid_identity(a: Seq<T>) {
        assert(a + Seq::<T>::empty() =~= a);
        assert(Seq::<T>::empty() + a =~= a);
    }

    proof fn lemma_monoid_associative(a: Seq<T>, b: Seq<T>, c: Seq<T>) {
        assert((a + b) + c =~= a + (b + c));
    }

    fn identity_value() -> (r: Self)
        ensures
            r@ == Seq::<T>::empty(),
    {
        VecDeque::new()
    }

    fn duplicate(&self) -> (r: Self)
        ensures
            r@ == self@,
    {
        let mut out: VecDeque<T> = VecDeque::new();
        let mut i: usize = 0;
        while i < self.len()
            invariant
                i <= self@.len(),
                out@ == self@.take(i as int),
            decreases self@.len() - i,
        {
            out.push_back(self[i]);
            proof {
                assert(out@ =~= self@.take(i + 1));
            }
            i = i + 1;
        }
        proof {
            assert(self@.take(self@.len() as int) =~= self@);
        }
        out
    }

    fn associate(self, other: &Self) -> (r: Self)
        ensures
            r@ == self@ + other@,
    {
        let mut out = self;
        let ghost left = out@;
        let mut i: usize = 0;
        while i < other.len()
            invariant
                i <= other@.len(),
                out@ == left + other@.take(i as int),
            decreases other@.len() - i,
        {
            out.push_back(other[i]);
            proof {
                assert(out@ =~= left + other@.take(i + 1));
            }
            i = i + 1;
        }
        proof {
            assert(left + other@.take(other@.len() as int) =~= left + other@);
        }
        out
    }
}

/// The mappable identity law at the linked-sequence shape: mapping with a function
/// that can only hand its argument back keeps every element in place.
pub proof fn lemma_linked_fmap_identity<T, F: Fn(T) -> T>(c: VecDeque<T>, f: F, r: VecDeque<T>)
    requires
        map_output(c, f, r),
        forall|x: T, y: T| f.ensures((x,), y) ==> y == x,
    ensures
        r@ == c@,
{
    lemma_map_identity_law(c, f, r);
}

/// The mappable composition law at the linked-sequence shape: for pure functions,
/// mapping with `g` and then with `f` equals mapping once with `f` after `g`.
pub proof fn lemma_linked_fmap_composition<A, B, C, G: Fn(A) -> B, F: Fn(B) -> C, H: Fn(A) -> C>(
    c: VecDeque<A>,
    g: G,
    f: F,
    h: H,
    r1: VecDeque<B>,
    r2: VecDeque<C>,
    r3: VecDeque<C>,
    gs: spec_fn(A) -> B,
    fs: spec_fn(B) -> C,
)
    requires
        forall|x: A, y: B| g.ensures((x,), y) ==> y == gs(x),
        forall|x: B, y: C| f.ensures((x,), y) ==> y == fs(x),
        forall|x: A, y: C| h.ensures((x,), y) ==> y == fs(gs(x)),
        map_output(c, g, r1),
        map_output(r1, f, r2),
        map_output(c, h, r3),
    ensures
        r2@ == r3@,
{
    lemma_map_composition_law(c, g, f, h, r1, r2, r3, gs, fs);
}

/// The sequential right-identity law at the linked-sequence shape: chaining with a
/// function that can only embed its argument keeps every element in place.
pub proof fn lemma_linked_bind_pure<T, F: Fn(T) -> VecDeque<T>>(c: VecDeque<T>, f: F, r: VecDeque<T>)
    requires
        bind_output(c, f, r),
        forall|x: T, o: VecDeque<T>| #[trigger] f.ensures((x,), o) ==> o@ == seq![x],
    ensures
        r@ == c@,
{
    assert forall|x: T, o: VecDeque<T>| #[trigger] f.ensures((x,), o) implies o.slot_values()
        == seq![x] && o.frame() == <VecDeque<T> as ShapeView<T>>::neutral_frame() by {
        assert(o@ == seq![x]);
    }
    lemma_bind_right_identity_law(c, f, r);
}

/// The sequential left-identity law at the linked-sequence shape: chaining a
/// one-element container through `f` yields the elements of a possible
/// result of `f` on that element.
pub proof fn lemma_linked_pure_bind<T, B, F: Fn(T) -> VecDeque<B>>(c: VecDeque<T>, f: F, r: VecDeque<B>, x: T)
    requires
        bind_output(c, f, r),
        c@ == seq![x],
    ensures
        exists|o: VecDeque<B>| #[trigger] f.ensures((x,), o) && r@ == o@,
{
    lemma_bind_left_identity_law(c, f, r, x);
    let o = choose|o: VecDeque<B>|
        {
            &&& #[trigger] f.ensures((x,), o)
            &&& r.slot_values() == o.slot_values()
            &&& r.frame() == o.frame()
        };
    assert(f.ensures((x,), o) && r@ == o@);
}

} // verus!
