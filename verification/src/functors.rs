//! The mappable, applicative and sequential contracts over container shapes.
//!
//! Each contract is stated once, over the [`ShapeView`] of the containers
//! involved: the ordered slot values and the frame (the structure outside the
//! primary slot) determine a container value, so the single statement pins
//! each shape's behaviour exactly. The algebraic laws the operations satisfy
//! are stated and proved here over the views, once for every shape; each
//! shape's module restates them in its own vocabulary.

use vstd::prelude::*;

use crate::hkt::{Bind, Rebind, ShapeView};

verus! {

/// Every function held by `fs` accepts every value held by `vs`.
pub open spec fn applications_allowed<T, B, F: Fn(T) -> B, FC: ShapeView<F>, VC: ShapeView<T>>(
    fs: FC,
    vs: VC,
) -> bool {
    forall|i: int, j: int|
        #![trigger fs.slot_values()[i], vs.slot_values()[j]]
        0 <= i < fs.slot_values().len() && 0 <= j < vs.slot_values().len()
            ==> fs.slot_values()[i].requires((vs.slot_values()[j],))
}

/// The concatenation of the slot values of a sequence of containers,
/// in order.
pub open spec fn flat_slot_values<B, OC: ShapeView<B>>(outs: Seq<OC>) -> Seq<B>
    decreases outs.len(),
{
    if outs.len() == 0 {
        Seq::empty()
    } else {
        outs.first().slot_values() + flat_slot_values(outs.drop_first())
    }
}

/// Concatenating no containers yields no slot values.
pub proof fn lemma_flat_slot_values_empty<B, OC: ShapeView<B>>()
    ensures
        flat_slot_values(Seq::<OC>::empty()) == Seq::<B>::empty(),
{
}

/// Concatenating a single container yields exactly its slot values.
pub proof fn lemma_flat_slot_values_singleton<B, OC: ShapeView<B>>(o: OC)
    ensures
        flat_slot_values(seq![o]) == o.slot_values(),
{
    let outs = seq![o];
    assert(outs.drop_first() =~= Seq::<OC>::empty());
    assert(flat_slot_values::<B, OC>(outs.drop_first()) =~= Seq::<B>::empty());
    assert(flat_slot_values(outs) =~= o.slot_values());
}

/// Appending one more container appends its slot values at the end.
pub proof fn lemma_flat_slot_values_push<B, OC: ShapeView<B>>(outs: Seq<OC>, o: OC)
    ensures
        flat_slot_values(outs.push(o)) == flat_slot_values(outs) + o.slot_values(),
    decreases outs.len(),
{
    if outs.len() == 0 {
        assert(outs.push(o) =~= seq![o]);
        lemma_flat_slot_values_singleton(o);
        assert(outs =~= Seq::<OC>::empty());
        assert(flat_slot_values(outs) + o.slot_values() =~= o.slot_values());
    } else {
        assert(outs.push(o).drop_first() =~= outs.drop_first().push(o));
        lemma_flat_slot_values_push(outs.drop_first(), o);
        assert(outs.push(o).first() == outs.first());
        assert(flat_slot_values(outs.push(o)) == outs.first().slot_values() + (flat_slot_values(
            outs.drop_first(),
        ) + o.slot_values()));
        assert(outs.first().slot_values() + (flat_slot_values(outs.drop_first())
            + o.slot_values()) =~= (outs.first().slot_values() + flat_slot_values(
            outs.drop_first(),
        )) + o.slot_values());
    }
}

/// How `fmap` relates its result `r` to the input container `vs` and the
/// mapping function `f`: the same number of slot values, each a possible
/// output of `f` on the value at the same position, and the frame unchanged.
pub open spec fn map_output<T, B, F: Fn(T) -> B, VC: ShapeView<T>, OC>(
    vs: VC,
    f: F,
    r: OC,
) -> bool where OC: ShapeView<B, Frame = <VC as ShapeView<T>>::Frame> {
    &&& r.frame() == vs.frame()
    &&& r.slot_values().len() == vs.slot_values().len()
    &&& forall|i: int|
        0 <= i < vs.slot_values().len() ==> f.ensures(
            (vs.slot_values()[i],),
            #[trigger] r.slot_values()[i],
        )
}

/// How `bind` relates its result `r` to the value container `vs` and the
/// chained function `f`: one output container per slot value, in order, with
/// `r` holding their concatenated slot values. A container holding no value
/// keeps its own frame; otherwise the first output's frame comes through.
pub open spec fn bind_output<T, B, F: Fn(T) -> OC, VC: ShapeView<T>, OC>(
    vs: VC,
    f: F,
    r: OC,
) -> bool where OC: ShapeView<B, Frame = <VC as ShapeView<T>>::Frame> {
    exists|outs: Seq<OC>|
        {
            &&& outs.len() == vs.slot_values().len()
            &&& (forall|j: int|
                0 <= j < outs.len() ==> f.ensures((vs.slot_values()[j],), #[trigger] outs[j]))
            &&& r.slot_values() == flat_slot_values(outs)
            &&& r.frame() == (if vs.slot_values().len() == 0 {
                vs.frame()
            } else {
                outs[0].frame()
            })
        }
}

/// A container shape that can be mapped over: `fmap` transforms every value
/// in the primary slot while preserving all other structure.
///
/// For pure total functions, every shape's `fmap` obeys the identity law
/// `c.fmap(|x| x) == c` and the composition law
/// `c.fmap(|x| f(g(x))) == c.fmap(g).fmap(f)`: both are proved for every
/// shape at once by [`lemma_map_identity_law`] and
/// [`lemma_map_composition_law`].
pub trait Functor<T>: Bind + ShapeView<T> + Rebind<T, Res = Self> + Sized {
    /// Creates a new container of type `B` from a container of type `Self`,
    /// applying `f` once to each value in the primary slot, in order, and
    /// keeping everything outside the slot unchanged.
    fn fmap<B, F: Fn(T) -> B>(self, f: F) -> (r: <Self as Rebind<B>>::Res) where
        Self: Rebind<B>,
        <Self as Rebind<B>>::Res: ShapeView<B, Frame = <Self as ShapeView<T>>::Frame>,

        requires
            forall|i: int|
                #![trigger self.slot_values()[i]]
                0 <= i < self.slot_values().len() ==> f.requires((self.slot_values()[i],)),
        ensures
            map_output(self, f, r),
    ;
}

/// A mappable shape that can also embed bare values and combine a container
/// of functions with a container of values, without sequencing.
///
/// For pure total functions, every shape's operations obey the identity law
/// `v.lift(Self::pure(|x| x)) == v` and the homomorphism law
/// `pure(x).lift(pure(f)) == pure(f(x))`: both are proved for every shape at
/// once by [`lemma_lift_identity_law`] and [`lemma_lift_homomorphism_law`].
pub trait Applicative<T>: Functor<T> {
    /// Wraps an ordinary value into the minimal container of the shape
    /// holding exactly that value.
    fn pure(value: T) -> (r: Self)
        ensures
            r.slot_values() == seq![value],
            r.frame() == Self::neutral_frame(),
    ;

    /// Combines a container of values with a container of functions `fs`,
    /// applying every function to every value: the functions iterate as the
    /// outer loop and the values as the inner loop, so the result holds
    /// `fs[i](self[j])` at position `i * self_len + j`. When one side holds
    /// no value, the function container's frame comes through first, and the
    /// value container's only when the functions are there and the values
    /// are not — so a failure on the function side wins.
    fn lift<B, F: Fn(T) -> B>(self, fs: <Self as Rebind<F>>::Res) -> (r: <Self as Rebind<
        B,
    >>::Res) where
        Self: Rebind<F> + Rebind<B>,
        <Self as Rebind<F>>::Res: ShapeView<F, Frame = <Self as ShapeView<T>>::Frame>,
        <Self as Rebind<B>>::Res: ShapeView<B, Frame = <Self as ShapeView<T>>::Frame>,

        requires
            applications_allowed(fs, self),
        ensures
            r.slot_values().len() == fs.slot_values().len() * self.slot_values().len(),
            forall|i: int, j: int|
                #![trigger fs.slot_values()[i], self.slot_values()[j]]
                0 <= i < fs.slot_values().len() && 0 <= j < self.slot_values().len()
                    ==> fs.slot_values()[i].ensures(
                    (self.slot_values()[j],),
                    r.slot_values()[i * self.slot_values().len() + j],
                ),
            r.frame() == (if fs.slot_values().len() != 0 && self.slot_values().len() == 0 {
                self.frame()
            } else {
                fs.frame()
            }),
    ;
}

/// An applicative shape that can chain container-producing functions:
/// `bind` applies `f` to every value in the primary slot and flattens all
/// of `f`'s outputs into one container, in order.
///
/// For pure total functions, every shape's `bind` obeys the right-identity
/// law `c.bind(Self::pure) == c` and the left-identity law
/// `Self::pure(v).bind(f) == f(v)`: both are proved for every shape at once
/// by [`lemma_bind_right_identity_law`] and [`lemma_bind_left_identity_law`].
pub trait Monad<T>: Applicative<T> {
    /// Applies `f` to each value in the primary slot, left to right, and
    /// concatenates the containers it returns. A container holding no value
    /// keeps its frame; otherwise the first output's frame comes through.
    fn bind<B, F: Fn(T) -> <Self as Rebind<B>>::Res>(self, f: F) -> (r: <Self as Rebind<
        B,
    >>::Res) where
        Self: Rebind<B>,
        <Self as Rebind<B>>::Res: ShapeView<B, Frame = <Self as ShapeView<T>>::Frame>,

        requires
            forall|j: int|
                #![trigger self.slot_values()[j]]
                0 <= j < self.slot_values().len() ==> f.requires((self.slot_values()[j],)),
        ensures
            bind_output(self, f, r),
    ;
}

/// The concatenation of containers that each hold exactly one value is the
/// sequence of those values.
pub proof fn lemma_flat_of_singletons<B, OC: ShapeView<B>>(outs: Seq<OC>, vv: Seq<B>)
    requires
        outs.len() == vv.len(),
        forall|j: int| 0 <= j < outs.len() ==> (#[trigger] outs[j]).slot_values() == seq![vv[j]],
    ensures
        flat_slot_values(outs) == vv,
    decreases outs.len(),
{
    if outs.len() == 0 {
        assert(flat_slot_values(outs) =~= vv);
    } else {
        lemma_flat_of_singletons(outs.drop_first(), vv.drop_first());
        assert(outs.first().slot_values() == seq![vv[0]]);
        assert(flat_slot_values(outs) =~= vv);
    }
}

/// The identity law of every mappable shape: mapping with a function that
/// can only hand its argument back leaves the slot values and the frame of
/// the container unchanged.
pub proof fn lemma_map_identity_law<T, F: Fn(T) -> T, VC: ShapeView<T>, OC>(c: VC, f: F, r: OC) where
    OC: ShapeView<T, Frame = <VC as ShapeView<T>>::Frame>

    requires
        map_output(c, f, r),
        forall|x: T, y: T| f.ensures((x,), y) ==> y == x,
    ensures
        r.slot_values() == c.slot_values(),
        r.frame() == c.frame(),
{
    assert(r.slot_values() =~= c.slot_values());
}

/// The composition law of every mappable shape: for pure functions, mapping
/// with `g` and then with `f` gives the same container as mapping once with
/// their composition.
pub proof fn lemma_map_composition_law<
    A,
    B,
    C,
    G: Fn(A) -> B,
    F: Fn(B) -> C,
    H: Fn(A) -> C,
    CA: ShapeView<A>,
    CB,
    CC1,
    CC2,
>(
    c: CA,
    g: G,
    f: F,
    h: H,
    r1: CB,
    r2: CC1,
    r3: CC2,
    gs: spec_fn(A) -> B,
    fs: spec_fn(B) -> C,
) where
    CB: ShapeView<B, Frame = <CA as ShapeView<A>>::Frame>,
    CC1: ShapeView<C, Frame = <CA as ShapeView<A>>::Frame>,
    CC2: ShapeView<C, Frame = <CA as ShapeView<A>>::Frame>,

    requires
        forall|x: A, y: B| g.ensures((x,), y) ==> y == gs(x),
        forall|x: B, y: C| f.ensures((x,), y) ==> y == fs(x),
        forall|x: A, y: C| h.ensures((x,), y) ==> y == fs(gs(x)),
        map_output(c, g, r1),
        map_output(r1, f, r2),
        map_output(c, h, r3),
    ensures
        r2.slot_values() == r3.slot_values(),
        r2.frame() == r3.frame(),
{
    assert(r2.slot_values() =~= r3.slot_values());
}

/// The right-identity law of every sequential shape: chaining with a
/// function that can only embed its argument leaves the slot values
/// unchanged, and the frame as well wherever the shape gives an embedded
/// value the neutral frame.
pub proof fn lemma_bind_right_identity_law<T, F: Fn(T) -> OC, VC: ShapeView<T>, OC>(
    c: VC,
    f: F,
    r: OC,
) where OC: ShapeView<T, Frame = <VC as ShapeView<T>>::Frame>
    requires
        bind_output(c, f, r),
        forall|x: T, o: OC|
            #[trigger] f.ensures((x,), o) ==> o.slot_values() == seq![x] && o.frame()
                == OC::neutral_frame(),
    ensures
        r.slot_values() == c.slot_values(),
        c.slot_values().len() == 0 ==> r.frame() == c.frame(),
        c.slot_values().len() > 0 ==> r.frame() == OC::neutral_frame(),
{
    let outs = choose|outs: Seq<OC>|
        {
            &&& outs.len() == c.slot_values().len()
            &&& (forall|j: int|
                0 <= j < outs.len() ==> f.ensures((c.slot_values()[j],), #[trigger] outs[j]))
            &&& r.slot_values() == flat_slot_values(outs)
            &&& r.frame() == (if c.slot_values().len() == 0 {
                c.frame()
            } else {
                outs[0].frame()
            })
        };
    lemma_flat_of_singletons(outs, c.slot_values());
}

/// The left-identity law of every sequential shape: chaining an embedded
/// value through `f` yields a possible output of `f` on that value.
pub proof fn lemma_bind_left_identity_law<T, B, F: Fn(T) -> OC, VC: ShapeView<T>, OC>(
    c: VC,
    f: F,
    r: OC,
    x: T,
) where OC: ShapeView<B, Frame = <VC as ShapeView<T>>::Frame>
    requires
        bind_output(c, f, r),
        c.slot_values() == seq![x],
    ensures
        exists|o: OC|
            {
                &&& #[trigger] f.ensures((x,), o)
                &&& r.slot_values() == o.slot_values()
                &&& r.frame() == o.frame()
            },
{
    let outs = choose|outs: Seq<OC>|
        {
            &&& outs.len() == c.slot_values().len()
            &&& (forall|j: int|
                0 <= j < outs.len() ==> f.ensures((c.slot_values()[j],), #[trigger] outs[j]))
            &&& r.slot_values() == flat_slot_values(outs)
            &&& r.frame() == (if c.slot_values().len() == 0 {
                c.frame()
            } else {
                outs[0].frame()
            })
        };
    let o = outs[0];
    assert(f.ensures((c.slot_values()[0],), o));
    assert(outs =~= seq![o]);
    lemma_flat_slot_values_singleton(o);
}

/// The identity law of every applicative shape: combining a container of
/// values with a single function that can only hand its argument back keeps
/// every value in place, and the frame wherever the shape gives an embedded
/// function the frame of the value container.
pub proof fn lemma_lift_identity_law<T, F: Fn(T) -> T, VC: ShapeView<T>, FC, OC>(
    c: VC,
    fs: FC,
    r: OC,
    func: F,
) where
    FC: ShapeView<F, Frame = <VC as ShapeView<T>>::Frame>,
    OC: ShapeView<T, Frame = <VC as ShapeView<T>>::Frame>,

    requires
        fs.slot_values() == seq![func],
        forall|a: T, b: T| func.ensures((a,), b) ==> b == a,
        r.slot_values().len() == fs.slot_values().len() * c.slot_values().len(),
        forall|i: int, j: int|
            #![trigger fs.slot_values()[i], c.slot_values()[j]]
            0 <= i < fs.slot_values().len() && 0 <= j < c.slot_values().len()
                ==> fs.slot_values()[i].ensures(
                (c.slot_values()[j],),
                r.slot_values()[i * c.slot_values().len() + j],
            ),
        r.frame() == (if fs.slot_values().len() != 0 && c.slot_values().len() == 0 {
            c.frame()
        } else {
            fs.frame()
        }),
    ensures
        r.slot_values() == c.slot_values(),
        c.slot_values().len() == 0 ==> r.frame() == c.frame(),
        c.slot_values().len() > 0 ==> r.frame() == fs.frame(),
{
    let n = c.slot_values().len() as int;
    assert(fs.slot_values()[0] == func);
    assert(fs.slot_values().len() * c.slot_values().len() == n) by (nonlinear_arith)
        requires
            fs.slot_values().len() == 1 && n == c.slot_values().len(),
    ;
    assert(r.slot_values().len() == n);
    assert forall|j: int| 0 <= j < n implies r.slot_values()[j] == c.slot_values()[j] by {
        assert(0 * n + j == j) by (nonlinear_arith);
        assert(func.ensures((c.slot_values()[j],), r.slot_values()[0 * n + j]));
    }
    assert(r.slot_values() =~= c.slot_values());
}

/// The homomorphism law of every applicative shape: combining one embedded
/// value with one embedded pure function yields the embedded application.
pub proof fn lemma_lift_homomorphism_law<T, B, F: Fn(T) -> B, VC: ShapeView<T>, FC, OC>(
    c: VC,
    fs: FC,
    r: OC,
    x: T,
    func: F,
    fp: spec_fn(T) -> B,
) where
    FC: ShapeView<F, Frame = <VC as ShapeView<T>>::Frame>,
    OC: ShapeView<B, Frame = <VC as ShapeView<T>>::Frame>,

    requires
        c.slot_values() == seq![x],
        fs.slot_values() == seq![func],
        forall|a: T, b: B| func.ensures((a,), b) ==> b == fp(a),
        r.slot_values().len() == fs.slot_values().len() * c.slot_values().len(),
        forall|i: int, j: int|
            #![trigger fs.slot_values()[i], c.slot_values()[j]]
            0 <= i < fs.slot_values().len() && 0 <= j < c.slot_values().len()
                ==> fs.slot_values()[i].ensures(
                (c.slot_values()[j],),
                r.slot_values()[i * c.slot_values().len() + j],
            ),
        r.frame() == (if fs.slot_values().len() != 0 && c.slot_values().len() == 0 {
            c.frame()
        } else {
            fs.frame()
        }),
    ensures
        r.slot_values() == seq![fp(x)],
        r.frame() == fs.frame(),
{
    let n = c.slot_values().len() as int;
    assert(fs.slot_values()[0] == func);
    assert(c.slot_values()[0] == x);
    assert(fs.slot_values().len() * c.slot_values().len() == 1) by (nonlinear_arith)
        requires
            fs.slot_values().len() == 1 && c.slot_values().len() == 1,
    ;
    assert(r.slot_values().len() == 1);
    assert(0 * n + 0 == 0) by (nonlinear_arith);
    assert(func.ensures((c.slot_values()[0],), r.slot_values()[0 * n + 0]));
    assert(r.slot_values() =~= seq![fp(x)]);
}

} // verus!
