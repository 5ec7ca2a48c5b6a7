//! Traits that emulate generic type constructors.
//!
//! Rust has no way to abstract over a container template independently of its
//! element type, so the shape contracts are built on a two-trait protocol:
//! [`Bind`] names the element-type slots of a concrete instantiation, and
//! [`Rebind`] resolves the concrete type obtained by substituting the primary
//! slot. Both are purely type-level: they have no methods and no runtime cost.

use vstd::prelude::*;

verus! {

/// An empty placeholder standing for an as-yet 'unapplied' type slot.
pub struct ForAll;

/// Resolves the concrete type that results from rebinding the primary
/// element slot of `Self` to `A`, leaving any secondary slot untouched.
pub trait Rebind<A> {
    type Res;
}

/// Names the element-type slots of a concrete container instantiation:
/// the underlying template (`Orig`), the primary slot (`Type1`) and the
/// secondary slot (`Type2`), which is `()` for single-slot shapes.
pub trait Bind {
    type Orig;

    type Type1;

    type Type2;
}

/// The specification-level contents of a container value: the ordered
/// sequence of values held in the primary slot, and a `Frame` carrying
/// whatever structure lies outside that slot (the failure payload of an
/// outcome; nothing for the other shapes).
///
/// A container value is determined by its slot values and its frame, so the
/// shape contracts can be stated once over this view and still pin each
/// shape's behaviour exactly.
pub trait ShapeView<T> {
    /// The structure a container carries outside its primary slot.
    type Frame;

    /// The values in the primary slot, in container order.
    spec fn slot_values(self) -> Seq<T>;

    /// The structure outside the primary slot.
    spec fn frame(self) -> Self::Frame;

    /// The frame of a container built around nothing but slot values,
    /// as `pure` produces it.
    spec fn neutral_frame() -> Self::Frame;
}

} // verus!
