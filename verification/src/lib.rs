//! Law-constrained container abstractions — mappable, applicative,
//! sequential and combinable — implemented uniformly for an optional value,
//! a success/failure outcome, an ordered sequence and a linked sequence.
//!
//! Rust cannot abstract over a container template independently of its
//! element type, so the contracts rest on a small type-level protocol
//! ([`Bind`] and [`Rebind`]) that resolves, for a concrete container, the
//! type obtained by substituting its primary element slot. Each operation's
//! behaviour is specified once, over the [`ShapeView`] of the containers it
//! touches, and the algebraic laws the operations obey are proved for every
//! shape.

pub mod functors;
pub mod groups;
pub mod hkt;
pub mod linked;
pub mod optional;
pub mod outcome;
pub mod sequence;

pub use crate::functors::{Applicative, Functor, Monad};
pub use crate::groups::Monoid;
pub use crate::hkt::{Bind, ForAll, Rebind, ShapeView};
