//! A lending-iteration library: step-wise sequences whose behaviour is stated
//! over a ghost view — the sequence of elements still to be yielded — and
//! proved against it.
//!
//! The core is the [`Lender`] trait: a step operation (`next`) whose contract
//! says that a step yields exactly the head of the `remaining` view, together
//! with a `fused` predicate saying whether the sequence is guaranteed to stay
//! exhausted once it reports exhaustion. On top of it stand the
//! exhaustion-fusing wrapper [`Fuse`], the two-source chaining adapter
//! [`Chain`] with forward and backward traversal, bulk operations written once
//! over any lender ([`ops`]), the laws the adapter obeys ([`laws`]), and the
//! bridging layer that lets contiguous sequences (slices, vectors) participate
//! and lets collections be built from or extended by a lender ([`FromLender`],
//! [`ExtendLender`]).

pub mod chain;
pub mod collect;
pub mod fuse;
pub mod laws;
pub mod lend;
pub mod ops;

pub use chain::Chain;
pub use collect::{ExtendLender, FromLender, IntoLender, Iter, IterLender, IterMut, IterMutLender};
pub use fuse::{Fuse, Reviving};
pub use lend::{DoubleEndedLender, FusedLender, Lender};
