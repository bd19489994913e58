//! An assertion engine for log events.
//!
//! A [`Layer`] is the registry of expectations ("a message matching this will
//! be emitted"). Every emitted message is handed to [`Layer::deliver`], which
//! latches each pending expectation that the message satisfies. An
//! [`Assertion`] is a boolean expression over expectations, built with
//! `and`, `or` and `not`, that can be evaluated, reset and repeated at any
//! time without looking at past messages again.
//!
//! The contracts are stated over a mathematical model: [`registry::Registry`]
//! for the layer and [`expr::Expr`] for an assertion.

pub mod assertion;
pub mod expr;
pub mod laws;
pub mod layer;
pub mod paint;
pub mod plain;
pub mod registry;
pub mod rule;

pub use crate::rule::AssertionType;
pub use crate::rule::PatternError;
pub use crate::assertion::Assertion;
pub use crate::layer::Layer;
