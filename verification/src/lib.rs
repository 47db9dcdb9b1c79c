//! Attribute multiplexing.
//!
//! One annotated type declaration is repeated several times, each copy under
//! a name of its own and with the annotations that were chosen for it
//! ([`mux`]), and conversions are generated between declarations of the same
//! shape ([`from_`]).
//!
//! The declaration is handled in structured form ([`tree`]): the caller
//! turns source text into a [`tree::Declaration`] and the results back into
//! source text. What an annotation holds is read by the `syn` parser
//! ([`syntax`]) and interpreted here ([`attrs`]). Failures are reported as
//! [`diagnostic::Diagnostic`]s.
//!
//! Every function states what it returns over the mathematical models of
//! its arguments. [`fold`] holds the way of walking a list that all of them
//! share, and [`meaning`] says what a generated conversion does to a value.

pub mod attrs;
pub mod diagnostic;
pub mod fold;
pub mod from_;
pub mod meaning;
pub mod mux;
pub mod syntax;
pub mod tree;
