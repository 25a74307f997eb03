//! A collection of small, independent pieces.
//!
//! Two of them are evaluators: [`symbolic`] holds expression trees that can
//! be rendered, differentiated, substituted into and simplified, and
//! [`interp`] holds the nodes of a small interpreter for statements and
//! expressions over an environment of named integers.
//!
//! The others are helpers of their own: [`lists`] and [`closures`] work on
//! slices and function values, [`numbers`] on powers, the Collatz step and
//! divisors, [`holders`] on values and the places that hold them, [`units`]
//! on the units of measured numbers, [`listing`] on the rules of a service
//! that lists directories, and [`text`] on strings.
pub mod closures;
pub mod holders;
pub mod interp;
pub mod listing;
pub mod lists;
pub mod numbers;
pub mod symbolic;
pub mod text;
pub mod units;
