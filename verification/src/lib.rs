//! Point-cloud classification: the verified core.
//!
//! Every numeric quantity that the surrounding program holds as a binary
//! floating-point number enters this crate either as its bit pattern (see
//! [`ieee::Real64`]) or as the outcome of a computation that the caller made.

pub mod cli;
pub mod codec;
pub mod counting;
pub mod error;
pub mod ieee;
pub mod json;
pub mod model;
pub mod ordering;
pub mod output;
pub mod paths;
pub mod preprocessing;
pub mod text;
pub mod text_map;
