//! Conversion of rich-text delta operations into an HTML fragment: inline
//! formatting of text runs, a state machine for nested list and code block
//! containers, and the driver that feeds lines to both.

pub mod attributes;
pub mod block_format;
pub mod delta;
pub mod inline_format;
pub mod text;

pub use attributes::Attributes;
pub use delta::{parser, DeltaOp, Insert, Mention};
