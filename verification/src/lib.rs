//! Ropes: immutable byte strings that share their contents.

pub mod builder;
pub mod elem;
pub mod foreign;
pub mod hash;
pub mod laws;
pub mod reader;
pub mod rope;
pub mod text;

pub use builder::{RopeBuilder, Uncommitted};
pub use elem::{InnerRope, RopeElem};
pub use hash::HashWrite;
pub use reader::RopeReader;
pub use rope::Rope;
pub use text::ToStrError;
