//! Human-readable rendering of byte counts, plain counts and time spans.

pub mod binary64;
pub mod bytes;
pub mod decimal;
pub mod number;
pub mod scale;
pub mod span;
pub mod time;
