//! Looking into traces: finding frames, filtering traces and gathering figures.
pub mod count;
pub mod filter;
pub mod finder;
pub mod histogram;
pub mod pattern;
