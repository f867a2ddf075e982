//! The DF-PN+ search and its supporting data structures.

pub mod dfpn;
pub mod history;
pub mod ordering;
pub mod params;
pub mod preflight;
pub mod repetition_cache;
pub mod selection;
pub mod signals;
pub mod tt;
