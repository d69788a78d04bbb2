//! The index of a package registry: what is known of its packages, what is
//! offered to those who ask for one, and what is worth fetching in advance.

pub mod cache;
pub mod index;
pub mod package;
pub mod precise;
pub mod prefetch;
pub mod query;
pub mod remote;
pub mod spelling;
pub mod split;
pub mod summaries;
pub mod text;
pub mod version;
