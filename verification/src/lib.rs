//! The logic of a fetcher for Yarn Berry dependencies.
//!
//! A lockfile is parsed ([`lockfile`]) and its entries are read ([`entry`]). From each entry follows
//! where it is fetched from ([`source`]), with checksums that the lockfile may lack
//! ([`missing_hashes`]) and with credentials ([`yarnrc`]). The archives become zip files ([`zip`])
//! in a cache ([`cache`]).
//!
//! Nothing in this crate touches files or the network: it decides what is done, and is told what
//! came of it.

pub mod cache;
pub mod command;
pub mod decimal;
pub mod digest;
pub mod entry;
pub mod fetch;
pub mod lockfile;
pub mod missing_hashes;
pub mod path;
pub mod post;
pub mod source;
pub mod text;
pub mod time;
pub mod yarnrc;
pub mod zip;
