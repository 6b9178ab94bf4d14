//! Tracks which entries of which syndication feeds have already been seen,
//! and decides, for each freshly fetched feed, which entries are new.
//!
//! - `store`: the seen-item store, a map from feed URL to the set of entry keys
//!   already processed, with its conversion to and from saved records.
//! - `feed`: a parsed feed, the key of an entry, and reading an RSS document.
//! - `diff`: processing one fetched feed: which entries to report, and the store
//!   afterwards.
//! - `laws`: what holds of whole runs and of runs repeated.
//! - `url_list`: the list of feed URLs, one per line.
//! - `download`: the file name an enclosure is saved under.

pub mod diff;
pub mod download;
pub mod feed;
pub mod laws;
pub mod store;
pub mod url_list;
