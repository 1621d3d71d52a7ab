//! Client-side synchronization core for a note-storage service spoken over a
//! WebDAV-style file protocol.
//!
//! The crate holds the verified logic of the sync engine: the timestamp codec,
//! the note data model with its normalization rules, the frontmatter text
//! codec, the canonical JSON rendering, and the protocol client's decision
//! logic (URL construction, listing scrape, status classification).  The
//! network transport itself lives outside the library.

pub mod chars;
pub mod error;
pub mod json;
pub mod markdown;
pub mod models;
pub mod provider;
pub mod storage;
pub mod timestamp;
pub mod webdav;
