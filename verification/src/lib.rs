//! Discovery of spell-checking dictionary bundles on disk.
//!
//! The crate maps human-facing locale tags to the dictionary bundle files
//! that implement them.  A bundle is recognized purely by its file name;
//! the tags a bundle answers to are derived from its file stem by the tag
//! expander.  Filesystem walking and locale-name resolution are left to the
//! caller, which hands their results in as plain values; everything that
//! decides — recognition, expansion, ordering, lookup — is verified here.

pub mod paths;
pub mod repository;
pub mod tags;
pub mod text;

pub use repository::Candidate;
pub use repository::SpellerRepository;
