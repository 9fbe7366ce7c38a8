//! Locating an embedded XMP packet in a byte stream and reading its rating.
//!
//! `ring` holds the fixed-width matcher, `scan` the streaming packet scanner
//! and the two-phase lookup, `rating` the rating extractor, and `select` the
//! small rules the file-selection tool applies around them.
pub mod ring;
pub mod scan;
pub mod rating;
pub mod select;
