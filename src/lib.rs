//! Removal of protection markers from spreadsheet packages.
//!
//! The library decides, for each part of a package, whether its XML is
//! rewritten, and rewrites it by dropping every element with a given local
//! name together with its subtree, copying every other byte as it stands.
pub mod bytes;
pub mod filter;
pub mod rules;
pub mod transcode;
pub mod xml_source;
