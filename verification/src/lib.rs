//! A verified core for a status-bar configuration editor.
//!
//! The library models a bar configuration as an ordered document of module
//! definitions plus three ordered placement lists (left, center, right),
//! and provides:
//!
//! * a JSON value model with a verified serializer and parser, proved to
//!   round-trip, plus a comment-stripping filter for the commented
//!   dialect (`json`, `codec`);
//! * the document and profile types with their conversion to and from
//!   JSON and a proved save/load round trip (`document`);
//! * editing operations on the document: renaming, property edits,
//!   adding and deleting modules (`ops`);
//! * a module tree engine that flattens nested group modules into
//!   depth-tagged display rows, with a verified regrouping round trip
//!   (`tree`);
//! * a drag/reorder resolver that relocates a module to a visual target
//!   position, proved to be a no-op when the target is the module's own
//!   position (`mover`);
//! * a line-oriented stylesheet block editor with verified get/set laws
//!   and an idempotent keyframe bootstrap (`css`);
//! * parsing and serialization of style variables, palette merging and
//!   wallpaper-report scraping (`style`).
//!
//! All text is handled as `Vec<char>`, whose mathematical model is
//! `Seq<char>`.

pub mod text;
pub mod json;
pub mod codec;
pub mod document;
pub mod ops;
pub mod css;
pub mod tree;
pub mod mover;
pub mod style;
