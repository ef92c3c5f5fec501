//! Pulls the value bound to one top-level key out of a JSON text without
//! parsing the whole document.
//!
//! The text is scanned once, byte by byte. A small state machine follows
//! string quoting, escapes and brace nesting to find the key at the top level
//! of the outer object; a second scan finds where that key's value ends. Only
//! that span is handed to the `json` crate for decoding.
pub mod error;
pub mod extract;
pub mod laws;
pub mod model;
pub mod scan;

pub use error::ExtractError;
pub use extract::{extract, from_decoded};
pub use scan::{find_end, value_span};
