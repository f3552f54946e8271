//! Parser and formatter for the phig configuration language.
//!
//! Phig has three types: strings, lists, and maps. A document is a map of
//! keys to values:
//!
//! ```text
//! name app
//! tags [web prod]
//! server { host localhost; port 8080 }
//! ```
//!
//! - [`parse`]: the pull parser, [`PhigParser`], as a state machine over
//!   the bytes of a document, with the grammar's pieces as spec functions;
//! - [`value`]: the [`Value`] tree and reading a document into one;
//! - [`fmt`]: writing values as phig text, whole or event by event;
//! - [`de`] and [`ser`]: the decisions of a typed deserializer and
//!   serializer over the event stream and the formatter;
//! - [`roundtrip`] and [`output`]: what the formatter writes parses back to
//!   the same value, and is always valid UTF-8;
//! - [`error`] and [`text`]: the error type and character-level helpers.
use vstd::prelude::*;

pub mod de;
pub mod error;
pub mod fmt;
pub mod output;
pub mod parse;
pub mod roundtrip;
pub mod ser;
pub mod text;
pub mod value;

pub use error::Error;
pub use parse::{Event, PhigParser};
pub use value::{from_str, parse_to_value, Value};
