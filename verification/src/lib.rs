//! A FIX tag-value protocol engine: tokenizer, envelope parser, schema-driven
//! decoder and encoder, session state and connection-loop decisions.
//!
//! A message type is described by a [`schema::Schema`]: a table of tags with
//! the kind of each value, and repeating groups that may hold groups
//! themselves. [`deserialize`] reads a message under a schema into a
//! [`schema::Record`]; [`serialize`] writes one back. What is written under
//! a schema that [`validate::schema_is_ok`] accepts, from a message that
//! [`validate::record_fits`] accepts, decodes to the same message again.

pub mod checksum;
pub mod common;
pub mod decode;
pub mod encode;
pub mod error;
pub mod field;
pub mod fix_loop;
pub mod laws;
pub mod message;
pub mod numbers;
pub mod roundtrip;
pub mod schema;
pub mod session;
pub mod validate;
pub mod value;

pub use crate::decode::deserialize;
pub use crate::encode::serialize;
pub use crate::error::ParseError;
pub use crate::fix_loop::fix_loop;
pub use crate::session::{CompIds, FixClient, FixHeader, HandleErr};
pub use crate::value::{FixParse, Timestamp};
