//! GON: a relaxed, JSON-like configuration notation (bare keys, optional and trailing commas,
//! letter-case-free `None`/`null`/`true`/`false`, raw `r"..."` strings). The library splits text
//! into tokens, parses them into a `Value`, spells a value back out compactly or for people to
//! read, and bridges values to and from `serde_json`.
pub mod json;
pub mod laws;
pub mod parser;
pub mod spell;
pub mod token;
pub mod value;

pub use parser::{parse, parse_str, GonError};
pub use value::{List, Object, SpellConfig, Value};
