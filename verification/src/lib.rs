//! A small XML subset: a tokenizer over borrowed text, an entity-aware string
//! view, an escaping output builder, and the traits that bind typed records
//! to them. Every function is verified against a model of the text as
//! UTF-8 bytes and Unicode scalar values.

pub mod de;
pub mod decimal;
pub mod derive;
pub mod escape;
pub mod grammar;
pub mod roundtrip;
pub mod ser;
pub mod text;
