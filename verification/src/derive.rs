//! The traits that bind typed records to the tokenizer and the builder.

pub mod de;
pub mod ser;
