//! A substitution cipher that writes each letter of a text as the number of its
//! place in an alphabet, and reads such numbers back into letters.
//!
//! The alphabet is derived from a key: the distinct characters of the key, in
//! lower case and without whitespace, in the order in which they first appear.
//! A start number says which code the first letter of the alphabet gets; codes
//! stay within `1..=n` for an alphabet of `n` letters by wrapping around.

pub mod alphabet;
pub mod cipher;
pub mod codes;
pub mod error;
pub mod numeral;
pub mod text;
pub mod unicode;
pub mod wrap;

pub use alphabet::unique_chars;
pub use text::{
    decrypt_cypher, decrypt_text, to_cypher, DEFAULT_KEY, DEFAULT_SEPARATOR, DEFAULT_START_NUMBER,
};
pub use error::CipherError;
pub use wrap::wrap_on_limit;
