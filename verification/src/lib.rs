//! A lexer for text with embedded ANSI terminal escape sequences.
//!
//! [`parse_str`] splits a buffer into plain-text runs and recognized control
//! sequences; [`parse_seq`] recognizes a single control sequence in the
//! bytes that follow an escape marker. The commands are only recognized,
//! never carried out.
//!
//! What the two functions return is defined by the functions `recognize`
//! of [`sequence`] and `tokens` of [`stream`]; [`laws`] proves that scanning
//! loses and repeats no byte, that a marker which starts no sequence becomes
//! text, and that text around a sequence comes out as it went in.

pub mod ascii;
pub mod boundary;
pub mod control;
pub mod digits;
pub mod laws;
pub mod sequence;
pub mod stream;
pub mod token;

pub use control::ControlSeq;
pub use sequence::parse_seq;
pub use stream::parse_str;
pub use token::OutputStream;
