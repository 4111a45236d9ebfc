//! Hides a secret text inside an innocuous cover text using invisible
//! zero-width Unicode characters, and recovers it again from a string that
//! may contain the combined text mixed with arbitrary other content.
//!
//! Two zero-width code points act as binary digits.  Each payload byte is
//! spelled out as eight markers, least significant bit first; the whole
//! marker run is spliced into the cover text at a character boundary near
//! its byte midpoint.  Recovery filters everything but markers out of the
//! input and decodes what remains.
use vstd::prelude::*;

pub mod codec;
pub mod facade;
pub mod markers;

verus! {

pub use codec::decode;
pub use codec::decode_byte;
pub use codec::encode;
pub use codec::encode_byte;
pub use facade::create_secret;
pub use facade::extract_secret;
pub use facade::remove_unnecessary_symbols;

} // verus!
