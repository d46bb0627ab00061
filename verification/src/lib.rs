//! RC5 symmetric block cipher with a CBC chaining mode.
//!
//! The cipher core is generic over the word width through the [`word::Word`]
//! trait; the CBC mode works on 32-bit words, the reference width.

pub mod cbc;
pub mod rc5;
pub mod word;

pub use word::rotl;
pub use word::rotr;
pub use word::Word;
pub use rc5::decrypt;
pub use rc5::encrypt;
pub use rc5::expand_key;
pub use cbc::decrypt_cbc;
pub use cbc::encrypt_cbc;
pub use cbc::CipherError;
