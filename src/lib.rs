//! Classical substitution ciphers over the 26-letter Latin alphabet: Caesar,
//! Atbash, ROT13 and the general affine cipher, all one affine map `x -> a * x + b`
//! modulo 26 and its inverse.

pub mod alphabet;
pub mod modular;
pub mod text;
pub mod substitution_ciphers;
pub mod caesar_cipher;
pub mod laws;
