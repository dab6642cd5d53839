//! Digests and ciphers that the file formats lean on.

pub mod md5_engine;
pub mod xtea;
