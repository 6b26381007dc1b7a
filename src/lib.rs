//! PIN credentials for the wallet: a self-describing Argon2 credential text,
//! its encoder and parser, and the hash / verify pair built on them.

pub mod b64;
pub mod credential;
pub mod device;
pub mod outside;
pub mod text;
pub mod pin;
