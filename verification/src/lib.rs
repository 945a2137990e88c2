//! Splitting 256-bit secrets, written as checksummed mnemonic phrases, into
//! shares whose bytewise XOR gives the secret back, and combining such shares.
//!
//! A secret is 32 bytes. Its text form is a phrase of 24 words, one phrase
//! to a line. A file of secrets is split into several files of shares: line
//! for line, all but the first hold random pads and the first holds what is
//! left of the secret once the pads are XORed into it. Combining files XORs
//! them line for line, so combining all files of a split gives the source
//! back, in whatever order they are named.
//!
//! - [`secret`]: the 32 bytes and their XOR, with its laws.
//! - [`codec`]: phrases to secrets and back, on top of the `bip39` crate.
//! - [`pad`]: random pads and their buffers.
//! - [`split`]: one line, or a whole file, into shares.
//! - [`combine`]: one round, or whole files, into their XOR.
//! - [`generate`]: fresh random lines.
//! - [`batch`]: which destinations to remove when one cannot be created.
//!
//! The library works on lines of text that are already in memory; reading
//! and writing files is the caller's part.

pub mod batch;
pub mod codec;
pub mod combine;
pub mod generate;
pub mod pad;
pub mod secret;
pub mod split;
