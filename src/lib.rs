//! Dice-driven BIP39 helpers: a codec between five-die rolls and word
//! indices, and a solver for the checksum word of a mnemonic.

pub mod bits;
pub mod dice;
pub mod mnemonic;
pub mod wordlist;
pub mod checkwords;
pub mod phrase;
