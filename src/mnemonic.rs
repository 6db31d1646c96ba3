//! The five mnemonic lengths that BIP39 allows, and the sizes they fix.

use vstd::prelude::*;

verus! {

/// Number of bits that one word of the list stands for.
pub const BITS_PER_WORD: usize = 11;

/// Number of words in the list.
pub const WORDLIST_LEN: u16 = 2048;

/// A mnemonic of 12, 15, 18, 21 or 24 words.
#[derive(Debug, Clone, Copy, PartialEq, Eq)]
pub enum MnemonicLength {
    Words12,
    Words15,
    Words18,
    Words21,
    Words24,
}

impl MnemonicLength {
    /// Checksum bits: one for every 32 bits of entropy.
    pub open spec fn spec_checksum_bits(self) -> nat {
        match self {
            MnemonicLength::Words12 => 4,
            MnemonicLength::Words15 => 5,
            MnemonicLength::Words18 => 6,
            MnemonicLength::Words21 => 7,
            MnemonicLength::Words24 => 8,
        }
    }

    /// Entropy bits: 128, 160, 192, 224 or 256.
    pub open spec fn spec_entropy_bits(self) -> nat {
        32 * self.spec_checksum_bits()
    }

    /// Words: entropy and checksum together, eleven bits a word.
    pub open spec fn spec_word_count(self) -> nat {
        3 * self.spec_checksum_bits()
    }

    /// Free bits of the last word once the checksum is fixed.
    pub open spec fn spec_nonce_bits(self) -> nat {
        (11 - self.spec_checksum_bits()) as nat
    }

    /// The length with `count` words, if BIP39 allows it.
    pub fn for_word_count(count: usize) -> (r: Option<MnemonicLength>)
        ensures
            r matches Some(t) ==> t.spec_word_count() == count,
            r is None <==> !(count == 12 || count == 15 || count == 18 || count == 21 || count
                == 24),
    {
        if count == 12 {
            Some(MnemonicLength::Words12)
        } else if count == 15 {
            Some(MnemonicLength::Words15)
        } else if count == 18 {
            Some(MnemonicLength::Words18)
        } else if count == 21 {
            Some(MnemonicLength::Words21)
        } else if count == 24 {
            Some(MnemonicLength::Words24)
        } else {
            None
        }
    }

    pub fn checksum_bits(&self) -> (r: u8)
        ensures
            r == self.spec_checksum_bits(),
            4 <= r <= 8,
    {
        match self {
            MnemonicLength::Words12 => 4,
            MnemonicLength::Words15 => 5,
            MnemonicLength::Words18 => 6,
            MnemonicLength::Words21 => 7,
            MnemonicLength::Words24 => 8,
        }
    }

    pub fn entropy_bits(&self) -> (r: usize)
        ensures
            r == self.spec_entropy_bits(),
    {
        32 * self.checksum_bits() as usize
    }

    pub fn word_count(&self) -> (r: usize)
        ensures
            r == self.spec_word_count(),
            12 <= r <= 24,
    {
        3 * self.checksum_bits() as usize
    }
}

} // verus!
