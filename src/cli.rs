//! The commands of the command-line tool, as plain values.
use vstd::prelude::*;

verus! {

/// A collection of utilities to assist in breaking simple ciphers, commonly
/// used in ARGs.
pub struct Cli {
    pub command: Commands,
}

pub enum Commands {
    /// Perform operations with Vigenère ciphers.
    Vigenere { operation: VigenereOperation },
    /// Manage conversions between A-Z characters and their positions in the
    /// alphabet.
    A1Z26 { operation: A1Z26Operation },
    /// Perform a substitution cipher with a provided lookup file, each line
    /// of which maps a source character to a target character, separated by
    /// a space; `reverse` applies the mapping backwards.
    Substitution { lookup_file: String, reverse: bool },
    /// Perform a Caesar cipher with a provided offset; `reverse` shifts
    /// backwards.
    Caesar { offset: i32, reverse: bool },
    /// Perform an Atbash cipher on the content from stdin.
    Atbash {},
}

pub enum VigenereOperation {
    /// Decrypt content from stdin with a specified key and write the output
    /// to stdout.
    Decrypt { key: String },
    /// Encrypt content from stdin with a specified key and write the output
    /// to stdout.
    Encrypt { key: String },
    /// Attempt to decrypt cipher text using every entry of the dictionary as
    /// the key, judging each result by the same dictionary.
    Dictionary { dictionary_file: String, cipher_text: String },
    /// Attempt to decrypt cipher text with every key of `max_length`
    /// distinct letters, judging each result by the dictionary.
    Bruteforce { dictionary_file: String, max_length: usize, cipher_text: String },
}

pub enum A1Z26Operation {
    /// Decode text encoded in the A1Z26 format.
    Decode,
}

} // verus!
