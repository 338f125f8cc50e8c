//! Tools for breaking the simple ciphers of puzzle hunts: Vigenère
//! encryption over the 26-letter ring, and a key search that scores each
//! candidate key against a dictionary.
use vstd::prelude::*;

pub mod alpha;
pub mod vigenere;
pub mod dictionary;
pub mod search;
pub mod bruteforce;
pub mod a1z26;
pub mod cli;

pub use a1z26::a1z26_decode;
pub use alpha::Alpha;
pub use bruteforce::{find_vigenere_key_bruteforce, search_letter_keys, LetterKeys};
pub use dictionary::{key_from_word, Dictionary};
pub use search::{find_vigenere_key, score, KeySearch, SearchOutcome};
pub use vigenere::vigenere;
