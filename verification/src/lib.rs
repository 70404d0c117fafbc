//! Classical-cipher analysis: alphabets, statistics, cipher classification,
//! an Enigma rotor machine and brute-force key searches.

pub mod alphabet;
pub mod analysis;
pub mod base64;
pub mod character_set;
pub mod cipher_cracker;
pub mod cipher_type;
pub mod columnar_transposition;
pub mod dictionary;
pub mod enigma;
pub mod error;
pub mod frequency;
pub mod gronsfeld;
pub mod gronsfeld_cracker;
pub mod hex;
pub mod octal;
pub mod one_time_pad;
pub mod order;
pub mod porta;
pub mod radix;
pub mod running_key;
pub mod score;
pub mod tabula_recta;
pub mod text;
pub mod vigenere;
