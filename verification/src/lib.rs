//! A wavelet trie: a succinct, dynamic, indexed container for a sequence of
//! binary strings, after Grossi and Ottaviano, "The Wavelet Trie: Maintaining
//! an Indexed Sequence of Strings in Compressed Space".
//!
//! The trie stores a positional sequence of bit-strings (duplicates allowed,
//! but no stored string may be a strict prefix of another) and answers
//! `access`, `rank`, `select` and prefix queries while supporting insertion
//! and deletion at arbitrary positions.

pub mod bits;

pub mod bit_vec_wrap;

pub mod wavelet_trie;
