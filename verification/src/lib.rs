//! Indexing of Korean dictionary entries by the sounds of their syllables.
//!
//! A modern Hangul syllable is one code point, yet it is made of a leading
//! consonant, a vowel and an optional trailing consonant. The trie of this
//! crate branches on those components instead of on whole syllables, so that
//! entries share nodes wherever their sounds agree.

pub mod corpora;
pub mod hangul;
pub mod keys;
pub mod model;
pub mod pos;
pub mod trie;
