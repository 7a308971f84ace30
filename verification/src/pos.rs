//! Part-of-speech tags of dictionary entries.

use vstd::prelude::*;

verus! {

/// A part-of-speech tag of the Sejong tag set.
#[derive(Debug, Clone, Copy, PartialEq, Eq)]
pub enum PosTag {
    /// Comma.
    SP,
    /// Full stop.
    SF,
    /// Unit symbol.
    SU,
    /// Other symbol.
    SY,
    /// Dash.
    SD,
    /// Pre-final ending.
    EP,
    /// Prefix.
    XP,
    /// Subject case particle.
    JCS,
    /// Common auxiliary particle.
    JXC,
    /// Non-predicative noun.
    NCN,
    /// General verb.
    PVG,
    /// Demonstrative adjective.
    PAD,
    /// General adverb.
    MAG,
    /// Demonstrative determiner.
    MMD,
    /// Interjection.
    II,
    /// Unit-bound dependent noun.
    NBU,
    /// Cardinal numeral.
    NNC,
    /// Personal pronoun.
    NPP,
    /// Coordinating connective ending.
    ECC,
    /// Final ending.
    EF,
    /// Nominalising ending.
    ETN,
    /// Noun-deriving suffix.
    XSN,
    /// Foreign word.
    F,
}

} // verus!
