//! Conversion between a modern Hangul syllable and the indices of its three
//! components.
//!
//! The block of modern syllables runs from `'가'` to `'힣'`. Within it the code
//! point of a syllable is
//! `HANGUL_START + lead * 21 * 28 + vowel * 28 + tail`, where `tail == 0` stands
//! for a syllable without a trailing consonant.

use vstd::arithmetic::div_mod::lemma_fundamental_div_mod_converse;
use vstd::prelude::*;

verus! {

/// Code point of `'가'`, the first modern syllable.
pub const HANGUL_START: usize = 44032;

/// Code point of `'힣'`, the last modern syllable.
pub const HANGUL_END: usize = 55203;

/// Number of leading consonants.
pub const NUM_INITIAL_CONSONANT: usize = 19;

/// Number of vowels.
pub const NUM_MID_VOWEL: usize = 21;

/// Number of trailing consonants, the absent one included.
pub const NUM_FINAL_CONSONANT: usize = 28;

/// What `JONG_SUNG` holds at index 0: the mark of a syllable without a
/// trailing consonant.
pub const NO_FINAL_CONSONANT: char = '\0';

/// Leading consonants, by index.
pub const CHO_SUNG: [char; 19] = [
    'ㄱ', 'ㄲ', 'ㄴ', 'ㄷ', 'ㄸ', 'ㄹ', 'ㅁ', 'ㅂ', 'ㅃ', 'ㅅ', 'ㅆ', 'ㅇ', 'ㅈ', 'ㅉ', 'ㅊ', 'ㅋ',
    'ㅌ', 'ㅍ', 'ㅎ',
];

/// Vowels, by index.
pub const JUNG_SUNG: [char; 21] = [
    'ㅏ', 'ㅐ', 'ㅑ', 'ㅒ', 'ㅓ', 'ㅔ', 'ㅕ', 'ㅖ', 'ㅗ', 'ㅘ', 'ㅙ', 'ㅚ', 'ㅛ', 'ㅜ', 'ㅝ', 'ㅞ',
    'ㅟ', 'ㅠ', 'ㅡ', 'ㅢ', 'ㅣ',
];

/// Trailing consonants, by index. Index 0 holds `NO_FINAL_CONSONANT`.
pub const JONG_SUNG: [char; 28] = [
    '\0', 'ㄱ', 'ㄲ', 'ㄳ', 'ㄴ', 'ㄵ', 'ㄶ', 'ㄷ', 'ㄹ', 'ㄺ', 'ㄻ', 'ㄼ', 'ㄽ', 'ㄾ', 'ㄿ', 'ㅀ',
    'ㅁ', 'ㅂ', 'ㅄ', 'ㅅ', 'ㅆ', 'ㅇ', 'ㅈ', 'ㅊ', 'ㅋ', 'ㅌ', 'ㅍ', 'ㅎ',
];

/// Why a conversion was refused.
#[derive(Debug, Clone, Copy, PartialEq, Eq)]
pub enum HangulError {
    /// The character is no modern syllable, or an index is out of its range.
    InvalidInput,
}

/// Whether `c` lies in the block of modern syllables, both ends included.
pub open spec fn is_syllable(c: char) -> bool {
    HANGUL_START <= c as int <= HANGUL_END
}

/// Whether the three indices each lie within their table.
pub open spec fn valid_indices(lead: int, vowel: int, tail: int) -> bool {
    &&& 0 <= lead < NUM_INITIAL_CONSONANT
    &&& 0 <= vowel < NUM_MID_VOWEL
    &&& 0 <= tail < NUM_FINAL_CONSONANT
}

/// The component indices `(lead, vowel, tail)` of the syllable `c`.
pub open spec fn decompose(c: char) -> (int, int, int)
    recommends
        is_syllable(c),
{
    let offset = c as int - HANGUL_START;
    (
        offset / (NUM_MID_VOWEL * NUM_FINAL_CONSONANT),
        (offset / NUM_FINAL_CONSONANT as int) % NUM_MID_VOWEL as int,
        offset % NUM_FINAL_CONSONANT as int,
    )
}

/// The code point of the syllable with the given component indices.
pub open spec fn compose_code(lead: int, vowel: int, tail: int) -> int {
    HANGUL_START + lead * NUM_MID_VOWEL * NUM_FINAL_CONSONANT + vowel * NUM_FINAL_CONSONANT + tail
}

/// The syllable with the given component indices.
pub open spec fn compose(lead: int, vowel: int, tail: int) -> char
    recommends
        valid_indices(lead, vowel, tail),
{
    compose_code(lead, vowel, tail) as char
}

/// The component characters `(lead, vowel, tail)` of the syllable `c`, the
/// tail being `NO_FINAL_CONSONANT` where `c` has no trailing consonant.
pub open spec fn components(c: char) -> (char, char, char)
    recommends
        is_syllable(c),
{
    let (lead, vowel, tail) = decompose(c);
    (CHO_SUNG[lead], JUNG_SUNG[vowel], JONG_SUNG[tail])
}

/// The contract of std's `char::from_u32`, taken on trust and not proved: it
/// gives the character whose code point is `i`, and `None` exactly where `i`
/// is a surrogate (`0xD800` to `0xDFFF`) or lies above `0x10FFFF`.
pub assume_specification[ char::from_u32 ](i: u32) -> (r: Option<char>)
    ensures
        r == (if i <= 0xD7FF || (0xE000 <= i && i <= 0x10FFFF) {
            Some(i as char)
        } else {
            None
        }),
;

/// Tells whether `syllable` is a modern Hangul syllable.
pub fn is_hangul(syllable: char) -> (b: bool)
    ensures
        b == is_syllable(syllable),
{
    let syllable_unicode: usize = syllable as u32 as usize;
    if syllable_unicode > HANGUL_END || syllable_unicode < HANGUL_START {
        false
    } else {
        true
    }
}

/// The component indices of a character that is known to be a syllable.
pub(crate) fn indices_of_syllable(syllable: char) -> (idx: (usize, usize, usize))
    requires
        is_syllable(syllable),
    ensures
        (idx.0 as int, idx.1 as int, idx.2 as int) == decompose(syllable),
        valid_indices(idx.0 as int, idx.1 as int, idx.2 as int),
{
    let syllable_uni: usize = syllable as u32 as usize - HANGUL_START;
    let cho_idx: usize = syllable_uni / (NUM_MID_VOWEL * NUM_FINAL_CONSONANT);
    let jung_idx: usize = (syllable_uni / NUM_FINAL_CONSONANT) % NUM_MID_VOWEL;
    let jong_idx: usize = syllable_uni % NUM_FINAL_CONSONANT;
    (cho_idx, jung_idx, jong_idx)
}

/// Composes a syllable from its component indices.
///
/// Fails with `InvalidInput` exactly when an index lies outside its table.
pub fn get_char_from_indices(cho_idx: usize, jung_idx: usize, jong_idx: usize) -> (r: Result<
    char,
    HangulError,
>)
    ensures
        valid_indices(cho_idx as int, jung_idx as int, jong_idx as int) ==> r == Ok::<
            char,
            HangulError,
        >(compose(cho_idx as int, jung_idx as int, jong_idx as int)),
        r matches Ok(c) ==> is_syllable(c),
        !valid_indices(cho_idx as int, jung_idx as int, jong_idx as int) ==> r == Err::<
            char,
            HangulError,
        >(HangulError::InvalidInput),
{
    if cho_idx >= NUM_INITIAL_CONSONANT || jung_idx >= NUM_MID_VOWEL || jong_idx
        >= NUM_FINAL_CONSONANT {
        return Err(HangulError::InvalidInput);
    }
    let res: usize = ((cho_idx * NUM_MID_VOWEL * NUM_FINAL_CONSONANT) + (jung_idx
        * NUM_FINAL_CONSONANT) + jong_idx) + HANGUL_START;
    match char::from_u32(res as u32) {
        Some(c) => Ok(c),
        None => Err(HangulError::InvalidInput),
    }
}

/// Decomposes a syllable into its component indices.
///
/// Fails with `InvalidInput` exactly when `syllable` is no modern syllable.
pub fn get_indices_from_syllable(syllable: char) -> (r: Result<(usize, usize, usize), HangulError>)
    ensures
        is_syllable(syllable) ==> (r matches Ok(idx) && (idx.0 as int, idx.1 as int, idx.2 as int)
            == decompose(syllable)),
        !is_syllable(syllable) ==> r == Err::<(usize, usize, usize), HangulError>(
            HangulError::InvalidInput,
        ),
{
    if !is_hangul(syllable) {
        return Err(HangulError::InvalidInput);
    }
    Ok(indices_of_syllable(syllable))
}

/// The component characters of a character that is known to be a syllable.
pub(crate) fn components_of_syllable(syllable: char) -> (parts: (char, char, char))
    requires
        is_syllable(syllable),
    ensures
        parts == components(syllable),
{
    let (cho_idx, jung_idx, jong_idx) = indices_of_syllable(syllable);
    (CHO_SUNG[cho_idx], JUNG_SUNG[jung_idx], JONG_SUNG[jong_idx])
}

/// Splits a syllable into the characters of its leading consonant, vowel and
/// trailing consonant; the last is `NO_FINAL_CONSONANT` where there is none.
///
/// Fails with `InvalidInput` exactly when `syllable` is no modern syllable.
pub fn split_syllable(syllable: char) -> (r: Result<(char, char, char), HangulError>)
    ensures
        is_syllable(syllable) ==> r == Ok::<(char, char, char), HangulError>(
            components(syllable),
        ),
        !is_syllable(syllable) ==> r == Err::<(char, char, char), HangulError>(
            HangulError::InvalidInput,
        ),
{
    if is_hangul(syllable) == false {
        return Err(HangulError::InvalidInput);
    }
    Ok(components_of_syllable(syllable))
}

/// Decomposing a syllable and composing the indices again gives the syllable
/// back.
pub proof fn lemma_compose_decompose(c: char)
    requires
        is_syllable(c),
    ensures
        valid_indices(decompose(c).0, decompose(c).1, decompose(c).2),
        compose(decompose(c).0, decompose(c).1, decompose(c).2) == c,
{
}

/// Composing valid indices gives a modern syllable, and decomposing it gives
/// the indices back.
pub proof fn lemma_decompose_compose(lead: int, vowel: int, tail: int)
    requires
        valid_indices(lead, vowel, tail),
    ensures
        is_syllable(compose(lead, vowel, tail)),
        decompose(compose(lead, vowel, tail)) == (lead, vowel, tail),
{
    let offset = lead * 588 + vowel * 28 + tail;
    assert(compose(lead, vowel, tail) as int == HANGUL_START + offset);
    lemma_fundamental_div_mod_converse(offset, 588, lead, vowel * 28 + tail);
    lemma_fundamental_div_mod_converse(offset, 28, lead * 21 + vowel, tail);
    lemma_fundamental_div_mod_converse(lead * 21 + vowel, 21, lead, vowel);
}

/// Only index 0 of `JONG_SUNG` holds `NO_FINAL_CONSONANT`: every real trailing
/// consonant differs from it.
pub proof fn lemma_no_final_consonant_is_index_zero(tail: int)
    requires
        0 <= tail < NUM_FINAL_CONSONANT,
    ensures
        JONG_SUNG[tail] == NO_FINAL_CONSONANT <==> tail == 0,
{
}

/// Whether `c` is a consonant among the component characters.
pub open spec fn is_consonant_char(c: char) -> bool {
    0x3131 <= c as u32 <= 0x314E
}

/// Whether `c` is a vowel among the component characters.
pub open spec fn is_vowel_char(c: char) -> bool {
    0x314F <= c as u32 <= 0x3163
}

/// Whether `c` is one of the characters that the tables hold for a
/// component: a consonant or a vowel of the compatibility letters.
pub open spec fn is_component_char(c: char) -> bool {
    is_consonant_char(c) || is_vowel_char(c)
}

/// Whether `c` stands in the table of leading consonants.
pub open spec fn is_lead_char(c: char) -> bool {
    exists|lead: int| 0 <= lead < NUM_INITIAL_CONSONANT && #[trigger] CHO_SUNG[lead] == c
}

/// Whether `c` stands in the table of trailing consonants as a real one.
pub open spec fn is_tail_char(c: char) -> bool {
    exists|tail: int| 1 <= tail < NUM_FINAL_CONSONANT && #[trigger] JONG_SUNG[tail] == c
}

/// The tables hold consonants for the leading and trailing components and
/// vowels for the middle one; each vowel stands at its own offset.
pub proof fn lemma_table_ranges(lead: int, vowel: int, tail: int)
    requires
        valid_indices(lead, vowel, tail),
    ensures
        is_consonant_char(CHO_SUNG[lead]),
        is_vowel_char(JUNG_SUNG[vowel]),
        JUNG_SUNG[vowel] as u32 == 0x314F + vowel,
        tail != 0 ==> is_consonant_char(JONG_SUNG[tail]),
{
}

/// Every component character stands in a table: a vowel among the vowels, a
/// consonant among the leading or the trailing consonants.
pub proof fn lemma_component_char_in_table(c: char)
    requires
        is_component_char(c),
    ensures
        is_vowel_char(c) ==> JUNG_SUNG[c as u32 - 0x314F] == c,
        is_consonant_char(c) ==> is_lead_char(c) || is_tail_char(c),
{
    let code = c as u32;
    if code == 0x3138 {
        assert(CHO_SUNG[4] == c);
    } else if code == 0x3143 {
        assert(CHO_SUNG[8] == c);
    } else if code == 0x3149 {
        assert(CHO_SUNG[13] == c);
    } else if is_consonant_char(c) {
        // The trailing consonants are all the consonants but those three, in
        // the order of their code points.
        let skipped: int = if code > 0x3149 {
            3
        } else if code > 0x3143 {
            2
        } else if code > 0x3138 {
            1
        } else {
            0
        };
        assert(JONG_SUNG[code - 0x3130 - skipped] == c);
    }
}

/// The leading consonants stand in the order of their code points.
pub proof fn lemma_leads_increasing(i: int, j: int)
    requires
        0 <= i < j < NUM_INITIAL_CONSONANT,
    ensures
        (CHO_SUNG[i] as u32) < CHO_SUNG[j] as u32,
    decreases j - i,
{
    assert((CHO_SUNG[i] as u32) < CHO_SUNG[i + 1] as u32);
    if i + 1 < j {
        lemma_leads_increasing(i + 1, j);
    }
}

/// The trailing consonants stand in the order of their code points, the
/// absent one first.
pub proof fn lemma_tails_increasing(i: int, j: int)
    requires
        0 <= i < j < NUM_FINAL_CONSONANT,
    ensures
        (JONG_SUNG[i] as u32) < JONG_SUNG[j] as u32,
    decreases j - i,
{
    assert((JONG_SUNG[i] as u32) < JONG_SUNG[i + 1] as u32);
    if i + 1 < j {
        lemma_tails_increasing(i + 1, j);
    }
}

/// Two syllables with the same component characters are the same syllable.
pub proof fn lemma_components_injective(c: char, d: char)
    requires
        is_syllable(c),
        is_syllable(d),
        components(c) == components(d),
    ensures
        c == d,
{
    let (cl, cv, ct) = decompose(c);
    let (dl, dv, dt) = decompose(d);
    lemma_compose_decompose(c);
    lemma_compose_decompose(d);
    // No table holds a character twice, so the indices are the same.
    lemma_table_ranges(cl, cv, ct);
    lemma_table_ranges(dl, dv, dt);
    if cl < dl {
        lemma_leads_increasing(cl, dl);
    }
    if dl < cl {
        lemma_leads_increasing(dl, cl);
    }
    if ct < dt {
        lemma_tails_increasing(ct, dt);
    }
    if dt < ct {
        lemma_tails_increasing(dt, ct);
    }
    assert(cl == dl && cv == dv && ct == dt);
}

} // verus!
