//! The alphabet of the trie: how a text becomes a sequence of branching keys.
//!
//! A syllable gives the characters of its leading consonant and vowel, then
//! that of its trailing consonant if it has one; any other character gives
//! itself. Insertion and lookup both walk the keys made here, so they cannot
//! disagree on them.

use crate::hangul::{
    components, components_of_syllable, decompose, is_component_char, is_consonant_char,
    is_hangul, is_syllable, is_vowel_char, lemma_components_injective, lemma_compose_decompose,
    lemma_no_final_consonant_is_index_zero, lemma_table_ranges, CHO_SUNG, JONG_SUNG, JUNG_SUNG,
    NO_FINAL_CONSONANT,
};
use vstd::prelude::*;

verus! {

/// The branching keys of one character.
pub open spec fn char_keys(c: char) -> Seq<char> {
    if is_syllable(c) {
        let (lead, vowel, tail) = components(c);
        if tail == NO_FINAL_CONSONANT {
            seq![lead, vowel]
        } else {
            seq![lead, vowel, tail]
        }
    } else {
        seq![c]
    }
}

/// The branching keys of a text: those of its characters, in order.
pub open spec fn branch_keys(text: Seq<char>) -> Seq<char>
    decreases text.len(),
{
    if text.len() == 0 {
        Seq::empty()
    } else {
        branch_keys(text.drop_last()) + char_keys(text.last())
    }
}

/// Appends the branching keys of `c` to `keys`.
pub fn push_char_keys(keys: &mut Vec<char>, c: char)
    ensures
        final(keys)@ == old(keys)@ + char_keys(c),
{
    if is_hangul(c) {
        let (initial_consonant, mid_vowel, final_consonant) = components_of_syllable(c);
        keys.push(initial_consonant);
        keys.push(mid_vowel);
        if final_consonant != NO_FINAL_CONSONANT {
            keys.push(final_consonant);
        }
    } else {
        keys.push(c);
    }
}

/// The branching keys of `word`.
pub fn word_keys(word: &str) -> (keys: Vec<char>)
    ensures
        keys@ == branch_keys(word@),
{
    let mut keys: Vec<char> = Vec::new();
    for c in it: word.chars()
        invariant
            it.seq() == word@,
            keys@ == branch_keys(word@.take(it.index() as int)),
    {
        proof {
            let done = word@.take(it.index() as int);
            let next = word@.take(it.index() + 1);
            assert(next.drop_last() == done);
            assert(next.last() == c);
        }
        push_char_keys(&mut keys, c);
    }
    assert(word@.take(word@.len() as int) == word@);
    keys
}

/// Whether no character of `text` is itself a component character. Such a
/// character would give the key that a syllable gives for that component.
pub open spec fn is_plain(text: Seq<char>) -> bool {
    forall|i: int| 0 <= i < text.len() ==> !is_component_char(#[trigger] text[i])
}

/// A character that is no syllable gives one key, itself. A syllable
/// without a trailing consonant gives two keys, a consonant and a vowel; one
/// with a trailing consonant gives three, the last a consonant again.
pub proof fn lemma_char_keys_shape(c: char)
    ensures
        !is_syllable(c) ==> char_keys(c) == seq![c],
        is_syllable(c) && decompose(c).2 == 0 ==> char_keys(c) == seq![
            CHO_SUNG[decompose(c).0],
            JUNG_SUNG[decompose(c).1],
        ],
        is_syllable(c) && decompose(c).2 != 0 ==> char_keys(c) == seq![
            CHO_SUNG[decompose(c).0],
            JUNG_SUNG[decompose(c).1],
            JONG_SUNG[decompose(c).2],
        ],
        is_syllable(c) ==> is_consonant_char(char_keys(c)[0]) && is_vowel_char(char_keys(c)[1]),
        is_syllable(c) && decompose(c).2 != 0 ==> is_consonant_char(char_keys(c)[2]),
        1 <= char_keys(c).len() <= 3,
{
    if is_syllable(c) {
        let (lead, vowel, tail) = decompose(c);
        lemma_compose_decompose(c);
        lemma_table_ranges(lead, vowel, tail);
        lemma_no_final_consonant_is_index_zero(tail);
    }
}

/// The keys of a text in two parts are the keys of the first part followed
/// by those of the second.
pub proof fn lemma_branch_keys_concat(a: Seq<char>, b: Seq<char>)
    ensures
        branch_keys(a + b) == branch_keys(a) + branch_keys(b),
    decreases b.len(),
{
    if b.len() == 0 {
        assert(a + b =~= a);
    } else {
        lemma_branch_keys_concat(a, b.drop_last());
        assert((a + b).drop_last() =~= a + b.drop_last());
        assert(branch_keys(a) + (branch_keys(b.drop_last()) + char_keys(b.last())) =~= (branch_keys(
            a,
        ) + branch_keys(b.drop_last())) + char_keys(b.last()));
    }
}

/// A text has at least one key for each of its characters and at most
/// three.
pub proof fn lemma_branch_keys_len(text: Seq<char>)
    ensures
        text.len() <= branch_keys(text).len() <= 3 * text.len(),
    decreases text.len(),
{
    if text.len() > 0 {
        lemma_branch_keys_len(text.drop_last());
        lemma_char_keys_shape(text.last());
    }
}

/// Two characters, each a syllable or no component character, whose keys end
/// alike and are the same wherever they are as many, are the same character.
///
/// The last key tells how many there are: it is a vowel for two keys, a
/// consonant for three, and neither for a character that is its own key.
proof fn lemma_same_last_key(c: char, d: char)
    requires
        is_syllable(c) || !is_component_char(c),
        is_syllable(d) || !is_component_char(d),
        char_keys(c).last() == char_keys(d).last(),
        char_keys(c).len() == char_keys(d).len() ==> char_keys(c) == char_keys(d),
    ensures
        c == d,
{
    lemma_char_keys_shape(c);
    lemma_char_keys_shape(d);
    let kc = char_keys(c);
    let kd = char_keys(d);
    assert(kc.len() == kd.len());
    if is_syllable(c) {
        assert(kc[0] == kd[0] && kc[1] == kd[1]);
        if kc.len() == 3 {
            assert(kc[2] == kd[2]);
        }
        lemma_components_injective(c, d);
    } else {
        assert(kc[0] == kd[0]);
    }
}

/// Texts without component characters have the same keys only if they are
/// the same text.
pub proof fn lemma_branch_keys_injective(a: Seq<char>, b: Seq<char>)
    requires
        is_plain(a),
        is_plain(b),
        branch_keys(a) == branch_keys(b),
    ensures
        a == b,
    decreases a.len(),
{
    lemma_branch_keys_len(a);
    lemma_branch_keys_len(b);
    if a.len() > 0 && b.len() > 0 {
        let front_a = branch_keys(a.drop_last());
        let front_b = branch_keys(b.drop_last());
        let kc = char_keys(a.last());
        let kd = char_keys(b.last());
        let all = branch_keys(a);
        lemma_char_keys_shape(a.last());
        lemma_char_keys_shape(b.last());
        assert(kc.last() == all.last() && kd.last() == all.last());
        if kc.len() == kd.len() {
            assert(kc =~= all.subrange(all.len() - kc.len(), all.len() as int));
            assert(kd =~= all.subrange(all.len() - kd.len(), all.len() as int));
        }
        lemma_same_last_key(a.last(), b.last());
        assert(front_a =~= all.subrange(0, front_a.len() as int));
        assert(front_b =~= all.subrange(0, front_b.len() as int));
        lemma_branch_keys_injective(a.drop_last(), b.drop_last());
        assert(a =~= a.drop_last().push(a.last()));
        assert(b =~= b.drop_last().push(b.last()));
    }
}

} // verus!
