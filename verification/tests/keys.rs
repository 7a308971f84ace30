use mark::keys::{push_char_keys, word_keys};

#[test]
fn syllable_without_trailing_consonant_gives_two_keys() {
    assert_eq!(word_keys("가"), vec!['ㄱ', 'ㅏ']);
    assert_eq!(word_keys("놔"), vec!['ㄴ', 'ㅘ']);
}

#[test]
fn syllable_with_trailing_consonant_gives_three_keys() {
    assert_eq!(word_keys("각"), vec!['ㄱ', 'ㅏ', 'ㄱ']);
    assert_eq!(word_keys("밝"), vec!['ㅂ', 'ㅏ', 'ㄺ']);
    assert_eq!(word_keys("힣"), vec!['ㅎ', 'ㅣ', 'ㅎ']);
}

#[test]
fn other_characters_give_themselves() {
    assert_eq!(word_keys("a"), vec!['a']);
    assert_eq!(word_keys("1!"), vec!['1', '!']);
    assert_eq!(word_keys("\0"), vec!['\0']);
    assert_eq!(word_keys("漢"), vec!['漢']);
}

#[test]
fn empty_text_gives_no_key() {
    assert_eq!(word_keys(""), Vec::<char>::new());
}

#[test]
fn keys_of_a_word_are_those_of_its_characters_in_order() {
    assert_eq!(
        word_keys("역삼"),
        vec!['ㅇ', 'ㅕ', 'ㄱ', 'ㅅ', 'ㅏ', 'ㅁ']
    );
    assert_eq!(
        word_keys("a가1각"),
        vec!['a', 'ㄱ', 'ㅏ', '1', 'ㄱ', 'ㅏ', 'ㄱ']
    );
}

#[test]
fn keys_of_a_text_in_two_parts() {
    let mut both = word_keys("역도");
    both.extend(word_keys("산a"));
    assert_eq!(word_keys("역도산a"), both);
}

#[test]
fn push_char_keys_appends() {
    let mut keys = vec!['x'];
    push_char_keys(&mut keys, '안');
    assert_eq!(keys, vec!['x', 'ㅇ', 'ㅏ', 'ㄴ']);
    push_char_keys(&mut keys, '가');
    assert_eq!(keys, vec!['x', 'ㅇ', 'ㅏ', 'ㄴ', 'ㄱ', 'ㅏ']);
    push_char_keys(&mut keys, '7');
    assert_eq!(keys, vec!['x', 'ㅇ', 'ㅏ', 'ㄴ', 'ㄱ', 'ㅏ', '7']);
}

#[test]
fn key_count_lies_between_one_and_three_per_character() {
    let text = "한글 trie 2개";
    let chars = text.chars().count();
    let keys = word_keys(text).len();
    assert!(chars <= keys && keys <= 3 * chars);
    // 한: 3, 글: 3, ' ': 1, t r i e: 4, ' ': 1, 2: 1, 개: 2
    assert_eq!(keys, 15);
}

#[test]
fn raw_component_characters_give_the_keys_of_a_syllable() {
    assert_eq!(word_keys("ㄱㅏ"), word_keys("가"));
}

#[test]
fn plain_texts_with_the_same_keys_are_the_same() {
    let texts = [
        "가가", "각아", "가강", "각", "가", "a가", "가a", "강아지", "가앚이",
    ];
    for a in texts {
        for b in texts {
            assert_eq!(word_keys(a) == word_keys(b), a == b);
        }
    }
}
