use mark::corpora::Morpheme;
use mark::pos::PosTag;
use mark::trie::{Trie, TrieNode};

#[test]
fn test_insert_and_search() {
    let mut trie = Trie::new();

    trie.insert("역삼", Some(PosTag::NCN));
    assert_eq!(trie.total(), 6);

    trie.insert("역도", Some(PosTag::NCN));
    assert_eq!(trie.total(), 8);

    trie.insert("역무원", Some(PosTag::NCN));
    assert_eq!(trie.total(), 13);

    trie.insert("역도산", Some(PosTag::NCN));
    assert_eq!(trie.total(), 16);
}

#[test]
fn new_trie_is_empty() {
    let trie = Trie::new();
    assert_eq!(trie.total(), 0);
    assert!(!trie.contains(""));
    assert!(trie.starts_with(""));
    assert!(!trie.contains("가"));
    assert!(!trie.starts_with("가"));
    assert!(!trie.starts_with("a"));
}

#[test]
fn default_trie_is_empty() {
    let trie = Trie::default();
    assert_eq!(trie.total(), 0);
    assert!(!trie.contains(""));
    assert!(trie.starts_with(""));
}

#[test]
fn inserting_again_leaves_the_count() {
    let mut trie = Trie::new();
    let words = ["역삼", "역도", "역무원", "역도산"];
    let mut last = 0;
    for word in words {
        trie.insert(word, Some(PosTag::NCN));
        assert!(trie.total() > last);
        last = trie.total();
    }
    assert_eq!(last, 16);
    for word in words {
        trie.insert(word, Some(PosTag::NCN));
        assert_eq!(trie.total(), 16);
        trie.insert(word, None);
        assert_eq!(trie.total(), 16);
        trie.insert(word, Some(PosTag::NPP));
        assert_eq!(trie.total(), 16);
    }
    for word in words {
        assert!(trie.contains(word));
    }
}

#[test]
fn shared_syllable_is_stored_once() {
    let mut trie = Trie::new();
    trie.insert("역", None);
    assert_eq!(trie.total(), 3);
    trie.insert("역삼", None);
    assert_eq!(trie.total(), 6);
    trie.insert("역사", None);
    // 사 shares ㅅ and ㅏ with 삼.
    assert_eq!(trie.total(), 6);
    trie.insert("여", None);
    // 여 is the start of 역.
    assert_eq!(trie.total(), 6);
    trie.insert("열", None);
    // 열 shares ㅇ and ㅕ with 역.
    assert_eq!(trie.total(), 7);
}

#[test]
fn contains_needs_an_entry_and_starts_with_a_path() {
    let mut trie = Trie::new();
    trie.insert("역삼", Some(PosTag::NCN));
    assert!(trie.contains("역삼"));
    assert!(!trie.contains("역"));
    assert!(trie.starts_with("역"));
    assert!(trie.starts_with("역삼"));
    assert!(!trie.starts_with("역삼동"));
    assert!(!trie.contains(""));
    assert!(trie.starts_with(""));
}

#[test]
fn starts_with_follows_the_components() {
    let mut trie = Trie::new();
    trie.insert("역삼", None);
    // 여 has the first two keys of 역.
    assert!(trie.starts_with("여"));
    assert!(trie.starts_with("역사"));
    assert!(!trie.starts_with("열"));
    assert!(!trie.starts_with("약"));
    assert!(!trie.contains("여"));
    assert!(!trie.contains("역사"));
}

#[test]
fn what_was_never_inserted_is_not_found() {
    let mut trie = Trie::new();
    trie.insert("역삼", Some(PosTag::NCN));
    trie.insert("역도", Some(PosTag::NCN));
    assert!(!trie.contains("강남"));
    assert!(!trie.starts_with("강남"));
    assert!(!trie.starts_with("강"));
    assert!(!trie.contains("abc"));
    assert!(!trie.contains("삼역"));
    assert!(!trie.contains("역삼역"));
    assert!(!trie.contains("도"));
    assert!(!trie.starts_with("도"));
}

#[test]
fn queries_do_not_change_the_trie() {
    let mut trie = Trie::new();
    trie.insert("역삼", None);
    assert!(!trie.contains("강남"));
    assert!(!trie.starts_with("역도산"));
    assert_eq!(trie.total(), 6);
    assert!(!trie.contains("강남"));
    assert!(!trie.starts_with("역도"));
}

#[test]
fn syllable_without_trailing_consonant_takes_two_nodes() {
    let mut trie = Trie::new();
    trie.insert("가", None);
    assert_eq!(trie.total(), 2);
    assert!(trie.contains("가"));
    assert!(trie.starts_with("가"));

    let mut trie = Trie::new();
    trie.insert("국가", Some(PosTag::NCN));
    // 국: 3 nodes, 가: 2 nodes.
    assert_eq!(trie.total(), 5);
    assert!(trie.starts_with("국가"));
    assert!(trie.contains("국가"));
    assert!(!trie.contains("국각"));
    assert!(!trie.starts_with("국각"));
}

#[test]
fn syllable_with_trailing_consonant_takes_three_nodes() {
    let mut trie = Trie::new();
    trie.insert("각", None);
    assert_eq!(trie.total(), 3);
    assert!(trie.contains("각"));
    assert!(trie.starts_with("가"));
    assert!(!trie.contains("가"));
}

#[test]
fn mixed_text_takes_one_node_per_other_character() {
    let mut trie = Trie::new();
    trie.insert("a가1각b", Some(PosTag::F));
    // a: 1, 가: 2, 1: 1, 각: 3, b: 1
    assert_eq!(trie.total(), 8);
    assert!(trie.contains("a가1각b"));
    assert!(!trie.contains("a가1각"));
    assert!(!trie.contains("a가1가b"));
    assert!(!trie.contains("a각1각b"));
    assert!(!trie.contains("A가1각b"));
    assert!(!trie.contains("가1각b"));
    assert!(trie.starts_with("a가1"));
    assert!(trie.starts_with("a가1가"));
    assert!(!trie.starts_with("a가2"));
}

#[test]
fn other_characters_are_counted_once() {
    let mut trie = Trie::new();
    trie.insert("abc", None);
    assert_eq!(trie.total(), 3);
    trie.insert("abd", None);
    assert_eq!(trie.total(), 4);
    trie.insert("abc", None);
    assert_eq!(trie.total(), 4);
    trie.insert("ab", None);
    assert_eq!(trie.total(), 4);
    assert!(trie.contains("ab"));
    assert!(trie.contains("abc"));
    assert!(trie.contains("abd"));
    assert!(!trie.contains("a"));
}

#[test]
fn empty_text_ends_at_the_root() {
    let mut trie = Trie::new();
    trie.insert("", Some(PosTag::SY));
    assert_eq!(trie.total(), 0);
    assert!(trie.contains(""));
    assert!(trie.starts_with(""));
    assert!(!trie.contains("가"));
    trie.insert("가", None);
    assert!(trie.contains(""));
    assert!(trie.contains("가"));
}

#[test]
fn raw_component_characters_walk_the_path_of_a_syllable() {
    let mut trie = Trie::new();
    trie.insert("가", None);
    assert!(trie.starts_with("ㄱ"));
    assert!(trie.contains("ㄱㅏ"));
    assert_eq!(trie.total(), 2);
}

#[test]
fn many_entries() {
    let mut trie = Trie::new();
    let mut expected = 0;
    for code in 44032u32..44032 + 588 {
        let word: String = char::from_u32(code).into_iter().collect();
        trie.insert(&word, None);
    }
    // One leading consonant, 21 vowels below it, 27 trailing consonants
    // below each vowel.
    expected += 1 + 21 + 21 * 27;
    assert_eq!(trie.total(), expected);
    for code in 44032u32..44032 + 588 {
        let word: String = char::from_u32(code).into_iter().collect();
        assert!(trie.contains(&word));
    }
    assert!(!trie.contains("까"));
    assert!(!trie.starts_with("까"));
}

#[test]
fn nodes_can_be_made() {
    let plain = TrieNode::default();
    let shown = format!("{:?}", plain);
    assert!(shown.contains("is_end: false"));
    assert!(shown.contains("tag: None"));
    assert!(shown.contains("children: {}"));

    let ending = TrieNode::new(true, Some(PosTag::NCN));
    let shown = format!("{:?}", ending);
    assert!(shown.contains("is_end: true"));
    assert!(shown.contains("tag: Some(NCN)"));
    assert!(shown.contains("children: {}"));

    let inner = TrieNode::new(false, None);
    assert_eq!(format!("{:?}", inner), format!("{:?}", TrieNode::default()));
}

#[test]
fn tags_compare_and_copy() {
    let tag = PosTag::NCN;
    let copy = tag;
    assert_eq!(tag, copy);
    assert_ne!(PosTag::NCN, PosTag::NPP);
    assert_eq!(format!("{:?}", PosTag::XSN), "XSN");
}

#[test]
fn morpheme_holds_its_fields() {
    let morpheme = Morpheme {
        term: String::from("먹었다"),
        tag: String::from("Verb"),
        category: Some(String::from("Predicate")),
    };
    assert_eq!(morpheme.term, "먹었다");
    assert_eq!(morpheme.tag, "Verb");
    assert_eq!(morpheme.category.as_deref(), Some("Predicate"));
    assert!(format!("{:?}", morpheme).contains("Verb"));
}
