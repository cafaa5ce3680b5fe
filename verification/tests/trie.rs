use unicode_text::trie::{Trie, TrieMatch};

#[test]
fn test_trie_get() {
    let trie = Trie::from_kvs(vec![(vec![0x0, 0xFF], "Cas"), (vec![0xABC, 0xDEF], "Luna")]);
    assert_eq!(trie.get(&vec![0x0, 0xFF]), TrieMatch::Match("Cas"));
    assert_eq!(trie.get(&vec![0xABC, 0xDEF]), TrieMatch::Match("Luna"));

    assert_eq!(trie.get(&vec![0x0]), TrieMatch::PartialMatch);
    assert_eq!(trie.get(&vec![0xABC]), TrieMatch::PartialMatch);

    assert_eq!(trie.get(&vec![0xDEF]), TrieMatch::NoMatch);
}

#[test]
fn test_trie_empty() {
    let trie: Trie<u8> = Trie::from_kvs(vec![]);
    assert_eq!(trie.get(&vec![]), TrieMatch::NoMatch);
    assert_eq!(trie.get(&vec![0x41]), TrieMatch::NoMatch);
}

#[test]
fn test_trie_prefixes() {
    let trie = Trie::from_kvs(vec![
        (vec![1, 2, 3], 10u8),
        (vec![1, 2], 20u8),
        (vec![1, 4], 30u8),
        (vec![], 40u8),
    ]);
    assert_eq!(trie.get(&vec![]), TrieMatch::Match(40));
    assert_eq!(trie.get(&vec![1]), TrieMatch::PartialMatch);
    assert_eq!(trie.get(&vec![1, 2]), TrieMatch::Match(20));
    assert_eq!(trie.get(&vec![1, 2, 3]), TrieMatch::Match(10));
    assert_eq!(trie.get(&vec![1, 2, 3, 4]), TrieMatch::NoMatch);
    assert_eq!(trie.get(&vec![1, 3]), TrieMatch::NoMatch);
    assert_eq!(trie.get(&vec![1, 4]), TrieMatch::Match(30));
    assert_eq!(trie.get(&vec![2]), TrieMatch::NoMatch);
}

#[test]
fn test_trie_later_pair_stays() {
    let trie = Trie::from_kvs(vec![(vec![7, 8], "first"), (vec![7, 8], "second")]);
    assert_eq!(trie.get(&vec![7, 8]), TrieMatch::Match("second"));
    assert_eq!(trie.find(&vec![7, 8]), TrieMatch::Match(&"second"));
    assert_eq!(trie.find(&vec![7]), TrieMatch::PartialMatch);
}
