use r4::trie::NameTrie;

fn sample() -> NameTrie<u32> {
    let mut t: NameTrie<u32> = NameTrie::default();
    t.insert("key", 1);
    t.insert("keys", 2);
    t.insert("kv", 3);
    t.insert("other", 4);
    t
}

#[test]
fn trie_exact_name_wins_over_longer() {
    let t = sample();
    let r: Vec<u32> = t.get("key").into_iter().copied().collect();
    assert_eq!(r, vec![1]);
}

#[test]
fn trie_unique_prefix() {
    let t = sample();
    let r: Vec<u32> = t.get("o").into_iter().copied().collect();
    assert_eq!(r, vec![4]);
    let r: Vec<u32> = t.get("kv").into_iter().copied().collect();
    assert_eq!(r, vec![3]);
}

#[test]
fn trie_ambiguous_prefix_gives_all() {
    let t = sample();
    let mut r: Vec<u32> = t.get("k").into_iter().copied().collect();
    r.sort();
    assert_eq!(r, vec![1, 2, 3]);
}

#[test]
fn trie_unknown_name() {
    let t = sample();
    assert!(t.get("x").is_empty());
    assert!(t.get("keyz").is_empty());
}

#[test]
fn trie_contains() {
    let t = sample();
    assert!(t.contains("keys"));
    assert!(!t.contains("ke"));
    assert!(!t.contains(""));
}

#[test]
fn trie_empty_name_filed() {
    let mut t: NameTrie<u32> = NameTrie::default();
    t.insert("", 7);
    t.insert("a", 8);
    let r: Vec<u32> = t.get("").into_iter().copied().collect();
    assert_eq!(r, vec![7]);
}
