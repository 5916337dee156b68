use radix_trie::Trie;
use radix_trie::NibbleVec;
use radix_trie::keys::TaggedKey;

fn k(s: &str) -> Vec<u8> {
    s.as_bytes().to_vec()
}

#[test]
fn empty_trie() {
    let t: Trie<Vec<u8>, u64> = Trie::new();
    assert_eq!(t.len(), 0);
    assert_eq!(t.get(&k("anything")), None);
    assert_eq!(t.get(&k("")), None);
    assert!(t.check_integrity());
}

#[test]
fn insert_then_get() {
    let mut t: Trie<Vec<u8>, u64> = Trie::new();
    assert_eq!(t.insert(k("hello"), 7), None);
    assert_eq!(t.insert(k("help"), 8), None);
    assert_eq!(t.insert(k(""), 9), None);
    assert_eq!(t.get(&k("hello")), Some(&7));
    assert_eq!(t.get(&k("help")), Some(&8));
    assert_eq!(t.get(&k("")), Some(&9));
    assert_eq!(t.get(&k("hel")), None);
    assert_eq!(t.get(&k("helpo")), None);
    assert_eq!(t.len(), 3);
    assert!(t.check_integrity());
}

#[test]
fn overwrite_keeps_length() {
    let mut t: Trie<Vec<u8>, u64> = Trie::new();
    assert_eq!(t.insert(k("key"), 1), None);
    assert_eq!(t.insert(k("key"), 2), Some(1));
    assert_eq!(t.get(&k("key")), Some(&2));
    assert_eq!(t.len(), 1);
    assert!(t.check_integrity());
}

#[test]
fn ancestor_chain() {
    // S2: "a", "ab", "abc"; the ancestor of "abcd" sits at "abc".
    let mut t: Trie<Vec<u8>, u64> = Trie::new();
    t.insert(k("a"), 1);
    t.insert(k("ab"), 2);
    t.insert(k("abc"), 3);
    assert_eq!(t.len(), 3);
    assert_eq!(t.get_ancestor_value(&k("abcd")), Some(&3));
    assert_eq!(t.get_ancestor_value(&k("abc")), Some(&3));
    assert_eq!(t.get_ancestor_value(&k("ab")), Some(&2));
    assert_eq!(t.get_ancestor_value(&k("ax")), Some(&1));
    assert_eq!(t.get_ancestor_value(&k("x")), None);
    let st = t.get_ancestor(&k("abcd")).unwrap();
    // the prefix is the nibble path of "abc": two nibbles per byte
    assert_eq!(st.prefix().len(), 6);
    assert_eq!(st.value(), Some(&3));
    // removing "ab" drops its node: it is compacted into "abc"
    assert_eq!(t.remove(&k("ab")), Some(2));
    assert_eq!(t.len(), 2);
    assert!(t.subtrie(&k("ab")).is_none());
    assert_eq!(t.get(&k("abc")), Some(&3));
    assert_eq!(t.get_ancestor_value(&k("abcd")), Some(&3));
    assert_eq!(t.get_ancestor_value(&k("ab")), Some(&1));
    assert!(t.check_integrity());
}

#[test]
fn split_and_merge() {
    // S3: two keys that diverge right after "ab" share a value-less branch
    // whose path encodes "ab"; removing either merges the branch away.
    // 'c' (0x63) and '#' (0x23) differ in their first nibble, so the split
    // point falls exactly on the byte boundary after "ab".
    let mut t: Trie<Vec<u8>, u64> = Trie::new();
    t.insert(k("abc"), 1);
    t.insert(k("ab#"), 2);
    let st = t.subtrie(&k("ab")).expect("branch node at the shared prefix");
    assert_eq!(st.value(), None);
    assert_eq!(st.prefix().len(), 4);
    // removing one leaf merges the branch into the survivor
    assert_eq!(t.remove(&k("abc")), Some(1));
    assert!(t.subtrie(&k("ab")).is_none());
    assert_eq!(t.get(&k("ab#")), Some(&2));
    assert_eq!(t.len(), 1);
    assert!(t.check_integrity());

    // "abc" and "abd" share the high nibble of their last byte as well, so
    // their branch sits one nibble past "ab" and "ab" itself has no node
    let mut t2: Trie<Vec<u8>, u64> = Trie::new();
    t2.insert(k("abc"), 1);
    t2.insert(k("abd"), 2);
    assert!(t2.subtrie(&k("ab")).is_none());
    assert_eq!(t2.remove(&k("abd")), Some(2));
    assert_eq!(t2.get(&k("abc")), Some(&1));
    assert_eq!(t2.len(), 1);
    assert!(t2.check_integrity());
}

#[test]
fn colliding_encodings() {
    // S4: distinct keys with one encoding occupy one slot.
    let mut t: Trie<TaggedKey, u64> = Trie::new();
    let k1 = TaggedKey { bytes: k("x"), tag: 1 };
    let k2 = TaggedKey { bytes: k("x"), tag: 2 };
    let k3 = TaggedKey { bytes: k("x"), tag: 3 };
    assert_eq!(t.insert(k1, 10), None);
    let k2b = TaggedKey { bytes: k("x"), tag: 2 };
    assert_eq!(t.insert(k2, 20), Some(10));
    assert_eq!(t.len(), 1);
    let k1b = TaggedKey { bytes: k("x"), tag: 1 };
    assert_eq!(t.get(&k1b), None);
    assert_eq!(t.get(&k2b), Some(&20));
    assert_eq!(t.get(&k3), None);
    // a mismatched typed key removes nothing
    assert_eq!(t.remove(&k1b), None);
    assert_eq!(t.len(), 1);
    assert_eq!(t.remove(&k2b), Some(20));
    assert_eq!(t.len(), 0);
    assert!(t.check_integrity());
}

#[test]
fn map_with_default_inserts_then_applies() {
    // S5: on an empty trie the default goes in and the function is unused.
    let mut t: Trie<Vec<u8>, u64> = Trie::new();
    t.map_with_default(k("x"), |_v| panic!("the function must not run on an empty slot"), 5);
    assert_eq!(t.get(&k("x")), Some(&5));
    assert_eq!(t.len(), 1);
    t.map_with_default(k("x"), |v| v + 1, 99);
    assert_eq!(t.get(&k("x")), Some(&6));
    assert_eq!(t.len(), 1);
    assert!(t.check_integrity());
}

#[test]
fn remove_restores_lookups() {
    let mut t: Trie<Vec<u8>, u64> = Trie::new();
    t.insert(k("house"), 1);
    t.insert(k("home"), 2);
    assert_eq!(t.remove(&k("horn")), None);
    assert_eq!(t.len(), 2);
    assert_eq!(t.insert(k("horn"), 3), None);
    assert_eq!(t.remove(&k("horn")), Some(3));
    assert_eq!(t.len(), 2);
    assert_eq!(t.get(&k("house")), Some(&1));
    assert_eq!(t.get(&k("home")), Some(&2));
    assert_eq!(t.get(&k("horn")), None);
    assert!(t.check_integrity());
}

#[test]
fn empty_key_at_root() {
    let mut t: Trie<Vec<u8>, u64> = Trie::new();
    assert_eq!(t.insert(k(""), 42), None);
    assert_eq!(t.len(), 1);
    assert_eq!(t.get(&k("")), Some(&42));
    assert_eq!(t.get_ancestor_value(&k("zz")), Some(&42));
    assert_eq!(t.remove(&k("")), Some(42));
    assert_eq!(t.len(), 0);
    assert!(t.check_integrity());
}

#[test]
fn nibble_vec_operations() {
    // 0xAB splits into the high nibble 10 and the low nibble 11
    let nv = NibbleVec::from_bytes(&vec![0xABu8, 0x05]);
    assert_eq!(nv.len(), 4);
    assert_eq!(nv.get(0), 10);
    assert_eq!(nv.get(1), 11);
    assert_eq!(nv.get(2), 0);
    assert_eq!(nv.get(3), 5);
    let mut a = NibbleVec::new();
    a.push(1);
    a.push(2);
    a.push(3);
    let tail = a.split(1);
    assert_eq!(a.len(), 1);
    assert_eq!(tail.len(), 2);
    assert_eq!(tail.get(0), 2);
    a.join(tail);
    assert_eq!(a.len(), 3);
    assert_eq!(a.get(2), 3);
    let mut b = NibbleVec::new();
    b.push(1);
    b.push(2);
    b.push(7);
    assert_eq!(a.match_count(&b), 2);
    assert_eq!(b.pop(), 7);
    assert_eq!(b.len(), 2);
    assert_eq!(a.match_count(&b), 2);
}

#[test]
fn iterators_cover_entries() {
    let mut t: Trie<Vec<u8>, u64> = Trie::new();
    t.insert(k("a"), 1);
    t.insert(k("ab"), 2);
    t.insert(k("b"), 3);
    let mut keys: Vec<Vec<u8>> = Vec::new();
    let mut it = t.keys();
    loop {
        match it.next() {
            Some(kk) => keys.push(kk.clone()),
            None => break,
        }
    }
    keys.sort();
    assert_eq!(keys, vec![k("a"), k("ab"), k("b")]);
    let mut vals: Vec<u64> = Vec::new();
    let mut iv = t.values();
    loop {
        match iv.next() {
            Some(v) => vals.push(*v),
            None => break,
        }
    }
    vals.sort();
    assert_eq!(vals, vec![1, 2, 3]);
    let mut n = 0usize;
    let mut ie = t.iter();
    loop {
        match ie.next() {
            Some((kk, vv)) => {
                assert_eq!(t.get(kk), Some(vv));
                n += 1;
            },
            None => break,
        }
    }
    assert_eq!(n, t.len());
}

#[test]
fn from_pairs_last_write_wins() {
    let pairs: Vec<(Vec<u8>, u64)> = vec![
        (k("one"), 1),
        (k("two"), 2),
        (k("one"), 3),
    ];
    let t = Trie::from_pairs(pairs);
    assert_eq!(t.get(&k("one")), Some(&3));
    assert_eq!(t.get(&k("two")), Some(&2));
    assert_eq!(t.len(), 2);
    assert!(t.check_integrity());

    let distinct: Vec<(Vec<u8>, u64)> = vec![(k("a"), 1), (k("b"), 2), (k("ab"), 3)];
    let t2 = Trie::from_pairs(distinct);
    assert_eq!(t2.len(), 3);
    assert!(t2.check_integrity());
}

#[test]
fn map_with_default_on_colliding_key() {
    // a different key at the same path counts as absent: the default
    // replaces the colliding pair, without a call to the function
    let mut t: Trie<TaggedKey, u64> = Trie::new();
    t.insert(TaggedKey { bytes: k("x"), tag: 1 }, 10);
    t.map_with_default(
        TaggedKey { bytes: k("x"), tag: 2 },
        |_v| panic!("the function must not run for a mismatched key"),
        5,
    );
    assert_eq!(t.len(), 1);
    assert_eq!(t.get(&TaggedKey { bytes: k("x"), tag: 2 }), Some(&5));
    assert_eq!(t.get(&TaggedKey { bytes: k("x"), tag: 1 }), None);
    assert!(t.check_integrity());
}

#[test]
fn get_mut_writes_in_place() {
    let mut t: Trie<Vec<u8>, u64> = Trie::new();
    t.insert(k("alpha"), 1);
    t.insert(k("beta"), 2);
    match t.get_mut(&k("alpha")) {
        Some(v) => *v = 100,
        None => panic!("the inserted key must be found"),
    }
    assert_eq!(t.get(&k("alpha")), Some(&100));
    assert_eq!(t.get(&k("beta")), Some(&2));
    assert_eq!(t.len(), 2);
    assert!(t.get_mut(&k("gamma")).is_none());
    assert!(t.check_integrity());
}

#[test]
fn value_mut_at_root() {
    let mut t: Trie<Vec<u8>, u64> = Trie::new();
    assert!(t.value_mut().is_none());
    t.insert(k(""), 7);
    match t.value_mut() {
        Some(v) => *v = 8,
        None => panic!("the root value must be present"),
    }
    assert_eq!(t.get(&k("")), Some(&8));
    assert_eq!(t.len(), 1);
    assert!(t.check_integrity());
}
