//! Workload tests over generated key sets: short keys over a small
//! alphabet, most of them extensions of earlier ones, inserted and removed
//! against a plain map as the oracle.

use std::collections::HashMap;
use std::collections::HashSet;
use radix_trie::Trie;

const MAX_KEYS: usize = 512;
const KEY_RUN_LEN: usize = 8;
const KEY_MAX_VAL: u8 = 4;

struct Gen(u64);

impl Gen {
    fn next(&mut self) -> u64 {
        self.0 = self.0.wrapping_mul(6364136223846793005).wrapping_add(1442695040888963407);
        self.0 >> 33
    }
}

fn arbitrary_key(g: &mut Gen) -> Vec<u8> {
    let len = (g.next() as usize) % KEY_RUN_LEN;
    let mut key = Vec::with_capacity(len);
    for _ in 0..len {
        key.push((g.next() as u8) % KEY_MAX_VAL);
    }
    key
}

fn random_keys(seed: u64) -> HashSet<Vec<u8>> {
    let mut g = Gen(seed);
    let num_keys = (g.next() as usize) % MAX_KEYS;
    let mut keys: Vec<Vec<u8>> = Vec::with_capacity(num_keys + 1);
    keys.push(arbitrary_key(&mut g));
    for _ in 0..num_keys {
        match (g.next() as u8) % 10 {
            1 => keys.push(arbitrary_key(&mut g)),
            _ => {
                let i = (g.next() as usize) % keys.len();
                let mut key = keys[i].clone();
                key.extend(arbitrary_key(&mut g));
                keys.push(key);
            },
        }
    }
    keys.into_iter().collect()
}

fn length_trie(keys: &HashSet<Vec<u8>>) -> Trie<Vec<u8>, usize> {
    let mut t = Trie::new();
    for k in keys {
        let len = k.len();
        t.insert(k.clone(), len);
    }
    t
}

fn collect_keys(t: &Trie<Vec<u8>, usize>) -> Vec<Vec<u8>> {
    let mut out = Vec::new();
    let mut it = t.keys();
    loop {
        match it.next() {
            Some(k) => out.push(k.clone()),
            None => break,
        }
    }
    out
}

fn collect_values(t: &Trie<Vec<u8>, usize>) -> Vec<usize> {
    let mut out = Vec::new();
    let mut it = t.values();
    loop {
        match it.next() {
            Some(v) => out.push(*v),
            None => break,
        }
    }
    out
}

#[test]
fn insert_all_remove_all() {
    for seed in [1u64, 7, 99] {
        let keys = random_keys(seed);
        let mut trie: Trie<Vec<u8>, usize> = Trie::new();
        let mut length = 0usize;

        for k in &keys {
            assert!(trie.insert(k.clone(), k.len()).is_none());
            length += 1;
            assert_eq!(trie.len(), length);
        }

        assert!(trie.check_integrity());

        for k in &keys {
            assert_eq!(trie.get(k), Some(&k.len()));
            assert_eq!(trie.remove(k), Some(k.len()));
            length -= 1;
            assert_eq!(trie.len(), length);
            assert!(trie.get(k).is_none());
        }
        assert!(trie.check_integrity());
        assert_eq!(trie.len(), 0);
    }
}

#[test]
fn get_node() {
    for seed in [3u64, 41] {
        let keys = random_keys(seed);
        let all: Vec<Vec<u8>> = keys.iter().cloned().collect();
        let half = all.len() / 2;
        let mut trie: Trie<Vec<u8>, usize> = Trie::new();
        for k in all.iter().take(half) {
            trie.insert(k.clone(), k.len());
        }

        // inserted keys have a node bearing their value
        for k in all.iter().take(half) {
            match trie.subtrie(k) {
                Some(node) => assert_eq!(node.value(), Some(&k.len())),
                None => panic!("a node for an inserted key is missing"),
            }
        }

        // nodes reached by non-inserted keys bear no value
        for k in all.iter().skip(half) {
            if let Some(node) = trie.subtrie(k) {
                assert!(node.value().is_none());
            }
        }
    }
}

#[test]
fn keys_iter() {
    for seed in [5u64, 23] {
        let keys = random_keys(seed);
        let trie = length_trie(&keys);
        let trie_keys: HashSet<Vec<u8>> = collect_keys(&trie).into_iter().collect();
        assert_eq!(trie_keys, keys);
    }
}

#[test]
fn values_iter() {
    for seed in [11u64, 60] {
        let keys = random_keys(seed);
        let trie = length_trie(&keys);
        let mut trie_values: HashMap<usize, u64> = HashMap::new();
        for v in collect_values(&trie) {
            *trie_values.entry(v).or_insert(0) += 1;
        }
        let mut key_values: HashMap<usize, u64> = HashMap::new();
        for k in keys {
            *key_values.entry(k.len()).or_insert(0) += 1;
        }
        assert_eq!(trie_values, key_values);
    }
}

#[test]
fn random_workload() {
    // random inserts and removals over short keys from the alphabet {0..3},
    // mirrored against a plain map, with the invariants checked throughout
    let mut g = Gen(2024);
    let mut trie: Trie<Vec<u8>, usize> = Trie::new();
    let mut oracle: HashMap<Vec<u8>, usize> = HashMap::new();
    let mut pool: Vec<Vec<u8>> = Vec::new();
    pool.push(Vec::new());
    for step in 0..600usize {
        let mut key: Vec<u8> = if pool.is_empty() {
            Vec::new()
        } else {
            pool[(g.next() as usize) % pool.len()].clone()
        };
        if (g.next() % 2) == 0 && key.len() < 16 {
            key.push((g.next() as u8) % KEY_MAX_VAL);
        }
        pool.push(key.clone());
        if (g.next() % 3) == 0 {
            assert_eq!(trie.remove(&key), oracle.remove(&key));
        } else {
            assert_eq!(trie.insert(key.clone(), step), oracle.insert(key.clone(), step));
        }
        assert_eq!(trie.len(), oracle.len());
        assert_eq!(trie.get(&key), oracle.get(&key));
        if step % 50 == 0 {
            assert!(trie.check_integrity());
        }
    }
    assert!(trie.check_integrity());
    let trie_keys: HashSet<Vec<u8>> = collect_keys(&trie).into_iter().collect();
    let oracle_keys: HashSet<Vec<u8>> = oracle.keys().cloned().collect();
    assert_eq!(trie_keys, oracle_keys);
    for k in &oracle_keys {
        // the deepest value-bearing prefix of an extension of a stored key
        let mut ext = k.clone();
        ext.push(0);
        ext.push(1);
        assert!(trie.get_ancestor_value(&ext).is_some());
    }
}
