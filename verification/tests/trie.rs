use radix_forest::trie::Trie;

#[test]
fn insert_into_empty_trie_makes_one_node() {
    let mut t: Trie<&str> = Trie::new();
    assert!(t.root().is_none());
    t.insert(&[999], "a");
    let root = t.root().unwrap();
    assert_eq!(root.label(), [999]);
    assert_eq!(root.value(), Some(&"a"));
    assert!(root.child().is_none());
    assert!(root.sibling().is_none());
}

#[test]
fn insert_split_leaves_branch_without_value() {
    let mut t: Trie<char> = Trie::new();
    t.insert(&[3, 137, 2], 'x');
    t.insert(&[3, 137, 99, 22], 'y');
    let root = t.root().unwrap();
    assert_eq!(root.label(), [3, 137]);
    assert_eq!(root.value(), None);
    assert!(root.sibling().is_none());
    let first = root.child().unwrap();
    assert_eq!(first.label(), [2]);
    assert_eq!(first.value(), Some(&'x'));
    assert!(first.child().is_none());
    let second = first.sibling().unwrap();
    assert_eq!(second.label(), [99, 22]);
    assert_eq!(second.value(), Some(&'y'));
    assert!(second.child().is_none());
    assert!(second.sibling().is_none());
}

#[test]
fn insert_key_that_ends_inside_a_label_cuts_the_label() {
    let mut t: Trie<u8> = Trie::new();
    t.insert(&[3, 137, 2], 1);
    t.insert(&[3, 137], 2);
    let root = t.root().unwrap();
    assert_eq!(root.label(), [3, 137]);
    assert_eq!(root.value(), Some(&2));
    let below = root.child().unwrap();
    assert_eq!(below.label(), [2]);
    assert_eq!(below.value(), Some(&1));
    assert!(below.sibling().is_none());
    assert_eq!(t.find(&[3, 137]).unwrap().value(), Some(&2));
    assert_eq!(t.find(&[3, 137, 2]).unwrap().value(), Some(&1));
}

#[test]
fn insert_same_key_overwrites() {
    let mut t: Trie<u8> = Trie::new();
    t.insert(&[1, 2], 10);
    t.insert(&[1, 2], 20);
    let root = t.root().unwrap();
    assert_eq!(root.label(), [1, 2]);
    assert_eq!(root.value(), Some(&20));
    assert!(root.child().is_none());
    assert!(root.sibling().is_none());
}

#[test]
fn insert_below_existing_node_goes_to_child_chain() {
    let mut t: Trie<u8> = Trie::new();
    t.insert(&[3], 1);
    t.insert(&[3, 137], 2);
    t.insert(&[3, 138], 3);
    let root = t.root().unwrap();
    assert_eq!(root.label(), [3]);
    let a = root.child().unwrap();
    assert_eq!(a.label(), [137]);
    assert_eq!(a.value(), Some(&2));
    let b = a.sibling().unwrap();
    assert_eq!(b.label(), [138]);
    assert_eq!(b.value(), Some(&3));
}

#[test]
fn round_trip_with_unrelated_keys_in_between() {
    let mut t: Trie<u32> = Trie::new();
    t.insert(&[8, 5, 1, 3], 100);
    t.insert(&[6, 2, 4, 7], 200);
    t.insert(&[8, 6, 2], 300);
    t.insert(&[8, 5], 400);
    t.insert(&[1], 500);
    assert_eq!(t.find(&[8, 5, 1, 3]).unwrap().value(), Some(&100));
    assert_eq!(t.find(&[6, 2, 4, 7]).unwrap().value(), Some(&200));
    assert_eq!(t.find(&[8, 6, 2]).unwrap().value(), Some(&300));
    assert_eq!(t.find(&[8, 5]).unwrap().value(), Some(&400));
    assert_eq!(t.find(&[1]).unwrap().value(), Some(&500));
    // the branching point that the splits made holds no value
    assert_eq!(t.find(&[8]).unwrap().value(), None);
}

#[test]
fn find_is_exact() {
    let mut t: Trie<u8> = Trie::new();
    t.insert(&[3, 137], 1);
    t.insert(&[3, 137, 137], 2);
    assert!(t.find(&[3]).is_none());
    assert!(t.find(&[3, 137, 137, 137]).is_none());
    assert!(t.find(&[3, 138]).is_none());
    assert!(t.find(&[999]).is_none());
    assert!(t.find(&[3, 137]).is_some());
}

#[test]
fn empty_key_is_never_stored_nor_found() {
    let mut t: Trie<u8> = Trie::new();
    assert!(t.find(&[]).is_none());
    t.insert(&[], 1);
    assert!(t.root().is_none());
    assert!(t.find(&[]).is_none());
    t.insert(&[4], 2);
    t.insert(&[], 3);
    let root = t.root().unwrap();
    assert_eq!(root.label(), [4]);
    assert_eq!(root.value(), Some(&2));
    assert!(root.sibling().is_none());
    assert!(t.find(&[]).is_none());
}

#[test]
fn count_with_shared_prefix() {
    let mut t: Trie<u32> = Trie::new();
    t.insert_and_count(&[3, 137, 2]);
    t.insert_and_count(&[3, 137, 99, 2]);
    let root = t.root().unwrap();
    assert_eq!(root.label(), [3, 137]);
    assert_eq!(root.value(), Some(&2));
    let first = root.child().unwrap();
    assert_eq!(first.label(), [2]);
    assert_eq!(first.value(), Some(&1));
    let second = first.sibling().unwrap();
    assert_eq!(second.label(), [99, 2]);
    assert_eq!(second.value(), Some(&1));
    assert!(second.sibling().is_none());
}

#[test]
fn count_same_key_n_times() {
    let mut t: Trie<u32> = Trie::new();
    for _ in 0..5 {
        t.insert_and_count(&[7, 7, 1]);
    }
    t.insert_and_count(&[9]);
    assert_eq!(t.find(&[7, 7, 1]).unwrap().value(), Some(&5));
    assert_eq!(t.find(&[9]).unwrap().value(), Some(&1));
}

#[test]
fn count_key_that_ends_inside_a_label() {
    let mut t: Trie<u32> = Trie::new();
    t.insert_and_count(&[3, 137, 2]);
    t.insert_and_count(&[3, 137, 2]);
    t.insert_and_count(&[3, 137]);
    let root = t.root().unwrap();
    assert_eq!(root.label(), [3, 137]);
    assert_eq!(root.value(), Some(&3));
    let below = root.child().unwrap();
    assert_eq!(below.label(), [2]);
    assert_eq!(below.value(), Some(&2));
    assert!(below.sibling().is_none());
}

#[test]
fn count_empty_key_counts_nothing() {
    let mut t: Trie<u32> = Trie::new();
    t.insert_and_count(&[]);
    assert!(t.root().is_none());
    t.insert_and_count(&[5]);
    t.insert_and_count(&[]);
    assert_eq!(t.root().unwrap().value(), Some(&1));
    assert!(t.root().unwrap().sibling().is_none());
}

fn keys() -> Vec<Vec<u32>> {
    vec![
        vec![8, 5, 1, 3],
        vec![6, 2, 4, 7],
        vec![8, 6, 2, 5, 4, 1],
        vec![2, 8, 4, 0, 7],
        vec![8, 6, 2, 0],
        vec![6, 8, 4, 1],
        vec![8, 5, 0],
        vec![8, 6, 5, 0, 3],
        vec![8, 2],
        vec![1, 7],
    ]
}

#[test]
fn every_count_is_the_number_of_keys_that_start_with_the_path() {
    let mut t: Trie<u32> = Trie::new();
    for k in keys() {
        t.insert_and_count(&k);
    }
    for k in keys() {
        for n in 1..=k.len() {
            let q = &k[..n];
            let expected = keys().iter().filter(|other| other.starts_with(q)).count() as u32;
            if let Some(node) = t.find(q) {
                assert_eq!(node.value(), Some(&expected));
            }
        }
        assert!(t.find(&k).is_some());
    }
    assert_eq!(t.find(&[8]).unwrap().value(), Some(&6));
    assert_eq!(t.find(&[8, 6]).unwrap().value(), Some(&3));
    assert_eq!(t.find(&[8, 6, 2]).unwrap().value(), Some(&2));
    assert_eq!(t.find(&[6]).unwrap().value(), Some(&2));
}

fn siblings_are_apart<T>(node: Option<&radix_forest::trie::TrieNode<T>>) -> bool {
    let mut firsts: Vec<u32> = Vec::new();
    let mut cur = node;
    while let Some(n) = cur {
        if n.label().is_empty() || firsts.contains(&n.label()[0]) {
            return false;
        }
        firsts.push(n.label()[0]);
        if !siblings_are_apart(n.child()) {
            return false;
        }
        cur = n.sibling();
    }
    true
}

#[test]
fn sibling_labels_never_share_a_prefix() {
    let mut counted: Trie<u32> = Trie::new();
    let mut stored: Trie<usize> = Trie::new();
    for (i, k) in keys().iter().enumerate() {
        counted.insert_and_count(k);
        stored.insert(k, i);
        assert!(siblings_are_apart(counted.root()));
        assert!(siblings_are_apart(stored.root()));
    }
}
