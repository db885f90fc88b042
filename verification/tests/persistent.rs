use radix_forest::node::Node;
use radix_forest::tree::Tree;

#[test]
fn test_common_prefix_empty() {
    assert!(Node::new(vec![3u32, 137u32, 2u32], (), 0).common_prefix(&[]) == 0);
}

#[test]
fn test_common_prefix_short() {
    assert!(
        Node::new(vec![3u32, 137u32, 2u32], (), 0).common_prefix(&vec![3u32, 137u32, 8u32, 2u32])
            == 2
    );
}

#[test]
fn test_find_empty() {
    let t = Tree::new();
    assert!(t.find(&[]).is_none());
    assert!(t.find(&vec![3u32, 137u32, 2u32]).is_none());
}

fn sample_tree() -> Tree {
    let t = Tree::new();
    let t = t.append(&vec![3u32, 137u32]);
    let t = t.append(&vec![3u32, 137u32, 137u32]);
    t.append(&vec![1u32, 2u32, 9u32])
}

#[test]
fn test_sample_tree_nodeindex() {
    let ref t = sample_tree();
    let ni = t.index();
    println!("node index: {:?}", ni);
    assert!(ni.len() == 5);
    let nodes_3 = ni.get(3).unwrap();
    assert!(nodes_3.len() == 1);
    let n1 = t.find(&vec![3u32, 137u32]).unwrap();
    println!("n1: {:?}", n1);
    assert!(nodes_3.contains(&n1.id()));
}

#[test]
fn test_find_simple() {
    assert!(sample_tree().find(&vec![3u32, 137u32]).unwrap().value() == Some(&2));
}

#[test]
fn test_find_child() {
    assert!(sample_tree().find(&vec![3u32, 137u32, 137u32]).unwrap().value() == Some(&1));
}

#[test]
fn test_find_sibling() {
    assert!(sample_tree().find(&vec![1u32, 2u32, 9u32]).unwrap().value() == Some(&1));
}

#[test]
fn test_find_missing() {
    assert!(sample_tree().find(&vec![999u32]).is_none());
}

#[test]
fn test_find_shorter() {
    assert!(sample_tree().find(&vec![3u32]).is_none());
}

#[test]
fn test_find_longer() {
    assert!(sample_tree().find(&vec![3u32, 137u32, 137u32, 137u32]).is_none());
}

#[test]
fn test_insert_empty() {
    let t = Tree::new();
    let t = t.append(&vec![999u32]);
    let root = t.root().unwrap();
    assert!(root.label() == vec![999u32]);
    assert!(root.value() == Some(&1));
    assert!(root.child().is_none());
    assert!(root.sibling().is_none());
}

#[test]
fn test_insert_append() {
    let t = Tree::new();
    let t = t.append(&vec![3u32]);
    let t = t.append(&vec![3u32, 137u32]);
    let t = t.append(&vec![3u32, 137u32, 2u32]);
    let foo = t.root().unwrap();
    assert!(foo.label() == vec![3u32]);
    assert!(foo.value() == Some(&3));
    assert!(foo.sibling().is_none());
    let bar = foo.child().unwrap();
    assert!(bar.label() == vec![137u32]);
    assert!(bar.value() == Some(&2));
    assert!(bar.sibling().is_none());
    let baz = bar.child().unwrap();
    assert!(baz.label() == vec![2u32]);
    assert!(baz.value() == Some(&1));
    assert!(baz.child().is_none());
    assert!(baz.sibling().is_none());
}

#[test]
fn test_insert_sibling() {
    let t = Tree::new();
    let t = t.append(&vec![987u32]);
    let t = t.append(&vec![654u32]);
    let t = t.append(&vec![321u32]);
    let foo = t.root().unwrap();
    assert!(foo.label() == vec![987u32]);
    assert!(foo.value() == Some(&1));
    assert!(foo.child().is_none());
    let bar = foo.sibling().unwrap();
    assert!(bar.label() == vec![654u32]);
    assert!(bar.value() == Some(&1));
    assert!(bar.child().is_none());
    let quux = bar.sibling().unwrap();
    assert!(quux.label() == vec![321u32]);
    assert!(quux.value() == Some(&1));
    assert!(quux.child().is_none());
    assert!(quux.sibling().is_none());
}

#[test]
fn test_insert_split() {
    let t = Tree::new();
    let t = t.append(&vec![3u32, 137u32, 2u32]);
    println!("test_insert_split/pre: {:?}", t);
    let t = t.append(&vec![3u32, 137u32, 99u32, 22u32]);
    println!("test_insert_split/post: {:?}", t);
    let root = t.root().unwrap();
    assert!(root.label() == vec![3u32, 137u32]);
    assert!(root.value() == Some(&2));
    assert!(root.sibling().is_none());
    let foo = root.child().unwrap();
    assert!(foo.label() == vec![2u32]);
    assert!(foo.value() == Some(&1));
    assert!(foo.child().is_none());
    let bar = foo.sibling().unwrap();
    assert!(bar.label() == vec![99u32, 22u32]);
    assert!(bar.value() == Some(&1));
    assert!(bar.sibling().is_none());
    assert!(bar.child().is_none());
}

#[test]
fn test_fmt_debug() {
    println!("{:?}", sample_tree());
}

#[test]
fn test_insert_twice() {
    let t = Tree::new();
    let t = t.append(&vec![3u32, 137u32, 2u32]);
    let t = t.append(&vec![3u32, 137u32, 2u32]);
    let root = t.root().unwrap();
    assert!(root.label() == vec![3u32, 137u32, 2u32]);
    assert!(root.value() == Some(&2));
    assert!(root.sibling().is_none());
}

fn sample_apriori_tree() -> Tree {
    let t: Tree = Tree::new();
    // total counts are (ordered desc.) [all input vecs in this order]
    // 8: 8 times, 6: 5 times, 2: 5 times, 9: 4 times, 5: 4 times,
    // 4: 4 times, 1: 4 times, 0: 4 times, 7: 3 times, 3: 2 times
    println!("NEW Apriori sample tree:\n{:?}", t);
    let t = t.append(&vec![8, 5, 1, 3]);
    println!("+ [8, 5, 1, 3] => {:?}", t);
    let t = t.append(&vec![6, 2, 4, 7]);
    println!("+ [6, 2, 4, 7] => {:?}", t);
    let t = t.append(&vec![8, 6, 2, 5, 4, 1]);
    println!("+ [8, 6, 2, 5, 4, 1] => {:?}", t);
    let t = t.append(&vec![2, 8, 4, 0, 7]);
    println!("+ [2, 8, 4, 0, 7] => {:?}", t);
    let t = t.append(&vec![8, 6, 2, 0]);
    println!("+ [8, 6, 2, 0] => {:?}", t);
    let t = t.append(&vec![6, 8, 4, 1]);
    println!("+ [6, 8, 4, 1] => {:?}", t);
    let t = t.append(&vec![8, 5, 0]);
    println!("+ [8, 5, 0] => {:?}", t);
    let t = t.append(&vec![8, 6, 5, 0, 3]);
    println!("+ [8, 6, 5, 0, 3] => {:?}", t);
    let t = t.append(&vec![8, 2]);
    println!("+ [8, 2] => {:?}", t);
    let t = t.append(&vec![1, 7]);
    println!("+ [1, 7] => {:?}", t);
    t
}

#[test]
fn test_sample_apriori_tree() {
    let t = sample_apriori_tree();
    println!("Apriori sample:\n{:?}", t);

    let root = t.root().unwrap();
    assert_eq!(root.label(), vec![8]);
    assert_eq!(root.value(), Some(&6));

    let r_5 = root.child().unwrap();
    assert_eq!(r_5.label(), vec![5]);
    assert_eq!(r_5.value(), Some(&2));

    let r_5_1_3 = r_5.child().unwrap();
    assert_eq!(r_5_1_3.label(), vec![1, 3]);
    assert_eq!(r_5_1_3.value(), Some(&1));
    assert!(r_5_1_3.child().is_none());

    let r_5_0 = r_5_1_3.sibling().unwrap();
    assert_eq!(r_5_0.label(), vec![0]);
    assert_eq!(r_5_0.value(), Some(&1));
    assert!(r_5_0.child().is_none());
    assert!(r_5_0.sibling().is_none());

    let r_6 = r_5.sibling().unwrap();
    assert_eq!(r_6.label(), vec![6]);
    assert_eq!(r_6.value(), Some(&3));

    let r_6_2 = r_6.child().unwrap();
    assert_eq!(r_6_2.label(), vec![2]);
    assert_eq!(r_6_2.value(), Some(&2));

    let r_6_2_5_4_1 = r_6_2.child().unwrap();
    assert_eq!(r_6_2_5_4_1.label(), vec![5, 4, 1]);
    assert_eq!(r_6_2_5_4_1.value(), Some(&1));
    assert!(r_6_2_5_4_1.child().is_none());

    let r_6_2_0 = r_6_2_5_4_1.sibling().unwrap();
    assert_eq!(r_6_2_0.label(), vec![0]);
    assert_eq!(r_6_2_0.value(), Some(&1));
    assert!(r_6_2_0.child().is_none());
    assert!(r_6_2_0.sibling().is_none());

    let r_2 = r_6.sibling().unwrap();
    assert_eq!(r_2.label(), vec![2]);
    assert_eq!(r_2.value(), Some(&1));
    assert!(r_2.child().is_none());
    assert!(r_2.sibling().is_none());

    let rs_6 = root.sibling().unwrap();
    assert_eq!(rs_6.label(), vec![6]);
    assert_eq!(rs_6.value(), Some(&2));

    let rs_6_2_4_7 = rs_6.child().unwrap();
    assert_eq!(rs_6_2_4_7.label(), vec![2, 4, 7]);
    assert_eq!(rs_6_2_4_7.value(), Some(&1));
    assert!(rs_6_2_4_7.child().is_none());

    let rs_6_8_4_1 = rs_6_2_4_7.sibling().unwrap();
    assert_eq!(rs_6_8_4_1.label(), vec![8, 4, 1]);
    assert_eq!(rs_6_8_4_1.value(), Some(&1));
    assert!(rs_6_8_4_1.child().is_none());
    assert!(rs_6_8_4_1.sibling().is_none());

    let rs_2 = rs_6.sibling().unwrap();
    assert_eq!(rs_2.label(), vec![2, 8, 4, 0, 7]);
    assert_eq!(rs_2.value(), Some(&1));
    assert!(rs_2.child().is_none());

    let rs_1 = rs_2.sibling().unwrap();
    assert_eq!(rs_1.label(), vec![1, 7]);
    assert_eq!(rs_1.value(), Some(&1));
    assert!(rs_1.child().is_none());
    assert!(rs_1.sibling().is_none());
}

#[test]
fn append_leaves_the_receiver_as_it_was() {
    let t0 = sample_tree();
    assert!(t0.find(&[3, 137, 5]).is_none());
    let size = t0.index().len();
    let t1 = t0.append(&[3, 137, 5]);
    assert!(t0.find(&[3, 137, 5]).is_none());
    assert_eq!(t0.find(&[3, 137]).unwrap().value(), Some(&2));
    assert_eq!(t0.index().len(), size);
    assert_eq!(t1.find(&[3, 137, 5]).unwrap().value(), Some(&1));
    assert_eq!(t1.find(&[3, 137]).unwrap().value(), Some(&3));
    assert_eq!(t1.find(&[3, 137, 137]).unwrap().value(), Some(&1));
    assert_eq!(t1.index().len(), size + 1);
}

#[test]
fn append_counts_with_shared_prefix() {
    let t = Tree::new().append(&[3, 137, 2]).append(&[3, 137, 99, 2]);
    let root = t.root().unwrap();
    assert_eq!(root.label(), [3, 137]);
    assert_eq!(root.value(), Some(&2));
    let first = root.child().unwrap();
    assert_eq!(first.label(), [2]);
    assert_eq!(first.value(), Some(&1));
    let second = first.sibling().unwrap();
    assert_eq!(second.label(), [99, 2]);
    assert_eq!(second.value(), Some(&1));
}

#[test]
fn append_key_that_ends_inside_a_label_cuts_the_label() {
    let t = Tree::new().append(&[3, 137, 2]).append(&[3, 137]);
    let root = t.root().unwrap();
    assert_eq!(root.label(), [3, 137]);
    assert_eq!(root.value(), Some(&2));
    let below = root.child().unwrap();
    assert_eq!(below.label(), [2]);
    assert_eq!(below.value(), Some(&1));
    assert!(below.sibling().is_none());
    assert!(t.find(&[3, 137]).is_some());
}

#[test]
fn append_empty_key_changes_nothing() {
    let t = Tree::new().append(&[]);
    assert!(t.root().is_none());
    assert_eq!(t.index().len(), 0);
    let t = sample_tree();
    let u = t.append(&[]);
    assert_eq!(u.root().unwrap().label(), [3, 137]);
    assert_eq!(u.root().unwrap().value(), Some(&2));
    assert_eq!(u.index().len(), t.index().len());
    assert!(u.find(&[]).is_none());
}

fn every_node_is_listed(t: &Tree, node: Option<&Node<u32>>, seen: &mut Vec<u64>) {
    let mut cur = node;
    while let Some(n) = cur {
        for e in n.label() {
            assert!(t.index().contains(*e, n.id()));
            assert!(t.index().get(*e).unwrap().contains(&n.id()));
        }
        assert!(!seen.contains(&n.id()));
        seen.push(n.id());
        every_node_is_listed(t, n.child(), seen);
        cur = n.sibling();
    }
}

#[test]
fn index_lists_every_node_under_every_element() {
    let mut t = Tree::new();
    let keys: Vec<Vec<u32>> = vec![
        vec![8, 5, 1, 3],
        vec![6, 2, 4, 7],
        vec![8, 6, 2, 5, 4, 1],
        vec![2, 8, 4, 0, 7],
        vec![8, 6, 2, 0],
        vec![6, 8, 4, 1],
        vec![8, 5, 0],
        vec![8, 6, 5, 0, 3],
        vec![8, 2],
        vec![8],
        vec![1, 7],
    ];
    for k in &keys {
        t = t.append(k);
        let mut seen = Vec::new();
        every_node_is_listed(&t, t.root(), &mut seen);
    }
    assert!(!t.index().contains(8, 1_000_000));
    assert!(!t.index().contains(77, 0));
    assert!(t.index().get(77).is_none());
}

#[test]
fn cutting_a_label_lists_the_new_branching_point() {
    let t0 = Tree::new().append(&[3, 137, 2]);
    assert_eq!(t0.root().unwrap().id(), 0);
    let t = t0.append(&[3, 137, 99, 22]);
    let branch = t.root().unwrap();
    let back = branch.child().unwrap();
    let rest = back.sibling().unwrap();
    // the node that is found under the old key keeps its identifier
    assert_eq!(back.id(), 0);
    assert_eq!(t.find(&[3, 137, 2]).unwrap().id(), 0);
    assert_eq!(branch.id(), 1);
    assert_eq!(rest.id(), 2);
    assert!(t.index().contains(3, branch.id()));
    assert!(t.index().contains(137, branch.id()));
    assert!(t.index().contains(2, back.id()));
    assert!(t.index().contains(99, rest.id()));
    assert!(t.index().contains(22, rest.id()));
    assert!(!t.index().contains(2, branch.id()));
    assert!(!t.index().contains(3, rest.id()));
    assert_eq!(t.index().len(), 5);
    assert_eq!(t.index().get(3).unwrap().len(), 2);
    // the older snapshot has its own index
    assert_eq!(t0.index().len(), 3);
    assert_eq!(t0.index().get(3).unwrap().len(), 1);
}

#[test]
fn identifiers_stay_with_their_keys() {
    let keys: Vec<Vec<u32>> = vec![
        vec![8, 5, 1, 3],
        vec![8, 6, 2, 5, 4, 1],
        vec![8, 6, 2, 0],
        vec![8, 5, 0],
        vec![8, 6, 5, 0, 3],
        vec![8],
        vec![8, 5, 1],
    ];
    let mut t = Tree::new();
    let mut known: Vec<(Vec<u32>, u64)> = Vec::new();
    for k in &keys {
        t = t.append(k);
        for (seen, id) in &known {
            assert_eq!(t.find(seen).unwrap().id(), *id);
        }
        known.push((k.clone(), t.find(k).unwrap().id()));
    }
}

#[test]
fn index_node_lists_a_node_under_its_label() {
    let mut t = Tree::new();
    let n = Node::new(vec![4u32, 5u32, 4u32], 1u32, 42);
    t.index_node(&n);
    assert_eq!(t.index().len(), 2);
    assert!(t.index().contains(4, 42));
    assert!(t.index().contains(5, 42));
    assert_eq!(t.index().get(4).unwrap().len(), 1);
    assert!(t.root().is_none());
}

#[test]
fn node_append_shares_what_it_does_not_touch() {
    let t = sample_tree();
    let mut index = radix_forest::index::ElementIndex::new();
    let root = t.root().unwrap();
    let grown = root.append(&[1, 2, 9], &mut index);
    // the key's path runs through the sibling chain only
    assert_eq!(grown.label(), [3, 137]);
    assert_eq!(grown.value(), Some(&2));
    assert_eq!(grown.child().unwrap().label(), [137]);
    assert_eq!(grown.sibling().unwrap().value(), Some(&2));
    assert_eq!(root.sibling().unwrap().value(), Some(&1));
    assert_eq!(index.len(), 0);
}

#[test]
fn node_find_walks_chain_and_children() {
    let t = sample_tree();
    let root = t.root().unwrap();
    assert_eq!(root.find(&[1, 2, 9]).unwrap().id(), 2);
    assert_eq!(root.find(&[3, 137, 137]).unwrap().id(), 1);
    assert!(root.find(&[3, 137, 1]).is_none());
    let lone = Node::new(vec![5u32, 6u32], 'z', 9);
    assert_eq!(lone.find(&[5, 6]).unwrap().value(), Some(&'z'));
    assert!(lone.find(&[5]).is_none());
    assert_eq!(lone.id(), 9);
    assert_eq!(lone.common_prefix(&[5, 6, 7]), 2);
}

#[test]
fn nodes_compare_by_what_they_hold() {
    let a = Node::new(vec![1u32, 2u32], 'a', 7);
    let b = Node::new(vec![1u32, 2u32], 'a', 7);
    let c = Node::new(vec![1u32, 2u32], 'a', 8);
    let d = Node::new(vec![1u32], 'a', 7);
    assert!(a == b);
    assert!(a != c);
    assert!(a != d);
}
