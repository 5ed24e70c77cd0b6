use exercises::node::{Node, Turn};
use exercises::reservoir::pick_one;
use exercises::tree::RandomTree;
use rand::prelude::{thread_rng, Rng, SliceRandom};

fn validate_children<K: Ord, V>(node: &Node<K, V>) -> bool {
    let actual_descendants = node.iter().map(|_| 1).sum::<usize>() - 1;
    Some(actual_descendants) == node.descendants()
}

fn keys_of(tree: &RandomTree<i32, ()>) -> Vec<i32> {
    tree.iter().map(|(k, _)| *k).collect()
}

fn seven() -> RandomTree<i32, ()> {
    let mut tree = RandomTree::new();
    for key in [4, 2, 1, 3, 6, 5, 7] {
        tree.insert(key, ());
    }
    tree
}

#[test]
fn insert_unique() {
    let mut tree = RandomTree::<i32, String>::new();
    let table = [(10, "Aardvark"), (5, "Zebra"), (6, "What?")];
    for (i, s) in table.iter() {
        assert_eq!(tree.insert(*i, s.to_string()), None);
    }
    for (i, s) in table.iter() {
        assert_eq!(tree.get(i).map(|out| out.as_str()), Some(*s));
    }
}

#[test]
fn insert_replacement() {
    let mut tree = RandomTree::<i32, &str>::new();
    assert_eq!(tree.insert(100, "Original"), None);
    assert_eq!(tree.insert(100, "Replacement"), Some("Original"));
    assert_eq!(tree.get(&100), Some(&"Replacement"));
}

#[test]
fn birthday_paradox() {
    let mut bday_set = RandomTree::new();
    let mut rng = thread_rng();

    assert!(bday_set.random(&mut rng).is_none());

    let mut days = (1..366).collect::<Vec<_>>();
    days.shuffle(&mut rng);
    for day in days {
        bday_set.insert(day, ());
    }
    let mut selection = (0..27)
        .map(|_| *bday_set.random(&mut rng).unwrap().0)
        .collect::<Vec<_>>();
    selection.sort_unstable();
    println!("{:?}", selection);
    assert_eq!(selection.len(), 27);
    assert!(selection.iter().all(|day| (1..366).contains(day)));
}

#[test]
fn birthday_with_cheeze() {
    let mut bday_set = RandomTree::new();
    let mut rng = thread_rng();

    assert!(pick_one(bday_set.iter(), &mut rng).is_none());

    let mut days = (1..366).collect::<Vec<_>>();
    days.shuffle(&mut rng);
    for day in days {
        bday_set.insert(day, ());
    }
    let mut selection = (0..27)
        .map(|_| pick_one(bday_set.iter(), &mut rng).unwrap().0)
        .copied()
        .collect::<Vec<_>>();
    selection.sort_unstable();
    println!("{:?}", selection);
    assert_eq!(selection.len(), 27);
    assert!(selection.iter().all(|day| (1..366).contains(day)));
}

#[test]
fn iter() {
    let mut rng = thread_rng();

    let mut original = [0, 1, 58, 120, 130];
    original.shuffle(&mut rng);

    let mut set = RandomTree::new();
    for i in original.iter() {
        set.insert(*i, ());
    }

    let mut recovered = set.iter().map(|(i, _)| *i).collect::<Vec<_>>();

    original.sort_unstable();
    recovered.sort_unstable();

    assert_eq!(original[..], recovered[..]);
}

#[test]
fn into_iter() {
    let mut rng = thread_rng();

    let mut original = [0, 1, 58, 120, 130];
    original.shuffle(&mut rng);

    let mut set = RandomTree::new();
    for i in original.iter() {
        set.insert(*i, ());
    }

    let mut recovered = set.into_iter().map(|(i, _)| i).collect::<Vec<_>>();

    original.sort_unstable();
    recovered.sort_unstable();

    assert_eq!(original[..], recovered[..]);
}

#[test]
fn has() {
    let mut map = RandomTree::new();
    for i in -9_i8..9 {
        if i % 2 == 1 {
            map.insert(i, i as f64);
        }
    }
    for i in -9_i8..9 {
        assert_eq!(map.has(&i), i % 2 == 1);
    }
}

#[test]
fn get_mut() {
    let mut counter = RandomTree::new();
    assert_eq!(counter.get_mut(&0), None);

    counter.insert(0, 0);
    counter.insert(1, 0);
    counter.insert(2, 0);
    for i in 0..100 {
        *counter.get_mut(&(i % 3)).unwrap() += 1;
    }
    assert_eq!(counter.get(&0), Some(&34));
    assert_eq!(counter.get(&1), Some(&33));
    assert_eq!(counter.get(&2), Some(&33));
}

#[test]
fn descendant_invariant() {
    let mut tree = RandomTree::new();
    let mut rng = thread_rng();

    for _ in 0..100_000 {
        tree.insert(rng.gen_range(-1_000, 0), rng.gen_range(0, 1_000_000));
    }

    for (k, _) in tree.iter() {
        assert!(validate_children(tree.find(k).unwrap()));
    }
}

#[test]
fn take_branch() {
    let mut tree = RandomTree::new();
    tree.insert(4, ());
    tree.insert(2, ());
    tree.insert(1, ());
    tree.insert(3, ());
    tree.insert(6, ());
    tree.insert(5, ());
    tree.insert(7, ());
    println!("{:?}", &tree);
    let branch = tree.take_branch(&2);
    println!("{:?}", &branch);
    println!("{:?}", &tree);

    let branch = branch.unwrap();
    assert_eq!(*branch.key(), 2);
    assert_eq!(branch.descendants(), Some(2));
    let cut: Vec<i32> = branch.iter().map(|(k, _)| *k).collect();
    assert_eq!(cut, vec![2, 1, 3]);
    assert_eq!(keys_of(&tree), vec![4, 6, 5, 7]);
    assert_eq!(tree.find(&4).unwrap().descendants(), Some(3));
    assert_eq!(tree.find(&6).unwrap().descendants(), Some(2));
}

#[test]
fn remove() {
    let mut tree = RandomTree::new();
    tree.insert(4, ());
    tree.insert(2, ());
    tree.insert(1, ());
    tree.insert(3, ());

    tree.remove(&2);

    assert!(tree.has(&4));
    assert!(tree.has(&1));
    assert!(tree.has(&3));

    for (k, _) in tree.iter() {
        assert!(validate_children(tree.find(k).unwrap()));
    }
}

#[test]
fn empty_tree_has_nothing() {
    let tree = RandomTree::<i32, i32>::new();
    assert!(!tree.has(&0));
    assert_eq!(tree.get(&0), None);
    assert!(tree.find(&0).is_none());
    assert!(tree.iter().next().is_none());
    assert!(tree.into_iter().next().is_none());
}

#[test]
fn empty_tree_yields_no_random_entry() {
    let tree = RandomTree::<i32, i32>::new();
    let mut rng = thread_rng();
    assert!(tree.random(&mut rng).is_none());
    assert!(pick_one(tree.iter(), &mut rng).is_none());
    assert!(pick_one(Vec::<i32>::new().into_iter(), &mut rng).is_none());
}

#[test]
fn traversal_is_level_by_level() {
    let tree = seven();
    assert_eq!(keys_of(&tree), vec![4, 2, 6, 1, 3, 5, 7]);
    let owned: Vec<i32> = tree.into_iter().map(|(k, _)| k).collect();
    assert_eq!(owned, vec![4, 2, 6, 1, 3, 5, 7]);
}

#[test]
fn cursor_yields_one_entry_at_a_time() {
    let mut tree = RandomTree::new();
    tree.insert(2, "two");
    tree.insert(1, "one");
    tree.insert(3, "three");
    let mut cursor = tree.iter();
    assert_eq!(cursor.next(), Some((&2, &"two")));
    assert_eq!(cursor.next(), Some((&1, &"one")));
    assert_eq!(cursor.next(), Some((&3, &"three")));
    assert_eq!(cursor.next(), None);
    assert_eq!(cursor.next(), None);
}

#[test]
fn counts_follow_inserts() {
    let tree = seven();
    let expected = [(4, 6), (2, 2), (6, 2), (1, 0), (3, 0), (5, 0), (7, 0)];
    for (key, count) in expected {
        assert_eq!(tree.find(&key).unwrap().descendants(), Some(count));
    }
}

#[test]
fn replacing_a_value_keeps_the_counts() {
    let mut tree = RandomTree::new();
    for key in [4, 2, 6] {
        tree.insert(key, 0);
    }
    assert_eq!(tree.insert(2, 9), Some(0));
    assert_eq!(tree.find(&4).unwrap().descendants(), Some(2));
    assert_eq!(tree.find(&2).unwrap().descendants(), Some(0));
    assert_eq!(tree.get(&2), Some(&9));
    assert_eq!(tree.iter().count(), 3);
}

#[test]
fn remove_two_of_seven() {
    let mut tree = seven();
    assert_eq!(tree.remove(&2), Some(()));
    assert!(!tree.has(&2));
    for key in [1, 3, 4, 5, 6, 7] {
        assert!(tree.has(&key));
    }
    let mut keys = keys_of(&tree);
    keys.sort_unstable();
    assert_eq!(keys, vec![1, 3, 4, 5, 6, 7]);
    for (k, _) in tree.iter() {
        assert!(validate_children(tree.find(k).unwrap()));
    }
}

#[test]
fn remove_reinserts_breadth_first() {
    let mut tree = seven();
    tree.remove(&2);
    assert_eq!(keys_of(&tree), vec![4, 1, 6, 3, 5, 7]);
    assert_eq!(tree.find(&4).unwrap().descendants(), Some(5));
    assert_eq!(tree.find(&1).unwrap().descendants(), Some(1));
    assert_eq!(tree.find(&3).unwrap().descendants(), Some(0));
}

#[test]
fn remove_the_root() {
    let mut tree = seven();
    assert_eq!(tree.remove(&4), Some(()));
    assert_eq!(keys_of(&tree), vec![2, 1, 6, 3, 7, 5]);
    assert_eq!(tree.find(&2).unwrap().descendants(), Some(5));
    assert_eq!(tree.find(&6).unwrap().descendants(), Some(3));
    assert_eq!(tree.find(&3).unwrap().descendants(), Some(1));
}

#[test]
fn remove_a_missing_key() {
    let mut tree = seven();
    assert_eq!(tree.remove(&9), None);
    assert_eq!(keys_of(&tree), vec![4, 2, 6, 1, 3, 5, 7]);
    assert_eq!(tree.find(&4).unwrap().descendants(), Some(6));
    assert_eq!(tree.find(&6).unwrap().descendants(), Some(2));
    assert_eq!(tree.find(&7).unwrap().descendants(), Some(0));
    let mut empty = RandomTree::<i32, ()>::new();
    assert_eq!(empty.remove(&1), None);
}

#[test]
fn remove_returns_the_value() {
    let mut tree = RandomTree::new();
    tree.insert(1, "one");
    tree.insert(2, "two");
    assert_eq!(tree.remove(&1), Some("one"));
    assert_eq!(tree.get(&2), Some(&"two"));
    assert_eq!(tree.remove(&1), None);
    assert_eq!(tree.remove(&2), Some("two"));
    assert!(tree.iter().next().is_none());
}

#[test]
fn take_branch_without_the_key() {
    let mut tree = seven();
    assert!(tree.take_branch(&0).is_none());
    assert_eq!(keys_of(&tree), vec![4, 2, 6, 1, 3, 5, 7]);
    assert_eq!(tree.find(&4).unwrap().descendants(), Some(6));
    assert_eq!(tree.find(&2).unwrap().descendants(), Some(2));
    assert_eq!(tree.find(&1).unwrap().descendants(), Some(0));
}

#[test]
fn take_branch_at_the_root_empties_the_tree() {
    let mut tree = seven();
    let branch = tree.take_branch(&4).unwrap();
    assert_eq!(branch.descendants(), Some(6));
    assert!(tree.iter().next().is_none());
}

#[test]
fn inserted_keys_are_present_and_no_others() {
    let mut rng = thread_rng();
    let mut keys: Vec<i32> = (0..200).map(|k| 3 * k).collect();
    keys.shuffle(&mut rng);
    let mut tree = RandomTree::new();
    for key in keys.iter() {
        assert_eq!(tree.insert(*key, *key + 1), None);
    }
    for probe in -5..605 {
        assert_eq!(tree.has(&probe), probe >= 0 && probe % 3 == 0 && probe < 600);
    }
    keys.shuffle(&mut rng);
    for (n, key) in keys.iter().enumerate() {
        assert_eq!(tree.remove(key), Some(*key + 1));
        assert!(!tree.has(key));
        for other in keys[n + 1..].iter() {
            assert_eq!(tree.get(other), Some(&(*other + 1)));
        }
    }
    assert!(tree.iter().next().is_none());
}

#[test]
fn traversal_yields_every_key_once() {
    let mut rng = thread_rng();
    let mut keys: Vec<i32> = (0..500).collect();
    keys.shuffle(&mut rng);
    let mut tree = RandomTree::new();
    for key in keys.iter() {
        tree.insert(*key, ());
    }
    let mut recovered = keys_of(&tree);
    recovered.sort_unstable();
    keys.sort_unstable();
    assert_eq!(keys, recovered);
}

#[test]
fn counts_stay_exact_under_inserts_and_removals() {
    let mut rng = thread_rng();
    let mut tree = RandomTree::new();
    for round in 0..2_000 {
        let key: i32 = rng.gen_range(0, 64);
        if rng.gen_range(0, 3) == 0 {
            tree.remove(&key);
        } else {
            tree.insert(key, round);
        }
        if round % 100 == 0 {
            for (k, _) in tree.iter() {
                assert!(validate_children(tree.find(k).unwrap()));
            }
        }
    }
}

#[test]
fn turn_gives_each_subtree_its_share() {
    let tree = seven();
    let root = tree.find(&4).unwrap();
    assert_eq!(root.turn(0), Turn::Stay);
    for index in 1..=3 {
        assert_eq!(root.turn(index), Turn::Left);
    }
    for index in 4..=6 {
        assert_eq!(root.turn(index), Turn::Right);
    }
    let leaf = tree.find(&7).unwrap();
    assert_eq!(leaf.turn(0), Turn::Stay);

    let mut lopsided = RandomTree::new();
    for key in [1, 2, 3] {
        lopsided.insert(key, ());
    }
    let top = lopsided.find(&1).unwrap();
    assert_eq!(top.turn(0), Turn::Stay);
    assert_eq!(top.turn(1), Turn::Right);
    assert_eq!(top.turn(2), Turn::Right);
}

#[test]
fn random_on_one_entry_returns_it() {
    let mut tree = RandomTree::new();
    tree.insert(7, "seven");
    let mut rng = thread_rng();
    for _ in 0..50 {
        assert_eq!(tree.random(&mut rng), Some((&7, &"seven")));
    }
}

#[test]
fn random_returns_entries_of_the_tree() {
    let mut tree = RandomTree::new();
    for key in [4, 2, 1, 3, 6, 5, 7] {
        tree.insert(key, key * 10);
    }
    let mut rng = thread_rng();
    for _ in 0..200 {
        let (key, value) = tree.random(&mut rng).unwrap();
        assert!((1..=7).contains(key));
        assert_eq!(*value, *key * 10);
    }
}

#[test]
fn random_selects_every_entry_about_equally_often() {
    let mut tree = RandomTree::new();
    for key in [8, 1, 2, 3, 4, 5, 6, 7, 9, 0] {
        tree.insert(key, ());
    }
    let mut rng = thread_rng();
    let mut seen = [0_u32; 10];
    for _ in 0..20_000 {
        let (key, _) = tree.random(&mut rng).unwrap();
        seen[*key as usize] += 1;
    }
    for count in seen {
        assert!((1_600..2_400).contains(&count), "{:?}", seen);
    }
}

#[test]
fn node_accessors_read_the_entry() {
    let mut tree = RandomTree::new();
    tree.insert(5, "five");
    tree.insert(3, "three");
    let node = tree.find(&5).unwrap();
    assert_eq!(*node.key(), 5);
    assert_eq!(*node.value(), "five");
    assert_eq!(node.descendants(), Some(1));
    let picked = node.random(&mut thread_rng());
    assert!(picked == (&5, &"five") || picked == (&3, &"three"));
    let leaf = Node::new(1, 'a');
    assert_eq!(leaf.descendants(), Some(0));
    assert_eq!(leaf.into_iter().collect::<Vec<_>>(), vec![(1, 'a')]);
}
