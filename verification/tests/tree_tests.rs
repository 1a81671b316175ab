use arena_bst::BinarySearchTree;
use arena_bst::Probe;
use arena_bst::SearchKey;

fn keys_of<K: SearchKey + Clone, P>(tree: &BinarySearchTree<K, P>) -> Vec<K> {
    let mut out = Vec::new();
    let mut it = tree.iter();
    while let Some(content) = it.next() {
        out.push(content.key.clone());
    }
    out
}

fn pairs_of(tree: &BinarySearchTree<String, String>) -> Vec<(String, String)> {
    let mut out = Vec::new();
    let mut it = tree.iter();
    while let Some(content) = it.next() {
        out.push((content.key.clone(), content.payload.clone()));
    }
    out
}

fn names() -> BinarySearchTree<String, String> {
    let mut tree = BinarySearchTree::<String, String>::new();
    tree.insert(String::from("hello"), String::from("there"));
    tree.insert(String::from("General"), String::from("Kenobi"));
    tree.insert(String::from("Anakin"), String::from("Skywalker"));
    tree.insert(String::from("Rey"), String::from("Tatooine"));
    tree.insert(String::from("Manda"), String::from("lorian"));
    tree
}

fn numbers(keys: &[i32]) -> BinarySearchTree<i32, i32> {
    let mut tree = BinarySearchTree::<i32, i32>::new();
    for k in keys {
        assert!(tree.insert(*k, *k * 10).inserted);
    }
    tree
}

#[test]
fn it_works() {
    let mut tree = BinarySearchTree::<String, String>::new();
    assert!(tree.insert(String::from("hello"), String::from("there")).inserted);

    let general_kenobi_insert = tree.insert(String::from("General"), String::from("Kenobi"));
    assert!(general_kenobi_insert.inserted);
    if let Some(content) = general_kenobi_insert.iterator.view() {
        assert!(content.key == "General");
        println!("Yes, we have the General!");
    }

    tree.insert(String::from("Anakin"), String::from("Skywalker"));
    tree.insert(String::from("Rey"), String::from("Tatooine"));
    tree.insert(String::from("Manda"), String::from("lorian"));

    match tree.peek_root() {
        Some(root) => println!("root: key: {} | value: {}", root.key, root.payload),
        None => println!("There is no root!"),
    }

    println!("Print in order...");
    let mut it = tree.iter();
    while let Some(n) = it.next() {
        println!("key: {} | value: {}", n.key, n.payload);
    }

    tree.remove(&String::from("General"));

    println!("After removing General...");

    let mut it = tree.iter();
    while let Some(n) = it.next() {
        println!("key: {} | value: {}", n.key, n.payload);
    }
}

#[test]
fn names_come_out_in_lexical_order() {
    let tree = names();
    assert_eq!(keys_of(&tree), vec!["Anakin", "General", "Manda", "Rey", "hello"]);
    assert_eq!(
        pairs_of(&tree),
        vec![
            (String::from("Anakin"), String::from("Skywalker")),
            (String::from("General"), String::from("Kenobi")),
            (String::from("Manda"), String::from("lorian")),
            (String::from("Rey"), String::from("Tatooine")),
            (String::from("hello"), String::from("there")),
        ]
    );
}

#[test]
fn removing_a_name_twice() {
    let mut tree = names();
    assert!(tree.remove(&String::from("General")));
    assert_eq!(keys_of(&tree), vec!["Anakin", "Manda", "Rey", "hello"]);
    assert!(!tree.remove(&String::from("General")));
    assert_eq!(keys_of(&tree), vec!["Anakin", "Manda", "Rey", "hello"]);
}

#[test]
fn numbers_come_out_ascending() {
    let tree = numbers(&[5, 3, 8, 1, 4, 7, 9]);
    assert_eq!(keys_of(&tree), vec![1, 3, 4, 5, 7, 8, 9]);
}

#[test]
fn removing_a_node_with_two_children() {
    let mut tree = numbers(&[5, 3, 8, 1, 4, 7, 9]);
    assert!(tree.remove(&5));
    assert_eq!(keys_of(&tree), vec![1, 3, 4, 7, 8, 9]);
    assert!(tree.remove(&8));
    assert_eq!(keys_of(&tree), vec![1, 3, 4, 7, 9]);
    assert!(tree.remove(&3));
    assert_eq!(keys_of(&tree), vec![1, 4, 7, 9]);
}

#[test]
fn removing_leaves_and_single_children() {
    let mut tree = numbers(&[5, 3, 8, 1, 9]);
    assert!(tree.remove(&1));
    assert_eq!(keys_of(&tree), vec![3, 5, 8, 9]);
    assert!(tree.remove(&8));
    assert_eq!(keys_of(&tree), vec![3, 5, 9]);
    assert!(tree.remove(&3));
    assert_eq!(keys_of(&tree), vec![5, 9]);
    assert!(tree.remove(&5));
    assert_eq!(keys_of(&tree), vec![9]);
    assert!(tree.remove(&9));
    assert_eq!(keys_of(&tree), Vec::<i32>::new());
    assert!(!tree.remove(&9));
    assert!(tree.iter().view().is_none());
}

#[test]
fn removing_every_key_in_turn() {
    let all = [50, 30, 70, 20, 40, 60, 80, 35, 45, 65, 10, 25, 75, 85];
    for gone in all {
        let mut tree = numbers(&all);
        assert!(tree.remove(&gone));
        let mut expected: Vec<i32> = all.iter().copied().filter(|k| *k != gone).collect();
        expected.sort();
        assert_eq!(keys_of(&tree), expected);
        assert!(tree.insert(gone, 0).inserted);
        let mut sorted = all.to_vec();
        sorted.sort();
        assert_eq!(keys_of(&tree), sorted);
    }
}

#[test]
fn empty_tree_has_no_entries() {
    let mut tree = BinarySearchTree::<u64, u64>::new();
    assert!(tree.iter().view().is_none());
    assert!(tree.iter().next().is_none());
    assert!(!tree.remove(&1));
    assert!(tree.peek_root().is_none());
}

#[test]
fn inserted_key_is_found_with_its_payload() {
    let mut tree = numbers(&[5, 3, 8]);
    let result = tree.insert(4, 44);
    assert!(result.inserted);
    let content = result.iterator.view().unwrap();
    assert_eq!(content.key, 4);
    assert_eq!(content.payload, 44);
    let mut it = tree.iter();
    let mut found = None;
    while let Some(c) = it.next() {
        if c.key == 4 {
            found = Some(c.payload);
        }
    }
    assert_eq!(found, Some(44));
}

#[test]
fn duplicate_key_is_rejected() {
    let mut tree = numbers(&[5, 3, 8]);
    let result = tree.insert(3, 999);
    assert!(!result.inserted);
    let content = result.iterator.view().unwrap();
    assert_eq!(content.key, 3);
    assert_eq!(content.payload, 30);
    assert_eq!(keys_of(&tree), vec![3, 5, 8]);
    let mut it = tree.iter();
    assert_eq!(it.next().unwrap().payload, 30);
}

#[test]
fn removing_an_absent_key_changes_nothing() {
    let mut tree = numbers(&[5, 3, 8]);
    assert!(!tree.remove(&4));
    assert!(!tree.remove(&100));
    assert!(!tree.remove(&-1));
    assert_eq!(keys_of(&tree), vec![3, 5, 8]);
}

#[test]
fn iterator_from_insert_continues_in_order() {
    let mut tree = numbers(&[5, 3, 8, 1, 4, 7, 9]);
    let result = tree.insert(6, 60);
    let mut it = result.iterator;
    assert_eq!(it.next().unwrap().key, 6);
    assert_eq!(it.next().unwrap().key, 7);
    assert_eq!(it.next().unwrap().key, 8);
    assert_eq!(it.next().unwrap().key, 9);
    assert!(it.next().is_none());
    assert!(it.next().is_none());
}

#[test]
fn freed_slots_are_filled_before_the_arena_grows() {
    let mut tree = numbers(&[5, 3, 8, 1, 4, 7, 9]);
    assert_eq!(tree.slot_count(), 7);
    assert!(tree.remove(&3));
    assert!(tree.remove(&8));
    assert!(tree.remove(&5));
    assert_eq!(tree.slot_count(), 7);
    assert!(tree.insert(2, 0).inserted);
    assert!(tree.insert(6, 0).inserted);
    assert!(tree.insert(10, 0).inserted);
    assert_eq!(tree.slot_count(), 7);
    assert!(tree.insert(11, 0).inserted);
    assert_eq!(tree.slot_count(), 8);
    assert_eq!(keys_of(&tree), vec![1, 2, 4, 6, 7, 9, 10, 11]);
}

#[test]
fn root_is_the_first_key_until_it_is_removed() {
    let mut tree = numbers(&[5, 3, 8]);
    assert_eq!(tree.peek_root().unwrap().key, 5);
    assert!(tree.remove(&5));
    assert_eq!(tree.peek_root().unwrap().key, 3);
    assert_eq!(keys_of(&tree), vec![3, 8]);
}

#[test]
fn string_keys_order_by_code_point() {
    assert!(String::from("Rey").is_before(&String::from("hello")));
    assert!(!String::from("hello").is_before(&String::from("Rey")));
    assert!(String::from("ab").is_before(&String::from("abc")));
    assert!(!String::from("abc").is_before(&String::from("ab")));
    assert!(!String::from("abc").is_before(&String::from("abc")));
    assert!(String::from("").is_before(&String::from("a")));
    assert!(String::from("z").is_before(&String::from("\u{e9}")));
    assert!(String::from("\u{ffff}").is_before(&String::from("\u{10000}")));
}

#[test]
fn integer_keys_order_by_value() {
    assert!(3u32.is_before(&4u32));
    assert!(!4u32.is_before(&4u32));
    assert!((-1i64).is_before(&0i64));
    assert!(!(7u64).is_before(&2u64));
    assert!((-5i32).is_before(&-4i32));
}

#[test]
fn gathered_entries_match_the_walk() {
    let tree = numbers(&[5, 3, 8, 1, 4, 7, 9]);
    let found: Vec<(i32, i32)> = tree.in_order().iter().map(|c| (c.key, c.payload)).collect();
    assert_eq!(
        found,
        vec![(1, 10), (3, 30), (4, 40), (5, 50), (7, 70), (8, 80), (9, 90)]
    );
    assert!(BinarySearchTree::<u32, u32>::new().in_order().is_empty());
}

#[test]
fn removing_by_a_text_slice() {
    let mut tree = names();
    assert!(tree.remove("General"));
    assert!(!tree.remove("General"));
    assert!(!tree.remove("general"));
    assert!(tree.remove("hello"));
    assert_eq!(keys_of(&tree), vec!["Anakin", "Manda", "Rey"]);
}

#[test]
fn text_slices_compare_with_string_keys() {
    let key = String::from("Manda");
    assert!("Anakin".comes_before(&key));
    assert!(!"Anakin".comes_after(&key));
    assert!("Rey".comes_after(&key));
    assert!(!"Rey".comes_before(&key));
    assert!(!"Manda".comes_before(&key));
    assert!(!"Manda".comes_after(&key));
    assert!("Mand".comes_before(&key));
    assert!("Mandal".comes_after(&key));
}

#[test]
fn keys_compare_with_keys_as_probes() {
    assert!(3i32.comes_before(&4i32));
    assert!(!3i32.comes_after(&4i32));
    assert!(5i32.comes_after(&4i32));
    assert!(!4i32.comes_before(&4i32));
    assert!(!4i32.comes_after(&4i32));
    assert!(7usize.is_before(&8usize));
    assert!(!(9u8).is_before(&8u8));
}

#[test]
fn left_child_takes_the_place_of_a_removed_root() {
    let mut tree = numbers(&[5, 3, 8, 1, 4, 7, 9]);
    assert_eq!(tree.peek_root().unwrap().key, 5);
    assert!(tree.remove(&5));
    assert_eq!(tree.peek_root().unwrap().key, 3);
    assert_eq!(tree.peek_root().unwrap().payload, 30);
    assert!(tree.remove(&3));
    assert_eq!(tree.peek_root().unwrap().key, 1);
    assert!(tree.remove(&1));
    assert_eq!(tree.peek_root().unwrap().key, 4);
    assert_eq!(keys_of(&tree), vec![4, 7, 8, 9]);
}

#[test]
fn right_child_takes_the_place_of_a_root_without_left_child() {
    let mut tree = numbers(&[5, 8, 9]);
    assert!(tree.remove(&5));
    assert_eq!(tree.peek_root().unwrap().key, 8);
    assert!(tree.remove(&8));
    assert_eq!(tree.peek_root().unwrap().key, 9);
    assert!(tree.remove(&9));
    assert!(tree.peek_root().is_none());
}

#[test]
fn root_stays_when_other_entries_come_and_go() {
    let mut tree = numbers(&[5, 3, 8]);
    assert!(tree.insert(1, 0).inserted);
    assert!(tree.insert(9, 0).inserted);
    assert_eq!(tree.peek_root().unwrap().key, 5);
    assert!(tree.remove(&3));
    assert!(tree.remove(&9));
    assert_eq!(tree.peek_root().unwrap().key, 5);
    assert_eq!(keys_of(&tree), vec![1, 5, 8]);
}
