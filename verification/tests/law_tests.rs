//! The radix tree's laws on concrete values.

use minirust_search::{RadixTree, RadixTreeIter};

#[test]
fn fuzzy_search_with_distance_zero_is_an_exact_lookup() {
    let mut tree = RadixTree::new();
    for (i, k) in ["hello", "help", "hell", ""].iter().enumerate() {
        tree.insert(k, i);
    }
    let found = tree.fuzzy_search("hell", 0);
    assert_eq!(found.len(), 1);
    assert_eq!(found[0].0, "hell");
    assert_eq!(*found[0].1, 2);
    assert_eq!(found[0].2, 0);
    assert!(tree.fuzzy_search("hel", 0).is_empty());
}

#[test]
fn the_empty_prefix_holds_every_entry() {
    let mut tree = RadixTree::new();
    for (i, k) in ["a", "ab", "b", ""].iter().enumerate() {
        tree.insert(k, i);
    }
    let view = tree.at_prefix("").unwrap();
    assert_eq!(view.iter().len(), 4);
}

#[test]
fn iteration_visits_every_key_once() {
    let mut tree = RadixTree::new();
    for (i, k) in ["", "a", "ab", "abc", "b"].iter().enumerate() {
        tree.insert(k, i);
    }
    let entries = tree.iter();
    assert_eq!(
        entries,
        vec![("".to_string(), &0), ("a".to_string(), &1), ("ab".to_string(), &2), ("abc".to_string(), &3), ("b".to_string(), &4)]
    );
    assert_eq!(entries.len(), tree.len());
}

#[test]
fn iteration_includes_the_empty_key() {
    let mut tree = RadixTree::new();
    tree.insert("", 1);
    tree.insert("a", 2);
    assert_eq!(tree.iter(), vec![("".to_string(), &1), ("a".to_string(), &2)]);
}

#[test]
fn remove_undoes_insert_of_a_new_key() {
    let mut tree = RadixTree::new();
    tree.insert("test", 1);
    tree.insert("team", 2);
    assert_eq!(tree.insert("tea", 3), None);
    assert_eq!(tree.remove("tea"), Some(3));
    assert_eq!(tree.get("test"), Some(&1));
    assert_eq!(tree.get("team"), Some(&2));
    assert_eq!(tree.get("tea"), None);
    assert_eq!(tree.len(), 2);
}

#[test]
fn iteration_is_in_dictionary_order() {
    let mut tree = RadixTree::new();
    let keys = ["banana", "apple", "app", "b", "日本", "café", "cab", "zebra", "a"];
    for (i, k) in keys.iter().enumerate() {
        tree.insert(k, i);
    }
    let got: Vec<String> = tree.iter().into_iter().map(|(k, _)| k).collect();
    let mut expected: Vec<String> = keys.iter().map(|k| k.to_string()).collect();
    expected.sort();
    assert_eq!(got, expected);
    let under: Vec<String> = tree.at_prefix("ap").unwrap().iter().into_iter().map(|(k, _)| k).collect();
    assert_eq!(under, vec!["app", "apple"]);
}

#[test]
fn a_walk_yields_the_same_entries_as_iteration() {
    let mut tree = RadixTree::new();
    for (i, k) in ["", "to", "tea", "ted", "ten", "i", "in", "inn"].iter().enumerate() {
        tree.insert(k, i);
    }
    let mut walk = RadixTreeIter::new(&tree);
    let mut walked = Vec::new();
    while let Some(e) = walk.next() {
        walked.push(e);
    }
    assert_eq!(walked, tree.iter());
    assert_eq!(walked.len(), 8);
    assert!(walk.next().is_none());
}

#[test]
fn a_clone_holds_the_same_entries() {
    let mut tree = RadixTree::new();
    for (i, k) in ["", "to", "tea", "ted"].iter().enumerate() {
        tree.insert(k, i);
    }
    let copy = tree.clone();
    tree.insert("zz", 9);
    assert_eq!(copy.len(), 4);
    assert_eq!(copy.get("tea"), Some(&2));
    assert_eq!(copy.get("zz"), None);
    assert_eq!(copy.iter(), vec![("".to_string(), &0), ("tea".to_string(), &2), ("ted".to_string(), &3), ("to".to_string(), &1)]);
}

#[test]
fn a_prefix_ending_inside_an_edge_holds_the_keys_below_it() {
    let mut tree = RadixTree::new();
    tree.insert("testing", 1);
    tree.insert("tea", 2);
    tree.insert("", 3);
    let view = tree.at_prefix("tes").unwrap();
    assert_eq!(view.iter(), vec![("testing".to_string(), &1)]);
    let view = tree.at_prefix("te").unwrap();
    assert_eq!(view.iter(), vec![("tea".to_string(), &2), ("testing".to_string(), &1)]);
    assert!(tree.at_prefix("tx").is_none());
}
