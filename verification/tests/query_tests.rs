//! Combining per-query result lists.

use minirust_search::query::{combine_results, CombineWith, Query};

fn sorted(mut r: Vec<(u32, Vec<usize>)>) -> Vec<(u32, Vec<usize>)> {
    r.sort();
    r
}

#[test]
fn or_keeps_every_document_with_its_lists() {
    let subs = vec![vec![1, 2], vec![], vec![2, 3]];
    assert_eq!(sorted(combine_results(&subs, CombineWith::Or)), vec![(1, vec![0]), (2, vec![0, 2]), (3, vec![2])]);
}

#[test]
fn and_keeps_documents_in_every_list() {
    let subs = vec![vec![1, 2, 3], vec![3, 2]];
    assert_eq!(sorted(combine_results(&subs, CombineWith::And)), vec![(2, vec![0, 1]), (3, vec![0, 1])]);
    let with_empty = vec![vec![1], vec![]];
    assert_eq!(combine_results(&with_empty, CombineWith::And), vec![]);
    assert_eq!(combine_results(&vec![], CombineWith::And), vec![]);
}

#[test]
fn and_not_keeps_the_first_nonempty_list_minus_the_others() {
    let subs = vec![vec![], vec![1, 2, 3], vec![2], vec![], vec![3, 9]];
    assert_eq!(sorted(combine_results(&subs, CombineWith::AndNot)), vec![(1, vec![1])]);
    assert_eq!(combine_results(&vec![vec![], vec![]], CombineWith::AndNot), vec![]);
}

#[test]
fn default_combination_is_or() {
    assert_eq!(CombineWith::default(), CombineWith::Or);
}

#[test]
fn queries_nest() {
    let q = Query::Combined {
        combine_with: CombineWith::And,
        queries: vec![Query::Term("a".to_string()), Query::Wildcard],
    };
    match q {
        Query::Combined { combine_with, queries } => {
            assert_eq!(combine_with, CombineWith::And);
            assert_eq!(queries.len(), 2);
        },
        _ => panic!("expected a combined query"),
    }
}

#[test]
fn combination_names() {
    assert_eq!(CombineWith::from_name("and"), CombineWith::And);
    assert_eq!(CombineWith::from_name("and_not"), CombineWith::AndNot);
    assert_eq!(CombineWith::from_name("or"), CombineWith::Or);
    assert_eq!(CombineWith::from_name("AND"), CombineWith::Or);
}

#[test]
fn a_cloned_query_is_the_same_query() {
    let q = Query::Combined {
        combine_with: CombineWith::AndNot,
        queries: vec![Query::Term("a".to_string()), Query::Combined { combine_with: CombineWith::Or, queries: vec![Query::Wildcard] }],
    };
    let c = q.clone();
    assert_eq!(format!("{:?}", c), format!("{:?}", q));
}
