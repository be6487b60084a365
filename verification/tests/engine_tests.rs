use fuzzy_match::search_matches;

fn sorted(mut v: Vec<usize>) -> Vec<usize> {
    v.sort();
    v
}

#[test]
fn test_search_matches_second_larger() {
    // vec2 is larger, so it is indexed and vec1 is queried
    let vec1 = vec!["kitten".to_string()];
    let vec2 = vec!["sitting".to_string(), "mitten".to_string()];
    let matches = search_matches(vec1, vec2, 2);
    assert_eq!(matches.len(), 1);
    assert_eq!(matches[0].id, 0);
    assert_eq!(sorted(matches[0].connected_nodes.clone()), vec![1]);
}

#[test]
fn test_search_matches_first_larger() {
    // vec1 is larger, so it is indexed and vec2 is queried
    let vec1 = vec![
        "bla".to_string(),
        "blub".to_string(),
        "asdf".to_string(),
        ":assd".to_string(),
        "ast".to_string(),
        "baube".to_string(),
    ];
    let vec2 = vec!["blau".to_string(), "b".to_string()];
    let matches = search_matches(vec1, vec2, 3);
    assert_eq!(matches.len(), 2);
    assert_eq!(matches[0].id, 0);
    assert_eq!(sorted(matches[0].connected_nodes.clone()), vec![0, 1, 5]);
    assert_eq!(matches[1].id, 1);
    assert_eq!(sorted(matches[1].connected_nodes.clone()), vec![0, 1, 4]);
}

#[test]
fn test_search_matches_tie_indexes_second() {
    // equal sizes: the second collection is indexed
    let vec1 = vec!["abc".to_string(), "zzz".to_string()];
    let vec2 = vec!["abd".to_string(), "qqq".to_string()];
    let matches = search_matches(vec1, vec2, 1);
    assert_eq!(matches.len(), 2);
    assert_eq!(matches[0].id, 0);
    assert_eq!(matches[0].connected_nodes, vec![0]);
    assert_eq!(matches[1].id, 1);
    assert_eq!(matches[1].connected_nodes, Vec::<usize>::new());
}

#[test]
fn test_search_matches_empty_inputs() {
    let matches = search_matches(Vec::new(), Vec::new(), 5);
    assert_eq!(matches.len(), 0);
    // the smaller, queried side is empty either way round
    let matches = search_matches(vec!["a".to_string()], Vec::new(), 5);
    assert_eq!(matches.len(), 0);
    let matches = search_matches(Vec::new(), vec!["a".to_string()], 5);
    assert_eq!(matches.len(), 0);
}
