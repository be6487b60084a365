use fuzzy_match::vptree::VPTree;

fn sorted(mut v: Vec<usize>) -> Vec<usize> {
    v.sort();
    v
}

#[test]
fn test_build() {
    let data = vec![
        "motherfucker".to_string(),
        "bull".to_string(),
        "shit".to_string(),
        "shite".to_string(),
        "shoot".to_string(),
        "shot".to_string(),
    ];
    let tree = VPTree::new(&data);
    assert_eq!(tree.root.is_some(), true);
    if let Some(root) = &tree.root {
        println!("Root: {}", root.data);
    }
}

#[test]
fn test_search() {
    let data = vec![
        "bla".to_string(),
        "blub".to_string(),
        "asdf".to_string(),
        ":assd".to_string(),
        "ast".to_string(),
        "baube".to_string(),
    ];
    let tree = VPTree::new(&data);
    let result = tree.search(&"blau".to_string(), 3);
    assert_eq!(result, vec![5, 0, 1]);
    let result = tree.search(&"b".to_string(), 1);
    assert_eq!(result, Vec::<usize>::new());
}

#[test]
fn test_empty_corpus() {
    let data: Vec<String> = Vec::new();
    let tree = VPTree::new(&data);
    assert!(tree.root.is_none());
    assert_eq!(tree.search(&"anything".to_string(), 10), Vec::<usize>::new());
    assert_eq!(tree.search(&"".to_string(), 0), Vec::<usize>::new());
}

#[test]
fn test_single_entry_radius() {
    let data = vec!["kitten".to_string()];
    let tree = VPTree::new(&data);
    assert_eq!(tree.search(&"sitting".to_string(), 3), vec![0]);
    assert_eq!(tree.search(&"sitting".to_string(), 2), Vec::<usize>::new());
}

#[test]
fn test_large_radius_returns_all() {
    let data = vec![
        "bla".to_string(),
        "blub".to_string(),
        "asdf".to_string(),
        ":assd".to_string(),
        "ast".to_string(),
        "baube".to_string(),
    ];
    let tree = VPTree::new(&data);
    // every pairwise distance is at most the longest string's length
    let result = sorted(tree.search(&"bla".to_string(), 5));
    assert_eq!(result, vec![0, 1, 2, 3, 4, 5]);
}

#[test]
fn test_radius_zero_exact_match() {
    let data = vec![
        "bla".to_string(),
        "blub".to_string(),
        "asdf".to_string(),
    ];
    let tree = VPTree::new(&data);
    assert_eq!(tree.search(&"blub".to_string(), 0), vec![1]);
    assert_eq!(tree.search(&"blau".to_string(), 0), Vec::<usize>::new());
}

#[test]
fn test_duplicates_keep_all_indices() {
    let data = vec![
        "shot".to_string(),
        "shit".to_string(),
        "shot".to_string(),
    ];
    let tree = VPTree::new(&data);
    assert_eq!(sorted(tree.search(&"shot".to_string(), 0)), vec![0, 2]);
}

#[test]
fn test_repeated_queries_identical() {
    let data = vec![
        "bla".to_string(),
        "blub".to_string(),
        "asdf".to_string(),
        ":assd".to_string(),
        "ast".to_string(),
        "baube".to_string(),
    ];
    let tree = VPTree::new(&data);
    let first = tree.search(&"blau".to_string(), 3);
    let second = tree.search(&"blau".to_string(), 3);
    let third = tree.search(&"blau".to_string(), 3);
    assert_eq!(first, second);
    assert_eq!(second, third);
}
