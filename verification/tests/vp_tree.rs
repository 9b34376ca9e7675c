use mnemonist::vp_tree::{StringVpTree, VpNeighbor};

fn words() -> Vec<String> {
    [
        "book",
        "back",
        "bock",
        "lock",
        "mack",
        "shock",
        "ephemeral",
        "magistral",
        "shawarma",
        "falafel",
        "onze",
        "douze",
        "treize",
        "quatorze",
        "quinze",
    ]
    .into_iter()
    .map(str::to_owned)
    .collect()
}

fn neighbor(distance: usize, item: &str) -> VpNeighbor {
    VpNeighbor {
        distance,
        item: item.to_owned(),
    }
}

#[test]
fn matches_mnemonist_nearest_neighbor_tie_order() {
    let tree = StringVpTree::new(words());

    assert_eq!(
        tree.nearest_neighbors(2, "look"),
        vec![neighbor(1, "book"), neighbor(1, "lock")]
    );
    assert_eq!(
        tree.nearest_neighbors(5, "look"),
        vec![
            neighbor(1, "lock"),
            neighbor(1, "book"),
            neighbor(2, "bock"),
            neighbor(3, "mack"),
            neighbor(3, "back"),
        ]
    );
}

#[test]
fn finds_all_neighbors_within_radius() {
    let tree = StringVpTree::new(words());
    let mut neighbors = tree.neighbors(2, "look");
    neighbors.sort_by(|left, right| left.item.cmp(&right.item));
    assert_eq!(
        neighbors,
        vec![neighbor(2, "bock"), neighbor(1, "book"), neighbor(1, "lock")]
    );
}

#[test]
fn empty_tree_finds_nothing() {
    let tree = StringVpTree::new(Vec::new());
    assert_eq!(tree.size(), 0);
    assert!(tree.nearest_neighbors(3, "look").is_empty());
    assert!(tree.neighbors(3, "look").is_empty());
}

#[test]
fn zero_neighbors_requested() {
    let tree = StringVpTree::new(words());
    assert!(tree.nearest_neighbors(0, "look").is_empty());
}

#[test]
fn nearest_neighbors_are_capped_by_size() {
    let tree = StringVpTree::new(vec!["a".to_owned(), "bb".to_owned()]);
    let found = tree.nearest_neighbors(5, "a");
    assert_eq!(found, vec![neighbor(0, "a"), neighbor(2, "bb")]);
}

#[test]
fn radius_search_matches_brute_force() {
    let items = words();
    let tree = StringVpTree::new(items.clone());
    for radius in 0..6 {
        let mut found: Vec<String> = tree
            .neighbors(radius, "quinte")
            .into_iter()
            .map(|n| n.item)
            .collect();
        found.sort();
        let mut expected: Vec<String> = items
            .iter()
            .filter(|w| mnemonist::bk_tree::levenshtein(w, "quinte") <= radius)
            .cloned()
            .collect();
        expected.sort();
        assert_eq!(found, expected);
    }
}

#[test]
fn duplicate_items_are_all_reported() {
    let tree = StringVpTree::new(vec!["x".to_owned(), "x".to_owned(), "y".to_owned()]);
    assert_eq!(tree.neighbors(0, "x").len(), 2);
    assert_eq!(tree.nearest_neighbors(2, "x"), vec![neighbor(0, "x"), neighbor(0, "x")]);
}
