use mnemonist::multi_set::MultiSet;

#[test]
fn top_matches_upstream_tie_order() {
    let set = MultiSet::from_iter(
        "This is a very interesting albeit boring string."
            .chars()
            .map(|character| character.to_string())
            .collect(),
    );

    assert_eq!(
        set.top(5).unwrap(),
        vec![
            ("i".to_string(), 7),
            (" ".to_string(), 7),
            ("r".to_string(), 4),
            ("e".to_string(), 4),
            ("s".to_string(), 4),
        ]
    );
}
