use csv_frame::suggestion_tree::SuggestionTree;

#[test]
fn test() {
    let mut tree = SuggestionTree::default();
    tree.append("foo");
    tree.append("bar");
    tree.append("baz");

    let suggestions = tree.suggest("b");
    assert_eq!(suggestions.len(), 2);
}

#[test]
fn suggestions_stop_at_first_word() {
    let mut tree = SuggestionTree::new();
    tree.append("Sum");
    tree.append("Summary");
    tree.append("Filter");
    tree.append("Sum");
    assert_eq!(tree.suggest("Su"), vec!["Sum".to_string()]);
    assert_eq!(tree.suggest("F"), vec!["Filter".to_string()]);
    assert!(tree.suggest("x").is_empty());
}

#[test]
fn base_tree_suggests_keywords() {
    let tree = SuggestionTree::base_tree();
    assert_eq!(tree.suggest(""), vec!["Filter".to_string(), "Average".to_string(), "Sum".to_string()]);
    assert_eq!(tree.suggest("A"), vec!["Average".to_string()]);
}
