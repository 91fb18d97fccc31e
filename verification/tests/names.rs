use porthole::names::sort_names;

#[test]
fn names_sort_like_strings() {
    let list: Vec<String> = ["mc", "Zed", "a", "", "mc2", "äpfel", "zzz", "mb"]
        .iter()
        .map(|s| s.to_string())
        .collect();
    let mut expected = list.clone();
    expected.sort();
    assert_eq!(sort_names(&list), expected);
    assert!(sort_names(&Vec::new()).is_empty());
}
