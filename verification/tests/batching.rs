use xiv_core::batching::group_by_key;

#[test]
fn groups_follow_first_occurrence() {
    let keys: Vec<String> = ["a", "b", "a", "c", "b"].iter().map(|s| s.to_string()).collect();
    let groups = group_by_key(&keys);
    assert_eq!(
        groups,
        vec![
            ("a".to_string(), vec![0, 2]),
            ("b".to_string(), vec![1, 4]),
            ("c".to_string(), vec![3]),
        ]
    );
}

#[test]
fn empty_batch_has_no_groups() {
    let groups = group_by_key(&Vec::new());
    assert!(groups.is_empty());
}

#[test]
fn one_key_makes_one_group() {
    let keys: Vec<String> = vec!["x".to_string(); 4];
    assert_eq!(group_by_key(&keys), vec![("x".to_string(), vec![0, 1, 2, 3])]);
}
