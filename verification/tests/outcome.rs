use metaboss::batch::outcome::{
    add_to_group, group_by_key, partition, validate_membership, ClassificationMismatch,
};
use metaboss::commands::collections::items::{
    check_collection_items, collection_check_pool, collection_items_text, index_api_key,
    mismatch_message, CollectionError, GetCollectionItemsMethods, PARALLEL_LIMIT,
};

fn s(text: &str) -> String {
    text.to_string()
}

#[test]
fn partition_splits_and_keeps_order() {
    let results: Vec<(String, Result<u8, String>)> = vec![
        (s("a"), Ok(1)),
        (s("b"), Err(s("bad b"))),
        (s("c"), Ok(3)),
        (s("d"), Err(s("bad d"))),
        (s("e"), Ok(5)),
    ];
    let (successes, failures) = partition(results);
    assert_eq!(successes, vec![(s("a"), 1), (s("c"), 3), (s("e"), 5)]);
    assert_eq!(failures, vec![(s("b"), s("bad b")), (s("d"), s("bad d"))]);
}

#[test]
fn partition_of_nothing_is_two_empty_parts() {
    let (successes, failures) = partition(Vec::<(String, Result<(), String>)>::new());
    assert!(successes.is_empty());
    assert!(failures.is_empty());
}

#[test]
fn groups_stand_in_order_of_first_member() {
    let classified = vec![
        (s("m1"), Some(s("B"))),
        (s("m2"), None),
        (s("m3"), Some(s("A"))),
        (s("m4"), Some(s("B"))),
        (s("m5"), None),
    ];
    let groups = group_by_key(classified);
    assert_eq!(
        groups,
        vec![
            (s("B"), vec![s("m1"), s("m4")]),
            (s("none"), vec![s("m2"), s("m5")]),
            (s("A"), vec![s("m3")]),
        ]
    );
}

#[test]
fn add_to_group_joins_or_founds() {
    let mut groups: Vec<(String, Vec<String>)> = Vec::new();
    add_to_group(&mut groups, s("A"), s("x"));
    add_to_group(&mut groups, s("B"), s("y"));
    add_to_group(&mut groups, s("A"), s("z"));
    assert_eq!(groups, vec![(s("A"), vec![s("x"), s("z")]), (s("B"), vec![s("y")])]);
}

#[test]
fn membership_holds_for_one_full_group() {
    let groups = vec![(s("A"), vec![s("1"), s("2"), s("3")])];
    assert_eq!(validate_membership(&groups, "A", 3), Ok(()));
}

#[test]
fn membership_reports_missing_group() {
    let groups = vec![(s("B"), vec![s("1")])];
    let mismatch = validate_membership(&groups, "A", 1).unwrap_err();
    assert_eq!(
        mismatch,
        ClassificationMismatch {
            expected_group_missing: true,
            extra_groups: vec![s("B")],
            classified: 0,
            total: 1,
        }
    );
    assert!(mismatch.has_extra_groups());
    assert!(mismatch.has_count_mismatch());
    let none: Vec<(String, Vec<String>)> = Vec::new();
    let mismatch = validate_membership(&none, "A", 0).unwrap_err();
    assert!(mismatch.expected_group_missing);
    assert!(!mismatch.has_extra_groups());
    assert!(!mismatch.has_count_mismatch());
}

#[test]
fn membership_reports_extra_groups_alone() {
    // more results than items: the count fits, another group is there
    let groups = vec![(s("A"), vec![s("1"), s("2")]), (s("C"), vec![s("3")])];
    let mismatch = validate_membership(&groups, "A", 2).unwrap_err();
    assert!(!mismatch.expected_group_missing);
    assert_eq!(mismatch.extra_groups, vec![s("C")]);
    assert!(!mismatch.has_count_mismatch());
}

#[test]
fn membership_reports_count_mismatch_alone() {
    let groups = vec![(s("A"), vec![s("1"), s("2")])];
    let mismatch = validate_membership(&groups, "A", 3).unwrap_err();
    assert!(!mismatch.expected_group_missing);
    assert!(!mismatch.has_extra_groups());
    assert!(mismatch.has_count_mismatch());
    assert_eq!((mismatch.classified, mismatch.total), (2, 3));
}

#[test]
fn classification_of_four_in_a_group_and_one_without_is_a_count_mismatch() {
    let results: Vec<(String, Result<Option<String>, String>)> = vec![
        (s("m1"), Ok(Some(s("A")))),
        (s("m2"), Ok(Some(s("A")))),
        (s("m3"), Ok(None)),
        (s("m4"), Ok(Some(s("A")))),
        (s("m5"), Ok(Some(s("A")))),
    ];
    let mismatch = check_collection_items(results, "A", 5).unwrap_err();
    assert!(mismatch.has_count_mismatch());
    assert_eq!(mismatch.classified, 4);
    assert_eq!(mismatch.total, 5);
    assert!(!mismatch.expected_group_missing);
    assert_eq!(mismatch.extra_groups, vec![s("none")]);
    assert_eq!(
        mismatch_message(&mismatch),
        "Not all mints from the list belong to this parent. Run with --debug to see more details."
    );
}

#[test]
fn collection_check_passes_when_all_belong() {
    let results: Vec<(String, Result<Option<String>, String>)> =
        vec![(s("m1"), Ok(Some(s("P")))), (s("m2"), Ok(Some(s("P"))))];
    assert_eq!(check_collection_items(results, "P", 2), Ok(()));
}

#[test]
fn collection_check_counts_failed_lookups_as_missing_members() {
    let results: Vec<(String, Result<Option<String>, String>)> =
        vec![(s("m1"), Ok(Some(s("P")))), (s("m2"), Err(s("timeout")))];
    let mismatch = check_collection_items(results, "P", 2).unwrap_err();
    assert_eq!((mismatch.classified, mismatch.total), (1, 2));
    assert!(mismatch.extra_groups.is_empty());
}

#[test]
fn collection_check_without_any_member_names_the_missing_parent() {
    let results: Vec<(String, Result<Option<String>, String>)> = vec![(s("m1"), Ok(Some(s("Q"))))];
    let mismatch = check_collection_items(results, "P", 1).unwrap_err();
    assert!(mismatch.expected_group_missing);
    assert_eq!(
        mismatch_message(&mismatch),
        "No mints found for this parent. Run with --debug to see more details."
    );
}

#[test]
fn collection_check_pool_refills_by_watermark() {
    let mints: Vec<String> = (0..120).map(|i| format!("mint{}", i)).collect();
    let mut pool = collection_check_pool(mints);
    assert_eq!(pool.capacity(), PARALLEL_LIMIT);
    assert_eq!(pool.dispatch().len(), PARALLEL_LIMIT);
    for ticket in 0..PARALLEL_LIMIT / 2 {
        assert!(pool.complete(ticket, metaboss::batch::pool::TaskEvent::Returned(Ok(None))));
        assert!(pool.dispatch().is_empty());
    }
    assert!(pool.complete(PARALLEL_LIMIT / 2, metaboss::batch::pool::TaskEvent::Returned(Ok(None))));
    assert_eq!(pool.dispatch().len(), PARALLEL_LIMIT / 2 + 1);
    assert_eq!(pool.in_flight(), PARALLEL_LIMIT);
}

#[test]
fn index_needs_a_key() {
    assert_eq!(
        index_api_key(GetCollectionItemsMethods::TheIndexIO, Some(s("k"))),
        Ok(s("k"))
    );
    assert_eq!(
        index_api_key(GetCollectionItemsMethods::TheIndexIO, None),
        Err(CollectionError::MissingIndexKey)
    );
}

#[test]
fn collection_items_are_listed_sorted_and_pretty() {
    let text = collection_items_text(vec![s("b"), s("c"), s("a")]).unwrap();
    assert_eq!(text, "[\n  \"a\",\n  \"b\",\n  \"c\"\n]");
    assert_eq!(collection_items_text(Vec::new()).unwrap(), "[]");
}
