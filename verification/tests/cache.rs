use metaboss::batch::retry::RunStatus;
use metaboss::commands::collections::migrate::{
    migration_run, mint_source, CacheItem, MigrateArgs, MigrateArgsError, MigrateCache,
    MigrateError, MintSource,
};

fn s(text: &str) -> String {
    text.to_string()
}

fn failed(key: &str, reason: &str) -> MigrateError {
    MigrateError::MigrationFailed(s(key), s(reason))
}

fn entry(key: &str, reason: &str) -> (String, Option<String>) {
    (s(key), Some(format!("Migration failed with error: {}", reason)))
}

#[test]
fn new_cache_is_empty() {
    let cache = MigrateCache::new();
    assert!(cache.is_empty());
    assert_eq!(cache.len(), 0);
    assert!(cache.keys().is_empty());
    assert!(cache.entries().is_empty());
}

#[test]
fn error_text_names_the_reason() {
    assert_eq!(failed("mint", "timed out").to_string(), "Migration failed with error: timed out");
}

#[test]
fn update_errors_records_each_failure_under_its_key() {
    let mut cache = MigrateCache::new();
    cache.update_errors(vec![failed("b", "two"), failed("a", "one")]);
    assert_eq!(cache.len(), 2);
    assert_eq!(cache.keys(), vec![s("b"), s("a")]);
    assert_eq!(cache.entries(), vec![entry("b", "two"), entry("a", "one")]);
}

#[test]
fn update_errors_replaces_what_was_there() {
    let mut cache = MigrateCache::new();
    cache.update_errors(vec![failed("a", "one"), failed("b", "two")]);
    cache.update_errors(vec![failed("c", "three")]);
    assert_eq!(cache.entries(), vec![entry("c", "three")]);
    cache.update_errors(Vec::new());
    assert!(cache.is_empty());
}

#[test]
fn update_errors_keeps_one_entry_for_a_key_that_failed_twice() {
    let mut cache = MigrateCache::new();
    cache.update_errors(vec![failed("a", "first"), failed("b", "other"), failed("a", "second")]);
    assert_eq!(cache.entries(), vec![entry("a", "second"), entry("b", "other")]);
}

#[test]
fn insert_and_clear() {
    let mut cache = MigrateCache::new();
    cache.insert(s("k"), CacheItem { error: None });
    cache.insert(s("j"), CacheItem { error: Some(s("e")) });
    cache.insert(s("k"), CacheItem { error: Some(s("later")) });
    assert_eq!(cache.entries(), vec![(s("k"), Some(s("later"))), (s("j"), Some(s("e")))]);
    cache.clear();
    assert!(cache.is_empty());
}

#[test]
fn write_orders_by_key_and_prints_pretty_json() {
    let mut cache = MigrateCache::new();
    cache.update_errors(vec![failed("b", "two"), failed("c", "say \"no\""), failed("a", "one")]);
    let text = cache.write().unwrap();
    let expected = "{\n  \"a\": {\n    \"error\": \"Migration failed with error: one\"\n  },\n  \"b\": {\n    \"error\": \"Migration failed with error: two\"\n  },\n  \"c\": {\n    \"error\": \"Migration failed with error: say \\\"no\\\"\"\n  }\n}";
    assert_eq!(text, expected);
    assert_eq!(cache.keys(), vec![s("a"), s("b"), s("c")]);
}

#[test]
fn every_cache_can_be_written_again_and_again() {
    let mut cache = MigrateCache::from_entries(vec![(s("k\u{0}"), Some(s("\u{1f}\t"))), (s(""), None)]);
    let first = cache.write();
    assert!(first.is_ok());
    assert_eq!(cache.write(), first);
    assert_eq!(cache.write(), first);
}

#[test]
fn write_of_empty_cache_is_an_empty_object() {
    let mut cache = MigrateCache::new();
    assert_eq!(cache.write().unwrap(), "{}");
}

#[test]
fn write_prints_null_for_an_item_without_error() {
    let mut cache = MigrateCache::from_entries(vec![(s("z"), None), (s("y"), Some(s("e")))]);
    assert_eq!(
        cache.write().unwrap(),
        "{\n  \"y\": {\n    \"error\": \"e\"\n  },\n  \"z\": {\n    \"error\": null\n  }\n}"
    );
}

#[test]
fn write_orders_keys_as_strings_compare() {
    let mut cache = MigrateCache::from_entries(vec![
        (s("b"), None),
        (s("B"), None),
        (s("10"), None),
        (s("9"), None),
        (s("ab"), None),
        (s(""), None),
        (s("é"), None),
    ]);
    cache.write().unwrap();
    let mut expected = vec![s("b"), s("B"), s("10"), s("9"), s("ab"), s(""), s("é")];
    expected.sort();
    assert_eq!(cache.keys(), expected);
    assert_eq!(cache.keys(), vec![s(""), s("10"), s("9"), s("B"), s("ab"), s("b"), s("é")]);
}

fn load(text: &str) -> MigrateCache {
    let value: serde_json::Value = serde_json::from_str(text).unwrap();
    let mut entries = Vec::new();
    for (key, item) in value.as_object().unwrap() {
        let error = item.get("error").unwrap().as_str().map(|e| e.to_string());
        entries.push((key.clone(), error));
    }
    MigrateCache::from_entries(entries)
}

#[test]
fn written_cache_loaded_and_written_again_gives_the_same_bytes() {
    let mut cache = MigrateCache::new();
    cache.update_errors(vec![
        failed("mintC", "line\nbreak"),
        failed("mintA", "quote \" and \\ slash"),
        failed("mintB", "ünï"),
    ]);
    cache.insert(s("mint0"), CacheItem { error: None });
    let first = cache.write().unwrap();
    let mut loaded = load(&first);
    assert_eq!(loaded.entries(), cache.entries());
    let second = loaded.write().unwrap();
    assert_eq!(first.as_bytes(), second.as_bytes());
    // and writing the same cache again moves nothing
    let third = cache.write().unwrap();
    assert_eq!(first, third);
}

#[test]
fn from_entries_inserts_in_turn() {
    let cache = MigrateCache::from_entries(vec![(s("a"), Some(s("1"))), (s("b"), None), (s("a"), None)]);
    assert_eq!(cache.entries(), vec![(s("a"), None), (s("b"), None)]);
}

#[test]
fn mint_source_is_the_one_named() {
    assert_eq!(mint_source(Some(s("cm")), None), Ok(MintSource::CandyMachine(s("cm"))));
    assert_eq!(mint_source(None, Some(vec![s("m1")])), Ok(MintSource::MintList(vec![s("m1")])));
    assert_eq!(mint_source(Some(s("cm")), Some(vec![])), Err(MigrateArgsError::BothSources));
    assert_eq!(mint_source(None, None), Err(MigrateArgsError::NoSource));
}

#[test]
fn migration_run_takes_a_slot_for_each_token() {
    let args = MigrateArgs {
        keypair: None,
        mint_address: s("collection"),
        candy_machine_id: None,
        mint_list: None,
        retries: 1,
        batch_size: 2,
    };
    let mut run = migration_run(vec![s("m1"), s("m2"), s("m3")], &args);
    assert_eq!(run.capacity(), 2);
    assert_eq!(run.dispatch().len(), 2);
    assert!(run.complete(0, metaboss::batch::pool::TaskEvent::Returned(Ok(()))));
    // strict policy: the freed slot is taken at once
    assert_eq!(run.dispatch().len(), 1);
    assert_eq!(run.status(), RunStatus::Running);
}
