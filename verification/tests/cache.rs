use gpui_gfm::cache::{MarkdownCache, DEFAULT_MAX_SOURCE_LEN};
use gpui_gfm::parse::parse_markdown;
use std::sync::Arc;

#[test]
fn cache_miss_returns_none() {
    let mut cache = MarkdownCache::default();
    assert!(cache.get("**hello**").is_none());
}

#[test]
fn cache_hit_returns_same_arc() {
    let mut cache = MarkdownCache::default();
    let source = "**hello**";
    let parsed = parse_markdown(source);
    let ptr = Arc::as_ptr(parsed.blocks_arc());

    cache.insert(source, parsed);
    let cached = cache.get(source).expect("should hit");
    assert_eq!(Arc::as_ptr(cached.blocks_arc()), ptr);
}

#[test]
fn get_or_parse_caches_on_first_call() {
    let mut cache = MarkdownCache::default();
    let source = "# Title";

    let first = cache.get_or_parse(source);
    let second = cache.get_or_parse(source);

    assert_eq!(Arc::as_ptr(first.blocks_arc()), Arc::as_ptr(second.blocks_arc()));
    assert_eq!(cache.len(), 1);
}

#[test]
fn get_or_parse_skips_cache_for_large_source() {
    let mut cache = MarkdownCache::new(256, 10);
    let source = "a".repeat(20);

    let first = cache.get_or_parse(&source);
    let second = cache.get_or_parse(&source);

    assert_ne!(Arc::as_ptr(first.blocks_arc()), Arc::as_ptr(second.blocks_arc()));
    assert_eq!(cache.len(), 0);
}

#[test]
fn evicts_oldest_when_full() {
    let mut cache = MarkdownCache::new(3, DEFAULT_MAX_SOURCE_LEN);

    cache.get_or_parse("a");
    cache.get_or_parse("b");
    cache.get_or_parse("c");
    assert_eq!(cache.len(), 3);

    cache.get_or_parse("d");
    assert_eq!(cache.len(), 3);
    assert!(cache.get("a").is_none());
    assert!(cache.get("d").is_some());
}

#[test]
fn get_refreshes_lru_order() {
    let mut cache = MarkdownCache::new(3, DEFAULT_MAX_SOURCE_LEN);

    cache.get_or_parse("a");
    cache.get_or_parse("b");
    cache.get_or_parse("c");

    cache.get("a");

    cache.get_or_parse("d");
    assert_eq!(cache.len(), 3);
    assert!(cache.get("a").is_some());
    assert!(cache.get("b").is_none());
}

#[test]
fn insert_existing_key_refreshes_but_does_not_replace() {
    let mut cache = MarkdownCache::new(3, DEFAULT_MAX_SOURCE_LEN);

    let first = parse_markdown("x");
    let first_ptr = Arc::as_ptr(first.blocks_arc());
    cache.insert("x", first);

    let second = parse_markdown("x");
    let second_ptr = Arc::as_ptr(second.blocks_arc());
    cache.insert("x", second);

    let cached = cache.get("x").unwrap();
    assert_eq!(Arc::as_ptr(cached.blocks_arc()), first_ptr);
    assert_ne!(Arc::as_ptr(cached.blocks_arc()), second_ptr);
}

#[test]
fn clear_empties_cache() {
    let mut cache = MarkdownCache::default();
    cache.get_or_parse("a");
    cache.get_or_parse("b");
    assert_eq!(cache.len(), 2);

    cache.clear();
    assert!(cache.is_empty());
    assert!(cache.get("a").is_none());
}

#[test]
fn max_entries_is_at_least_one() {
    let cache = MarkdownCache::new(0, DEFAULT_MAX_SOURCE_LEN);
    assert_eq!(cache.max_entries(), 1);
}

#[test]
fn insert_then_get_returns_inserted_document() {
    let mut cache = MarkdownCache::new(2, DEFAULT_MAX_SOURCE_LEN);
    let parsed = parse_markdown("# one");
    let ptr = Arc::as_ptr(parsed.blocks_arc());
    cache.insert("one", parsed);
    let got = cache.get("one").unwrap();
    assert_eq!(Arc::as_ptr(got.blocks_arc()), ptr);
}

#[test]
fn len_never_exceeds_max_entries() {
    let mut cache = MarkdownCache::new(2, DEFAULT_MAX_SOURCE_LEN);
    for s in ["a", "b", "c", "d", "e"] {
        cache.get_or_parse(s);
        assert!(cache.len() <= cache.max_entries());
    }
    assert_eq!(cache.len(), 2);
    assert!(cache.get("d").is_some());
    assert!(cache.get("e").is_some());
}

#[test]
fn get_miss_keeps_entries() {
    let mut cache = MarkdownCache::new(2, DEFAULT_MAX_SOURCE_LEN);
    cache.get_or_parse("a");
    assert!(cache.get("zzz").is_none());
    assert_eq!(cache.len(), 1);
    assert!(cache.get("a").is_some());
}
