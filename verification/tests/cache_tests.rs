use std::hash::{Hash, Hasher};

use nodespace_core_logic::embedding_cache::{
    digest_text, CacheMetrics, ContentHash, ContextHash, ContextStrategy, PathHash, RelationshipFingerprint,
    SmartEmbeddingCache, Timestamp,
};
use nodespace_core_logic::hierarchy::HierarchyCache;
use nodespace_core_logic::lru::LruCache;
use nodespace_core_logic::model::NodeId;

fn key(s: &str) -> ContentHash {
    ContentHash::from_content(s)
}

fn id(s: &str) -> NodeId {
    NodeId::from_string(s.to_string())
}

fn context_key(content: &str) -> ContextHash {
    ContextHash {
        content_hash: key(content),
        parent_hash: None,
        sibling_hashes: vec![],
        children_hashes: vec![],
        mention_hashes: vec![],
        strategy: ContextStrategy::RuleBased,
    }
}

fn fingerprint(parent: Option<&str>) -> RelationshipFingerprint {
    RelationshipFingerprint {
        parent_id: parent.map(id),
        sibling_ids: vec![],
        children_ids: vec![],
        mention_ids: vec![],
        last_modified: Timestamp { secs: 0, nanos: 0 },
    }
}

#[test]
fn content_hash_is_hex_of_std_hasher() {
    let mut h = std::collections::hash_map::DefaultHasher::new();
    "hello world".hash(&mut h);
    let expected = format!("{:x}", h.finish());
    assert_eq!(key("hello world").0, expected);
    assert_eq!(digest_text("hello world"), h.finish());
    assert_eq!(key("same"), key("same"));
    assert_ne!(key("one"), key("two"));
    assert!(key("x").0.chars().all(|c| c.is_ascii_hexdigit() && !c.is_ascii_uppercase()));
}

#[test]
fn lru_get_after_insert() {
    let mut c: LruCache<ContentHash, u32> = LruCache::new(3);
    assert!(c.is_empty());
    c.insert(key("a"), 1);
    assert_eq!(c.get(&key("a")).map(|v| *v), Some(1));
    assert!(c.get(&key("b")).is_none());
    assert_eq!(c.len(), 1);
    assert_eq!(c.capacity(), 3);
}

#[test]
fn lru_evicts_least_recently_used() {
    let mut c: LruCache<ContentHash, u32> = LruCache::new(2);
    c.insert(key("a"), 1);
    c.insert(key("b"), 2);
    assert!(c.get(&key("a")).is_some());
    c.insert(key("c"), 3);
    assert_eq!(c.len(), 2);
    assert!(c.contains_key(&key("a")));
    assert!(!c.contains_key(&key("b")));
    assert!(c.contains_key(&key("c")));
}

#[test]
fn lru_replacing_keeps_size() {
    let mut c: LruCache<ContentHash, u32> = LruCache::new(2);
    c.insert(key("a"), 1);
    c.insert(key("b"), 2);
    c.insert(key("a"), 10);
    assert_eq!(c.len(), 2);
    c.insert(key("c"), 3);
    assert!(!c.contains_key(&key("b")));
    assert_eq!(c.get(&key("a")).map(|v| *v), Some(10));
}

#[test]
fn lru_capacity_zero_still_holds_one() {
    let mut c: LruCache<ContentHash, u32> = LruCache::new(0);
    c.insert(key("a"), 1);
    assert_eq!(c.len(), 1);
    c.insert(key("b"), 2);
    assert_eq!(c.len(), 1);
    assert!(c.contains_key(&key("b")));
}

#[test]
fn lru_remove_and_clear() {
    let mut c: LruCache<ContentHash, u32> = LruCache::new(4);
    c.insert(key("a"), 1);
    c.insert(key("b"), 2);
    assert_eq!(c.remove(&key("a")), Some(1));
    assert_eq!(c.remove(&key("a")), None);
    assert!(c.contains_key(&key("b")));
    assert_eq!(c.keys().len(), 1);
    c.clear();
    assert!(c.is_empty());
}

#[test]
fn smart_cache_individual_hit_and_miss() {
    let mut c: SmartEmbeddingCache<Vec<u32>> = SmartEmbeddingCache::new();
    assert!(c.get_individual_embedding(&key("t")).is_none());
    c.cache_individual_embedding(key("t"), vec![1, 2]);
    assert_eq!(c.get_individual_embedding(&key("t")), Some(vec![1, 2]));
    assert_eq!(c.metrics().individual_hits, 1);
    assert_eq!(c.metrics().individual_misses, 1);
    let stats = c.cache_stats();
    assert_eq!(stats.individual_count, 1);
    assert_eq!(stats.individual_capacity, 10000);
    assert_eq!(stats.contextual_capacity, 5000);
    assert_eq!(stats.hierarchical_capacity, 2000);
}

#[test]
fn smart_cache_contextual_round_trip() {
    let mut c: SmartEmbeddingCache<u8> = SmartEmbeddingCache::with_capacity(2, 2, 2);
    c.cache_contextual_embedding(context_key("n"), 7, fingerprint(Some("p")));
    assert_eq!(c.get_contextual_embedding(&context_key("n")), Some(7));
    assert_eq!(c.get_contextual_embedding(&context_key("m")), None);
    assert_eq!(c.metrics().contextual_hits, 1);
    assert_eq!(c.metrics().contextual_misses, 1);
}

#[test]
fn invalidation_follows_dependencies() {
    let mut c: SmartEmbeddingCache<u8> = SmartEmbeddingCache::with_capacity(4, 4, 4);
    let mut under_b = context_key("child of b");
    under_b.parent_hash = Some(key("b"));
    let mut under_c = context_key("child of c");
    under_c.parent_hash = Some(key("c"));
    let mut under_z = context_key("child of z");
    under_z.parent_hash = Some(key("z"));
    c.cache_contextual_embedding(under_b, 1, fingerprint(Some("b")));
    c.cache_contextual_embedding(under_c, 2, fingerprint(Some("c")));
    c.cache_contextual_embedding(under_z, 3, fingerprint(Some("z")));
    c.update_fingerprint(id("b"), fingerprint(Some("a")));
    c.add_dependency(id("b"), id("a"));
    c.add_dependency(id("c"), id("b"));
    let before = c.metrics().invalidations;
    c.invalidate_node_embeddings(&id("a"));
    assert_eq!(c.metrics().invalidations, before + 3);
    assert_eq!(c.cache_stats().contextual_count, 1);
    assert_eq!(c.get_contextual_embedding(&{
        let mut k = context_key("child of z");
        k.parent_hash = Some(key("z"));
        k
    }), Some(3));
}

#[test]
fn clear_all_empties_every_tier() {
    let mut c: SmartEmbeddingCache<u8> = SmartEmbeddingCache::with_capacity(4, 4, 4);
    c.cache_individual_embedding(key("a"), 1);
    c.cache_contextual_embedding(context_key("b"), 2, fingerprint(None));
    c.add_dependency(id("x"), id("y"));
    c.clear_all();
    let s = c.cache_stats();
    assert_eq!(s.individual_count + s.contextual_count + s.hierarchical_count, 0);
    assert_eq!(s.dependency_count, 0);
}

#[test]
fn metrics_reset_to_zero() {
    let mut m = CacheMetrics::new();
    m.individual_hits = 5;
    m.reset();
    assert_eq!(m.individual_hits, 0);
    assert!(m.last_reset.is_some());
}

#[test]
fn hierarchy_cache_reads_back_and_invalidates() {
    let mut h = HierarchyCache::new();
    assert!(h.is_expired());
    h.cache_depth(id("n"), 3);
    h.cache_children(id("p"), vec![id("c1"), id("c2")]);
    assert!(!h.is_expired());
    assert_eq!(h.get_depth(&id("n")), Some(3));
    assert_eq!(h.get_children(&id("p")).map(|v| v.len()), Some(2));
    assert_eq!(h.get_depth(&id("other")), None);
    h.invalidate();
    assert!(h.is_expired());
    assert_eq!(h.get_depth(&id("n")), None);
    assert!(h.get_children(&id("p")).is_none());
}

#[test]
fn smart_cache_hierarchical_round_trip() {
    let path = || PathHash { content_hash: key("leaf"), path_hashes: vec![key("root"), key("mid")] };
    let mut c: SmartEmbeddingCache<u8> = SmartEmbeddingCache::with_capacity(2, 2, 2);
    assert_eq!(c.get_hierarchical_embedding(&path()), None);
    c.cache_hierarchical_embedding(path(), 9, fingerprint(Some("mid")));
    assert_eq!(c.get_hierarchical_embedding(&path()), Some(9));
    assert_eq!(c.metrics().hierarchical_hits, 1);
    assert_eq!(c.metrics().hierarchical_misses, 1);
    assert_eq!(c.cache_stats().hierarchical_count, 1);
}
