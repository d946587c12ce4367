use vstd::prelude::*;

use std::collections::hash_map::DefaultHasher;
use std::hash::Hash;
use std::hash::Hasher;
use std::time::Instant;
use vstd::std_specs::hash::DefaultHasherAdditionalSpecFns;

use crate::lru::{CacheKey, LruCache};
use crate::model::{NodeId, clone_opt_id};
use crate::text::{push_char, str_eq};

verus! {

/// The writes that `<str as Hash>::hash` makes into a hasher for a text.
pub uninterp spec fn spec_str_hash_writes(s: Seq<char>) -> Seq<Seq<u8>>;

/// Feeds a text into a hasher.
///
/// Trusted: calls `<str as Hash>::hash`, which writes into the hasher a sequence of
/// byte strings that depends on the text alone; that sequence is named
/// `spec_str_hash_writes`.
#[verifier::external_body]
fn hash_str_into(s: &str, state: &mut DefaultHasher)
    ensures
        final(state)@ == old(state)@ + spec_str_hash_writes(s@),
{
    s.hash(state)
}

/// The 64-bit digest of a text under the standard hasher with its fixed default keys.
pub open spec fn text_digest(s: Seq<char>) -> u64 {
    DefaultHasher::spec_finish(spec_str_hash_writes(s))
}

/// Hashes a text with a fresh standard hasher.
pub fn digest_text(s: &str) -> (r: u64)
    ensures
        r == text_digest(s@),
{
    let mut state = DefaultHasher::new();
    hash_str_into(s, &mut state);
    proof {
        assert(state@ =~= spec_str_hash_writes(s@));
    }
    state.finish()
}

/// The character of a hexadecimal digit, lower case.
pub open spec fn hex_char(d: nat) -> char {
    if d < 10 {
        crate::model::digit_char(d)
    } else if d == 10 {
        'a'
    } else if d == 11 {
        'b'
    } else if d == 12 {
        'c'
    } else if d == 13 {
        'd'
    } else if d == 14 {
        'e'
    } else {
        'f'
    }
}

/// The lower-case hexadecimal digits of `n` without leading zeros (`format!("{:x}", n)`).
pub open spec fn hex(n: nat) -> Seq<char>
    decreases n,
{
    if n < 16 {
        seq![hex_char(n)]
    } else {
        hex(n / 16).push(hex_char(n % 16))
    }
}

fn hex_digit(d: u64) -> (c: char)
    requires
        d < 16,
    ensures
        c == hex_char(d as nat),
{
    if d < 10 {
        if d == 0 {
            '0'
        } else if d == 1 {
            '1'
        } else if d == 2 {
            '2'
        } else if d == 3 {
            '3'
        } else if d == 4 {
            '4'
        } else if d == 5 {
            '5'
        } else if d == 6 {
            '6'
        } else if d == 7 {
            '7'
        } else if d == 8 {
            '8'
        } else {
            '9'
        }
    } else if d == 10 {
        'a'
    } else if d == 11 {
        'b'
    } else if d == 12 {
        'c'
    } else if d == 13 {
        'd'
    } else if d == 14 {
        'e'
    } else {
        'f'
    }
}

/// Appends the lower-case hexadecimal digits of `n`.
pub fn push_hex(out: &mut String, n: u64)
    ensures
        final(out)@ == old(out)@ + hex(n as nat),
    decreases n,
{
    if n < 16 {
        push_char(out, hex_digit(n));
        assert(hex(n as nat) == seq![hex_char(n as nat)]);
    } else {
        push_hex(out, n / 16);
        push_char(out, hex_digit(n % 16));
        assert(hex(n as nat) == hex((n / 16) as nat).push(hex_char((n % 16) as nat)));
    }
}

/// Cache key of a text: the hexadecimal digest of the text.
#[derive(Debug, Clone, PartialEq, Eq, Hash)]
pub struct ContentHash(pub String);

impl View for ContentHash {
    type V = Seq<char>;

    open spec fn view(&self) -> Seq<char> {
        self.0@
    }
}

/// The content hash of a text.
pub open spec fn content_hash_of(s: Seq<char>) -> Seq<char> {
    hex(text_digest(s) as nat)
}

impl ContentHash {
    /// The hash of a text: its digest in lower-case hexadecimal.
    pub fn from_content(content: &str) -> (r: ContentHash)
        ensures
            r@ == content_hash_of(content@),
    {
        ContentHash::from_digest(digest_text(content))
    }

    /// The content hash for a given digest.
    pub fn from_digest(digest: u64) -> (r: ContentHash)
        ensures
            r@ == hex(digest as nat),
    {
        let mut s = String::new();
        push_hex(&mut s, digest);
        ContentHash(s)
    }

    /// A copy of the hash.
    pub fn copy_hash(&self) -> (r: ContentHash)
        ensures
            r@ == self@,
    {
        ContentHash(self.0.clone())
    }
}

impl CacheKey for ContentHash {
    fn key_eq(&self, other: &Self) -> (r: bool) {
        str_eq(self.0.as_str(), other.0.as_str())
    }

    fn key_clone(&self) -> (r: Self) {
        self.copy_hash()
    }
}

/// The views of a list of content hashes.
pub open spec fn hash_views(v: Seq<ContentHash>) -> Seq<Seq<char>> {
    v.map_values(|h: ContentHash| h@)
}

/// Compares two lists of content hashes element by element.
fn hashes_eq(a: &Vec<ContentHash>, b: &Vec<ContentHash>) -> (r: bool)
    ensures
        r == (hash_views(a@) == hash_views(b@)),
{
    if a.len() != b.len() {
        proof {
            assert(hash_views(a@).len() != hash_views(b@).len());
        }
        return false;
    }
    let mut i: usize = 0;
    while i < a.len()
        invariant
            i <= a@.len(),
            a@.len() == b@.len(),
            forall|j: int| 0 <= j < i ==> (#[trigger] a@[j])@ == b@[j]@,
        decreases a@.len() - i,
    {
        if !a[i].key_eq(&b[i]) {
            proof {
                assert(hash_views(a@)[i as int] != hash_views(b@)[i as int]);
            }
            return false;
        }
        i = i + 1;
    }
    proof {
        assert(hash_views(a@) =~= hash_views(b@));
    }
    true
}

/// Copies a list of content hashes.
fn copy_hashes(a: &Vec<ContentHash>) -> (r: Vec<ContentHash>)
    ensures
        hash_views(r@) == hash_views(a@),
{
    let mut r: Vec<ContentHash> = Vec::new();
    let mut i: usize = 0;
    while i < a.len()
        invariant
            i <= a@.len(),
            r@.len() == i,
            forall|j: int| 0 <= j < i ==> (#[trigger] r@[j])@ == a@[j]@,
        decreases a@.len() - i,
    {
        r.push(a[i].copy_hash());
        i = i + 1;
    }
    proof {
        assert(hash_views(r@) =~= hash_views(a@));
    }
    r
}

/// How the context of a contextual embedding is put together.
#[derive(Debug, Clone, Copy, PartialEq, Eq, Hash, Structural)]
pub enum ContextStrategy {
    /// Fast rule-based context generation.
    RuleBased,
    /// Context curated by a language model.
    Phi4Enhanced,
    /// Strategy chosen from the content.
    Adaptive,
}

/// Cache key of a contextual embedding: the hashes of a node's content and of its
/// surroundings.
#[derive(Debug, Clone, PartialEq, Eq, Hash)]
pub struct ContextHash {
    pub content_hash: ContentHash,
    pub parent_hash: Option<ContentHash>,
    pub sibling_hashes: Vec<ContentHash>,
    pub children_hashes: Vec<ContentHash>,
    pub mention_hashes: Vec<ContentHash>,
    pub strategy: ContextStrategy,
}

/// The value of a contextual cache key.
pub struct ContextHashView {
    pub content_hash: Seq<char>,
    pub parent_hash: Option<Seq<char>>,
    pub sibling_hashes: Seq<Seq<char>>,
    pub children_hashes: Seq<Seq<char>>,
    pub mention_hashes: Seq<Seq<char>>,
    pub strategy: ContextStrategy,
}

/// The value of an optional content hash.
pub open spec fn opt_hash_view(o: Option<ContentHash>) -> Option<Seq<char>> {
    match o {
        Some(h) => Some(h@),
        None => None,
    }
}

impl View for ContextHash {
    type V = ContextHashView;

    open spec fn view(&self) -> ContextHashView {
        ContextHashView {
            content_hash: self.content_hash@,
            parent_hash: opt_hash_view(self.parent_hash),
            sibling_hashes: hash_views(self.sibling_hashes@),
            children_hashes: hash_views(self.children_hashes@),
            mention_hashes: hash_views(self.mention_hashes@),
            strategy: self.strategy,
        }
    }
}

fn opt_hash_eq(a: &Option<ContentHash>, b: &Option<ContentHash>) -> (r: bool)
    ensures
        r == (opt_hash_view(*a) == opt_hash_view(*b)),
{
    match (a, b) {
        (Some(x), Some(y)) => x.key_eq(y),
        (None, None) => true,
        _ => false,
    }
}

fn copy_opt_hash(a: &Option<ContentHash>) -> (r: Option<ContentHash>)
    ensures
        opt_hash_view(r) == opt_hash_view(*a),
{
    match a {
        Some(x) => Some(x.copy_hash()),
        None => None,
    }
}

impl CacheKey for ContextHash {
    fn key_eq(&self, other: &Self) -> (r: bool) {
        let r = self.content_hash.key_eq(&other.content_hash) && opt_hash_eq(
            &self.parent_hash,
            &other.parent_hash,
        ) && hashes_eq(&self.sibling_hashes, &other.sibling_hashes) && hashes_eq(
            &self.children_hashes,
            &other.children_hashes,
        ) && hashes_eq(&self.mention_hashes, &other.mention_hashes) && self.strategy
            == other.strategy;
        r
    }

    fn key_clone(&self) -> (r: Self) {
        ContextHash {
            content_hash: self.content_hash.copy_hash(),
            parent_hash: copy_opt_hash(&self.parent_hash),
            sibling_hashes: copy_hashes(&self.sibling_hashes),
            children_hashes: copy_hashes(&self.children_hashes),
            mention_hashes: copy_hashes(&self.mention_hashes),
            strategy: self.strategy,
        }
    }
}

/// Cache key of a hierarchical embedding: the hash of a node's content and the hashes
/// along its path from the root.
#[derive(Debug, Clone, PartialEq, Eq, Hash)]
pub struct PathHash {
    pub content_hash: ContentHash,
    pub path_hashes: Vec<ContentHash>,
}

/// The value of a hierarchical cache key.
pub struct PathHashView {
    pub content_hash: Seq<char>,
    pub path_hashes: Seq<Seq<char>>,
}

impl View for PathHash {
    type V = PathHashView;

    open spec fn view(&self) -> PathHashView {
        PathHashView { content_hash: self.content_hash@, path_hashes: hash_views(self.path_hashes@) }
    }
}

impl CacheKey for PathHash {
    fn key_eq(&self, other: &Self) -> (r: bool) {
        self.content_hash.key_eq(&other.content_hash) && hashes_eq(
            &self.path_hashes,
            &other.path_hashes,
        )
    }

    fn key_clone(&self) -> (r: Self) {
        PathHash {
            content_hash: self.content_hash.copy_hash(),
            path_hashes: copy_hashes(&self.path_hashes),
        }
    }
}

/// A point in UTC time: whole seconds since the Unix epoch and the nanoseconds past them.
#[derive(Debug, Clone, Copy, PartialEq, Eq, Structural)]
pub struct Timestamp {
    pub secs: i64,
    pub nanos: u32,
}

/// The current UTC time.
///
/// Trusted: calls `chrono::Utc::now` and splits the result into its Unix seconds and
/// sub-second nanoseconds. The value depends on the clock, so nothing is stated of it.
#[verifier::external_body]
pub(crate) fn utc_now() -> (r: Timestamp) {
    let now = chrono::Utc::now();
    Timestamp { secs: now.timestamp(), nanos: now.timestamp_subsec_nanos() }
}

#[verifier::external_type_specification]
#[verifier::external_body]
pub struct ExInstant(Instant);

/// A reading of the monotonic clock.
///
/// Trusted: calls `Instant::now`; nothing is stated of the value.
#[verifier::external_body]
pub(crate) fn instant_now() -> (r: Instant) {
    Instant::now()
}

/// Nanoseconds elapsed since `t`.
///
/// Trusted: calls `Instant::elapsed` and converts the duration to nanoseconds. The value
/// depends on the clock, so nothing is stated of it.
#[verifier::external_body]
pub(crate) fn elapsed_nanos(t: &Instant) -> (r: u128) {
    t.elapsed().as_nanos()
}

/// Whether `elapsed` nanoseconds are more than `ttl_secs` seconds.
pub(crate) fn expired_since(elapsed: u128, ttl_secs: u64) -> (r: bool)
    ensures
        r == (elapsed > ttl_secs * 1_000_000_000),
{
    let limit: u128 = (ttl_secs as u128) * 1_000_000_000u128;
    elapsed > limit
}

/// Snapshot of a node's relationships, used to tell whether a cached embedding that
/// depends on them is still current.
#[derive(Debug)]
pub struct RelationshipFingerprint {
    pub parent_id: Option<NodeId>,
    pub sibling_ids: Vec<NodeId>,
    pub children_ids: Vec<NodeId>,
    pub mention_ids: Vec<NodeId>,
    pub last_modified: Timestamp,
}

/// The identifiers of a list of nodes.
pub open spec fn id_views(v: Seq<NodeId>) -> Seq<Seq<char>> {
    v.map_values(|i: NodeId| i@)
}

/// Copies a list of identifiers.
pub fn copy_ids(a: &Vec<NodeId>) -> (r: Vec<NodeId>)
    ensures
        id_views(r@) == id_views(a@),
{
    let mut r: Vec<NodeId> = Vec::new();
    let mut i: usize = 0;
    while i < a.len()
        invariant
            i <= a@.len(),
            r@.len() == i,
            forall|j: int| 0 <= j < i ==> (#[trigger] r@[j])@ == a@[j]@,
        decreases a@.len() - i,
    {
        r.push(a[i].clone_id());
        i = i + 1;
    }
    proof {
        assert(id_views(r@) =~= id_views(a@));
    }
    r
}

/// Compares two lists of identifiers element by element.
pub fn ids_eq(a: &Vec<NodeId>, b: &Vec<NodeId>) -> (r: bool)
    ensures
        r == (id_views(a@) == id_views(b@)),
{
    if a.len() != b.len() {
        proof {
            assert(id_views(a@).len() != id_views(b@).len());
        }
        return false;
    }
    let mut i: usize = 0;
    while i < a.len()
        invariant
            i <= a@.len(),
            a@.len() == b@.len(),
            forall|j: int| 0 <= j < i ==> (#[trigger] a@[j])@ == b@[j]@,
        decreases a@.len() - i,
    {
        if !(a[i] == b[i]) {
            proof {
                assert(id_views(a@)[i as int] != id_views(b@)[i as int]);
            }
            return false;
        }
        i = i + 1;
    }
    proof {
        assert(id_views(a@) =~= id_views(b@));
    }
    true
}

impl RelationshipFingerprint {
    /// A copy of the fingerprint.
    pub fn copy_fingerprint(&self) -> (r: RelationshipFingerprint)
        ensures
            crate::model::opt_id_view(r.parent_id) == crate::model::opt_id_view(self.parent_id),
            id_views(r.sibling_ids@) == id_views(self.sibling_ids@),
            id_views(r.children_ids@) == id_views(self.children_ids@),
            id_views(r.mention_ids@) == id_views(self.mention_ids@),
            r.last_modified == self.last_modified,
    {
        RelationshipFingerprint {
            parent_id: clone_opt_id(&self.parent_id),
            sibling_ids: copy_ids(&self.sibling_ids),
            children_ids: copy_ids(&self.children_ids),
            mention_ids: copy_ids(&self.mention_ids),
            last_modified: self.last_modified,
        }
    }
}

/// One cached embedding with its bookkeeping.
#[derive(Debug)]
pub struct CacheEntry<E> {
    pub embedding: E,
    pub created_at: Instant,
    pub last_accessed: Instant,
    pub access_count: u64,
    pub fingerprint: Option<RelationshipFingerprint>,
}

/// `n + 1`, or `n` when that would not fit.
pub open spec fn sat_inc(n: u64) -> u64 {
    if n < u64::MAX {
        (n + 1) as u64
    } else {
        n
    }
}

/// Counts one more, stopping at the largest value.
pub fn bump(n: u64) -> (r: u64)
    ensures
        r == sat_inc(n),
{
    if n < u64::MAX {
        n + 1
    } else {
        n
    }
}

impl<E> CacheEntry<E> {
    /// A fresh entry, created and accessed now, accessed once.
    pub fn new(embedding: E, fingerprint: Option<RelationshipFingerprint>) -> (r: CacheEntry<E>)
        ensures
            r.embedding == embedding,
            r.access_count == 1,
            r.fingerprint == fingerprint,
    {
        let now = instant_now();
        let again = now;
        CacheEntry { embedding, created_at: now, last_accessed: again, access_count: 1, fingerprint }
    }

    /// Records an access: the access time becomes now and the count grows by one.
    pub fn access(&mut self)
        ensures
            final(self).embedding == old(self).embedding,
            final(self).created_at == old(self).created_at,
            final(self).fingerprint == old(self).fingerprint,
            final(self).access_count == sat_inc(old(self).access_count),
    {
        self.last_accessed = instant_now();
        self.access_count = bump(self.access_count);
    }
}

/// Counters of the cache's hits, misses and invalidations.
#[derive(Debug, Clone)]
pub struct CacheMetrics {
    pub individual_hits: u64,
    pub individual_misses: u64,
    pub contextual_hits: u64,
    pub contextual_misses: u64,
    pub hierarchical_hits: u64,
    pub hierarchical_misses: u64,
    pub invalidations: u64,
    pub memory_usage_bytes: usize,
    pub last_reset: Option<Instant>,
}

impl CacheMetrics {
    /// Whether every counter is zero.
    pub open spec fn is_zero(&self) -> bool {
        &&& self.individual_hits == 0
        &&& self.individual_misses == 0
        &&& self.contextual_hits == 0
        &&& self.contextual_misses == 0
        &&& self.hierarchical_hits == 0
        &&& self.hierarchical_misses == 0
        &&& self.invalidations == 0
        &&& self.memory_usage_bytes == 0
    }

    /// Zeroed counters, reset now.
    pub fn new() -> (r: CacheMetrics)
        ensures
            r.is_zero(),
            r.last_reset is Some,
    {
        CacheMetrics {
            individual_hits: 0,
            individual_misses: 0,
            contextual_hits: 0,
            contextual_misses: 0,
            hierarchical_hits: 0,
            hierarchical_misses: 0,
            invalidations: 0,
            memory_usage_bytes: 0,
            last_reset: Some(instant_now()),
        }
    }

    /// Zeroes every counter and records the time of the reset.
    pub fn reset(&mut self)
        ensures
            final(self).is_zero(),
            final(self).last_reset is Some,
    {
        *self = CacheMetrics::new();
    }
}

/// The value of a relationship fingerprint.
pub struct FingerprintView {
    pub parent_id: Option<Seq<char>>,
    pub sibling_ids: Seq<Seq<char>>,
    pub children_ids: Seq<Seq<char>>,
    pub mention_ids: Seq<Seq<char>>,
    pub last_modified: Timestamp,
}

impl View for RelationshipFingerprint {
    type V = FingerprintView;

    open spec fn view(&self) -> FingerprintView {
        FingerprintView {
            parent_id: crate::model::opt_id_view(self.parent_id),
            sibling_ids: id_views(self.sibling_ids@),
            children_ids: id_views(self.children_ids@),
            mention_ids: id_views(self.mention_ids@),
            last_modified: self.last_modified,
        }
    }
}

/// Whether the hash `h` occurs among the context a contextual key was made from
/// (parent, siblings or mentions).
pub open spec fn ctx_hit_by(k: ContextHashView, h: Seq<char>) -> bool {
    k.parent_hash == Some(h) || k.sibling_hashes.contains(h) || k.mention_hashes.contains(h)
}

/// Whether a contextual key depends on one of the nodes `ids`, judged by the hash of
/// each node's identifier text.
pub open spec fn ctx_affected(k: ContextHashView, ids: Set<Seq<char>>) -> bool {
    exists|id: Seq<char>| #[trigger] ids.contains(id) && ctx_hit_by(k, content_hash_of(id))
}

/// Whether a hierarchical key has one of the nodes `ids` on its path, judged by the
/// hash of each node's identifier text.
pub open spec fn path_affected(k: PathHashView, ids: Set<Seq<char>>) -> bool {
    exists|id: Seq<char>| #[trigger] ids.contains(id) && k.path_hashes.contains(content_hash_of(id))
}

/// Memory estimate for `n` cached embeddings of 768 four-byte values, stopping at the
/// largest `usize`.
pub open spec fn memory_estimate(n: nat) -> usize {
    if n * 3072 <= usize::MAX {
        (n * 3072) as usize
    } else {
        usize::MAX
    }
}

/// Whether `h` occurs in the list.
fn contains_hash(v: &Vec<ContentHash>, h: &ContentHash) -> (r: bool)
    ensures
        r == hash_views(v@).contains(h@),
{
    let mut i: usize = 0;
    while i < v.len()
        invariant
            i <= v@.len(),
            forall|j: int| 0 <= j < i ==> (#[trigger] v@[j])@ != h@,
        decreases v@.len() - i,
    {
        if v[i].key_eq(h) {
            proof {
                assert(hash_views(v@)[i as int] == h@);
            }
            return true;
        }
        i = i + 1;
    }
    proof {
        if hash_views(v@).contains(h@) {
            let j = choose|j: int| 0 <= j < hash_views(v@).len() && hash_views(v@)[j] == h@;
            assert(v@[j]@ == h@);
        }
    }
    false
}

/// Counts of a cache's entries and its capacities.
#[derive(Debug, Clone)]
pub struct CacheStats {
    pub individual_count: usize,
    pub individual_capacity: usize,
    pub contextual_count: usize,
    pub contextual_capacity: usize,
    pub hierarchical_count: usize,
    pub hierarchical_capacity: usize,
    pub dependency_count: usize,
    pub memory_usage_bytes: usize,
}

/// Embedding cache in three tiers (by content, by context, by position in the
/// hierarchy) with dependency tracking for invalidation.
#[derive(Debug)]
pub struct SmartEmbeddingCache<E> {
    individual_cache: LruCache<ContentHash, CacheEntry<E>>,
    contextual_cache: LruCache<ContextHash, CacheEntry<E>>,
    hierarchical_cache: LruCache<PathHash, CacheEntry<E>>,
    dependency_graph: Vec<(NodeId, Vec<NodeId>)>,
    relationship_fingerprints: Vec<(NodeId, RelationshipFingerprint)>,
    metrics: CacheMetrics,
    max_individual_entries: usize,
    max_contextual_entries: usize,
    max_hierarchical_entries: usize,
    cache_ttl_secs: u64,
}

/// Number of seconds after which a contextual or hierarchical entry expires.
pub const EMBEDDING_CACHE_TTL_SECS: u64 = 3600;

impl<E> SmartEmbeddingCache<E> {
    /// Entries of the content tier, least recently used first.
    pub closed spec fn individual(&self) -> Seq<(Seq<char>, CacheEntry<E>)> {
        self.individual_cache@
    }

    /// Entries of the context tier, least recently used first.
    pub closed spec fn contextual(&self) -> Seq<(ContextHashView, CacheEntry<E>)> {
        self.contextual_cache@
    }

    /// Entries of the hierarchy tier, least recently used first.
    pub closed spec fn hierarchical(&self) -> Seq<(PathHashView, CacheEntry<E>)> {
        self.hierarchical_cache@
    }

    /// The dependency graph: for a node, the nodes whose embeddings depend on it.
    pub closed spec fn deps(&self) -> Seq<(Seq<char>, Seq<Seq<char>>)> {
        self.dependency_graph@.map_values(|e: (NodeId, Vec<NodeId>)| (e.0@, id_views(e.1@)))
    }

    /// The recorded relationship fingerprints, by node.
    pub closed spec fn fingerprints(&self) -> Seq<(Seq<char>, FingerprintView)> {
        self.relationship_fingerprints@.map_values(
            |e: (NodeId, RelationshipFingerprint)| (e.0@, e.1@),
        )
    }

    /// The counters.
    pub closed spec fn counters(&self) -> CacheMetrics {
        self.metrics
    }

    /// Capacities of the three tiers.
    pub closed spec fn caps(&self) -> (usize, usize, usize) {
        (self.individual_cache.cap(), self.contextual_cache.cap(), self.hierarchical_cache.cap())
    }

    /// Expiry of contextual and hierarchical entries, in seconds.
    pub closed spec fn ttl_secs(&self) -> u64 {
        self.cache_ttl_secs
    }

    /// The tiers are valid caches; the dependency graph and the fingerprints have one
    /// entry per node, and no node is listed twice as depending on the same node.
    pub closed spec fn wf(&self) -> bool {
        &&& self.individual_cache.wf()
        &&& self.contextual_cache.wf()
        &&& self.hierarchical_cache.wf()
        &&& crate::lru::keys_unique(self.deps())
        &&& forall|i: int| 0 <= i < self.deps().len() ==> (#[trigger] self.deps()[i]).1.no_duplicates()
        &&& crate::lru::keys_unique(self.fingerprints())
    }

    /// In a valid cache each tier holds each key once and stays within its bound.
    pub proof fn lemma_tiers(&self)
        requires
            self.wf(),
        ensures
            crate::lru::keys_unique(self.individual()),
            crate::lru::keys_unique(self.contextual()),
            crate::lru::keys_unique(self.hierarchical()),
            self.individual().len() <= crate::lru::lru_bound(self.caps().0),
            self.contextual().len() <= crate::lru::lru_bound(self.caps().1),
            self.hierarchical().len() <= crate::lru::lru_bound(self.caps().2),
    {
        self.individual_cache.lemma_wf();
        self.contextual_cache.lemma_wf();
        self.hierarchical_cache.lemma_wf();
    }

    /// A cache with the default capacities (10000, 5000 and 2000 entries).
    pub fn new() -> (r: Self)
        ensures
            r.wf(),
            r.individual().len() == 0,
            r.contextual().len() == 0,
            r.hierarchical().len() == 0,
            r.deps().len() == 0,
            r.fingerprints().len() == 0,
            r.counters().is_zero(),
            r.caps() == (10000usize, 5000usize, 2000usize),
            r.ttl_secs() == EMBEDDING_CACHE_TTL_SECS,
    {
        SmartEmbeddingCache::with_capacity(10000, 5000, 2000)
    }

    /// An empty cache with the given capacities for the three tiers.
    pub fn with_capacity(
        individual_capacity: usize,
        contextual_capacity: usize,
        hierarchical_capacity: usize,
    ) -> (r: Self)
        ensures
            r.wf(),
            r.individual().len() == 0,
            r.contextual().len() == 0,
            r.hierarchical().len() == 0,
            r.deps().len() == 0,
            r.fingerprints().len() == 0,
            r.counters().is_zero(),
            r.caps() == (individual_capacity, contextual_capacity, hierarchical_capacity),
            r.ttl_secs() == EMBEDDING_CACHE_TTL_SECS,
    {
        let r = SmartEmbeddingCache {
            individual_cache: LruCache::new(individual_capacity),
            contextual_cache: LruCache::new(contextual_capacity),
            hierarchical_cache: LruCache::new(hierarchical_capacity),
            dependency_graph: Vec::new(),
            relationship_fingerprints: Vec::new(),
            metrics: CacheMetrics::new(),
            max_individual_entries: individual_capacity,
            max_contextual_entries: contextual_capacity,
            max_hierarchical_entries: hierarchical_capacity,
            cache_ttl_secs: EMBEDDING_CACHE_TTL_SECS,
        };
        proof {
            assert(r.deps() =~= Seq::<(Seq<char>, Seq<Seq<char>>)>::empty());
            assert(r.fingerprints() =~= Seq::<(Seq<char>, FingerprintView)>::empty());
        }
        r
    }

    /// Recomputes the memory estimate from the number of cached entries.
    fn update_memory_usage(&mut self)
        requires
            old(self).wf(),
        ensures
            final(self).wf(),
            final(self).individual() == old(self).individual(),
            final(self).contextual() == old(self).contextual(),
            final(self).hierarchical() == old(self).hierarchical(),
            final(self).deps() == old(self).deps(),
            final(self).fingerprints() == old(self).fingerprints(),
            final(self).caps() == old(self).caps(),
            final(self).ttl_secs() == old(self).ttl_secs(),
            final(self).counters() == (CacheMetrics {
                memory_usage_bytes: memory_estimate(
                    old(self).individual().len() + old(self).contextual().len()
                        + old(self).hierarchical().len(),
                ),
                ..old(self).counters()
            }),
    {
        let a = self.individual_cache.len();
        let b = self.contextual_cache.len();
        let c = self.hierarchical_cache.len();
        let per_entry: usize = 3072;
        let total: usize = match a.checked_add(b) {
            Some(ab) => match ab.checked_add(c) {
                Some(abc) => match abc.checked_mul(per_entry) {
                    Some(m) => m,
                    None => usize::MAX,
                },
                None => usize::MAX,
            },
            None => usize::MAX,
        };
        proof {
            assert(a + b + c > usize::MAX ==> (a + b + c) * 3072 > usize::MAX) by (nonlinear_arith);
        }
        self.metrics.memory_usage_bytes = total;
    }

    /// The counters.
    pub fn metrics(&self) -> (r: &CacheMetrics)
        ensures
            *r == self.counters(),
    {
        &self.metrics
    }

    /// Entry counts, capacities, the number of nodes others depend on, and the memory
    /// estimate.
    pub fn cache_stats(&self) -> (r: CacheStats)
        requires
            self.wf(),
        ensures
            r.individual_count == self.individual().len(),
            r.individual_capacity == self.caps().0,
            r.contextual_count == self.contextual().len(),
            r.contextual_capacity == self.caps().1,
            r.hierarchical_count == self.hierarchical().len(),
            r.hierarchical_capacity == self.caps().2,
            r.dependency_count == self.deps().len(),
            r.memory_usage_bytes == self.counters().memory_usage_bytes,
    {
        CacheStats {
            individual_count: self.individual_cache.len(),
            individual_capacity: self.individual_cache.capacity(),
            contextual_count: self.contextual_cache.len(),
            contextual_capacity: self.contextual_cache.capacity(),
            hierarchical_count: self.hierarchical_cache.len(),
            hierarchical_capacity: self.hierarchical_cache.capacity(),
            dependency_count: self.dependency_graph.len(),
            memory_usage_bytes: self.metrics.memory_usage_bytes,
        }
    }
}

/// `b` is entry `a` after an access: same embedding, creation time and fingerprint,
/// one more access.
pub open spec fn accessed<E>(a: CacheEntry<E>, b: CacheEntry<E>) -> bool {
    &&& b.embedding == a.embedding
    &&& b.created_at == a.created_at
    &&& b.fingerprint == a.fingerprint
    &&& b.access_count == sat_inc(a.access_count)
}

/// Outcome of a lookup in a recency tier: a miss leaves the tier as it was; a hit moves
/// the entry to the most recent position as accessed and hands out a clone of its
/// embedding.
pub open spec fn tier_lookup<KV, E: Clone>(
    before: Seq<(KV, CacheEntry<E>)>,
    after: Seq<(KV, CacheEntry<E>)>,
    k: KV,
    r: Option<E>,
) -> bool {
    if !crate::lru::has_key(before, k) {
        r is None && after == before
    } else {
        let i = crate::lru::find_key(before, k);
        &&& r matches Some(x) && cloned(before[i].1.embedding, x)
        &&& after.len() == before.len()
        &&& after == before.remove(i).push((k, after.last().1))
        &&& accessed(before[i].1, after.last().1)
    }
}

/// Outcome of a lookup in an expiring tier: like `tier_lookup`, except that a present
/// entry that has expired is removed and the lookup misses.
pub open spec fn expiring_lookup<KV, E: Clone>(
    before: Seq<(KV, CacheEntry<E>)>,
    after: Seq<(KV, CacheEntry<E>)>,
    k: KV,
    r: Option<E>,
) -> bool {
    if !crate::lru::has_key(before, k) {
        r is None && after == before
    } else {
        let i = crate::lru::find_key(before, k);
        ||| r is None && after == before.remove(i)
        ||| tier_lookup(before, after, k, r)
    }
}

/// The counters after one more hit or miss, as the lookup result says.
pub open spec fn counted(m: CacheMetrics, tier: int, hit: bool) -> CacheMetrics {
    if tier == 0 {
        if hit {
            CacheMetrics { individual_hits: sat_inc(m.individual_hits), ..m }
        } else {
            CacheMetrics { individual_misses: sat_inc(m.individual_misses), ..m }
        }
    } else if tier == 1 {
        if hit {
            CacheMetrics { contextual_hits: sat_inc(m.contextual_hits), ..m }
        } else {
            CacheMetrics { contextual_misses: sat_inc(m.contextual_misses), ..m }
        }
    } else {
        if hit {
            CacheMetrics { hierarchical_hits: sat_inc(m.hierarchical_hits), ..m }
        } else {
            CacheMetrics { hierarchical_misses: sat_inc(m.hierarchical_misses), ..m }
        }
    }
}

impl<E: Clone> SmartEmbeddingCache<E> {
    /// Looks up the embedding of a content hash; a hit counts as an access.
    pub fn get_individual_embedding(&mut self, content_hash: &ContentHash) -> (r: Option<E>)
        requires
            old(self).wf(),
        ensures
            final(self).wf(),
            tier_lookup(old(self).individual(), final(self).individual(), content_hash@, r),
            final(self).counters() == counted(old(self).counters(), 0, r is Some),
            final(self).contextual() == old(self).contextual(),
            final(self).hierarchical() == old(self).hierarchical(),
            final(self).deps() == old(self).deps(),
            final(self).fingerprints() == old(self).fingerprints(),
            final(self).caps() == old(self).caps(),
            final(self).ttl_secs() == old(self).ttl_secs(),
    {
        match self.individual_cache.get(content_hash) {
            Some(entry) => {
                entry.access();
                let emb = entry.embedding.clone();
                self.metrics.individual_hits = bump(self.metrics.individual_hits);
                Some(emb)
            },
            None => {
                self.metrics.individual_misses = bump(self.metrics.individual_misses);
                None
            },
        }
    }

    /// Looks up the embedding of a context. A present entry older than the expiry time
    /// is removed and counts as a miss; otherwise a hit counts as an access.
    pub fn get_contextual_embedding(&mut self, context_hash: &ContextHash) -> (r: Option<E>)
        requires
            old(self).wf(),
        ensures
            final(self).wf(),
            expiring_lookup(old(self).contextual(), final(self).contextual(), context_hash@, r),
            final(self).counters() == counted(old(self).counters(), 1, r is Some),
            final(self).individual() == old(self).individual(),
            final(self).hierarchical() == old(self).hierarchical(),
            final(self).deps() == old(self).deps(),
            final(self).fingerprints() == old(self).fingerprints(),
            final(self).caps() == old(self).caps(),
            final(self).ttl_secs() == old(self).ttl_secs(),
    {
        if !self.contextual_cache.contains_key(context_hash) {
            self.metrics.contextual_misses = bump(self.metrics.contextual_misses);
            return None;
        }
        let ttl = self.cache_ttl_secs;
        let ghost s = self.contextual_cache@;
        let embedding = match self.contextual_cache.get(context_hash) {
            Some(entry) => {
                if expired_since(elapsed_nanos(&entry.created_at), ttl) {
                    None
                } else {
                    entry.access();
                    Some(entry.embedding.clone())
                }
            },
            None => None,
        };
        match embedding {
            Some(emb) => {
                self.metrics.contextual_hits = bump(self.metrics.contextual_hits);
                Some(emb)
            },
            None => {
                let ghost moved = self.contextual_cache@;
                proof {
                    self.contextual_cache.lemma_wf();
                }
                let _ = self.contextual_cache.remove(context_hash);
                proof {
                    let i = crate::lru::find_key(s, context_hash@);
                    assert(moved.last().0 == context_hash@);
                    assert(moved[moved.len() - 1].0 == context_hash@);
                    crate::lru::lemma_find_key_unique(moved, moved.len() - 1);
                    assert(moved.remove(moved.len() - 1) =~= s.remove(i));
                }
                self.metrics.contextual_misses = bump(self.metrics.contextual_misses);
                None
            },
        }
    }

    /// Looks up the embedding of a path. A present entry older than the expiry time is
    /// removed and counts as a miss; otherwise a hit counts as an access.
    pub fn get_hierarchical_embedding(&mut self, path_hash: &PathHash) -> (r: Option<E>)
        requires
            old(self).wf(),
        ensures
            final(self).wf(),
            expiring_lookup(old(self).hierarchical(), final(self).hierarchical(), path_hash@, r),
            final(self).counters() == counted(old(self).counters(), 2, r is Some),
            final(self).individual() == old(self).individual(),
            final(self).contextual() == old(self).contextual(),
            final(self).deps() == old(self).deps(),
            final(self).fingerprints() == old(self).fingerprints(),
            final(self).caps() == old(self).caps(),
            final(self).ttl_secs() == old(self).ttl_secs(),
    {
        if !self.hierarchical_cache.contains_key(path_hash) {
            self.metrics.hierarchical_misses = bump(self.metrics.hierarchical_misses);
            return None;
        }
        let ttl = self.cache_ttl_secs;
        let ghost s = self.hierarchical_cache@;
        let embedding = match self.hierarchical_cache.get(path_hash) {
            Some(entry) => {
                if expired_since(elapsed_nanos(&entry.created_at), ttl) {
                    None
                } else {
                    entry.access();
                    Some(entry.embedding.clone())
                }
            },
            None => None,
        };
        match embedding {
            Some(emb) => {
                self.metrics.hierarchical_hits = bump(self.metrics.hierarchical_hits);
                Some(emb)
            },
            None => {
                let ghost moved = self.hierarchical_cache@;
                proof {
                    self.hierarchical_cache.lemma_wf();
                }
                let _ = self.hierarchical_cache.remove(path_hash);
                proof {
                    let i = crate::lru::find_key(s, path_hash@);
                    assert(moved[moved.len() - 1].0 == path_hash@);
                    crate::lru::lemma_find_key_unique(moved, moved.len() - 1);
                    assert(moved.remove(moved.len() - 1) =~= s.remove(i));
                }
                self.metrics.hierarchical_misses = bump(self.metrics.hierarchical_misses);
                None
            },
        }
    }
}

/// The dependency graph after recording that `node` depends on `on`.
pub open spec fn deps_with(g: Seq<(Seq<char>, Seq<Seq<char>>)>, on: Seq<char>, node: Seq<char>) -> Seq<(Seq<char>, Seq<Seq<char>>)> {
    if crate::lru::has_key(g, on) {
        let i = crate::lru::find_key(g, on);
        if g[i].1.contains(node) {
            g
        } else {
            g.update(i, (on, g[i].1.push(node)))
        }
    } else {
        g.push((on, seq![node]))
    }
}

/// Recording that `node` depends on `on` makes `node` a dependent of `on`, and keeps
/// every dependent recorded before.
pub proof fn lemma_deps_with_records(
    g: Seq<(Seq<char>, Seq<Seq<char>>)>,
    on: Seq<char>,
    node: Seq<char>,
    x: Seq<char>,
    y: Seq<char>,
)
    requires
        crate::lru::keys_unique(g),
    ensures
        crate::lru::keys_unique(deps_with(g, on, node)),
        dependents_of(deps_with(g, on, node), on).contains(node),
        dependents_of(g, x).contains(y) ==> dependents_of(deps_with(g, on, node), x).contains(y),
{
    let h = deps_with(g, on, node);
    if crate::lru::has_key(g, on) {
        let i = crate::lru::find_key(g, on);
        crate::lru::lemma_find_key_unique(g, i);
        if !g[i].1.contains(node) {
            assert forall|a: int, b: int| 0 <= a < h.len() && 0 <= b < h.len() && a != b implies h[a].0 != h[b].0 by {
                assert(h[a].0 == g[a].0);
                assert(h[b].0 == g[b].0);
            }
            crate::lru::lemma_find_key_unique(h, i);
            assert(h[i].1 == g[i].1.push(node));
            assert(h[i].1[g[i].1.len() as int] == node);
            if crate::lru::has_key(g, x) {
                let j = crate::lru::find_key(g, x);
                crate::lru::lemma_find_key_unique(g, j);
                crate::lru::lemma_find_key_unique(h, j);
                if dependents_of(g, x).contains(y) {
                    let k = choose|k: int| 0 <= k < g[j].1.len() && g[j].1[k] == y;
                    if j == i {
                        assert(h[j].1[k] == y);
                    } else {
                        assert(h[j] == g[j]);
                    }
                }
            }
        }
    } else {
        assert forall|a: int, b: int| 0 <= a < h.len() && 0 <= b < h.len() && a != b implies h[a].0 != h[b].0 by {
            if a < g.len() && b < g.len() {
                assert(h[a] == g[a] && h[b] == g[b]);
            } else if a < g.len() {
                assert(h[a] == g[a]);
                assert(g[a].0 != on);
            } else {
                assert(h[b] == g[b]);
                assert(g[b].0 != on);
            }
        }
        crate::lru::lemma_find_key_unique(h, g.len() as int);
        assert(h[g.len() as int].1[0] == node);
        if crate::lru::has_key(g, x) {
            let j = crate::lru::find_key(g, x);
            crate::lru::lemma_find_key_unique(g, j);
            assert(h[j] == g[j]);
            crate::lru::lemma_find_key_unique(h, j);
        }
    }
}

/// The fingerprints after recording `fp` for `node`.
pub open spec fn fingerprints_with(f: Seq<(Seq<char>, FingerprintView)>, node: Seq<char>, fp: FingerprintView) -> Seq<(Seq<char>, FingerprintView)> {
    if crate::lru::has_key(f, node) {
        f.update(crate::lru::find_key(f, node), (node, fp))
    } else {
        f.push((node, fp))
    }
}

/// Whether `e` is a fresh entry for `embedding` with the fingerprint `fp`.
pub open spec fn fresh_entry<E>(e: CacheEntry<E>, embedding: E, fp: Option<RelationshipFingerprint>) -> bool {
    e.embedding == embedding && e.access_count == 1 && e.fingerprint == fp
}

/// Position of the entry for `id` in a list keyed by node identifiers.
pub(crate) fn position_of<T>(v: &Vec<(NodeId, T)>, id: &NodeId) -> (r: Option<usize>)
    ensures
        match r {
            Some(i) => i < v@.len() && v@[i as int].0@ == id@ && forall|j: int|
                0 <= j < i ==> (#[trigger] v@[j]).0@ != id@,
            None => forall|j: int| 0 <= j < v@.len() ==> (#[trigger] v@[j]).0@ != id@,
        },
{
    let mut i: usize = 0;
    while i < v.len()
        invariant
            i <= v@.len(),
            forall|j: int| 0 <= j < i ==> (#[trigger] v@[j]).0@ != id@,
        decreases v@.len() - i,
    {
        if v[i].0 == *id {
            return Some(i);
        }
        i = i + 1;
    }
    None
}

/// Whether `id` occurs in the list.
pub fn contains_id(v: &Vec<NodeId>, id: &NodeId) -> (r: bool)
    ensures
        r == id_views(v@).contains(id@),
{
    let mut i: usize = 0;
    while i < v.len()
        invariant
            i <= v@.len(),
            forall|j: int| 0 <= j < i ==> (#[trigger] v@[j])@ != id@,
        decreases v@.len() - i,
    {
        if v[i] == *id {
            proof {
                assert(id_views(v@)[i as int] == id@);
            }
            return true;
        }
        i = i + 1;
    }
    proof {
        if id_views(v@).contains(id@) {
            let j = choose|j: int| 0 <= j < id_views(v@).len() && id_views(v@)[j] == id@;
            assert(v@[j]@ == id@);
        }
    }
    false
}

impl<E> SmartEmbeddingCache<E> {
    /// Caches the embedding of a content hash as a fresh entry.
    pub fn cache_individual_embedding(&mut self, content_hash: ContentHash, embedding: E)
        requires
            old(self).wf(),
        ensures
            final(self).wf(),
            final(self).individual() == crate::lru::after_insert(
                old(self).individual(),
                old(self).caps().0,
                content_hash@,
                final(self).individual().last().1,
            ),
            fresh_entry(final(self).individual().last().1, embedding, None),
            final(self).counters() == (CacheMetrics {
                memory_usage_bytes: memory_estimate(
                    final(self).individual().len() + final(self).contextual().len()
                        + final(self).hierarchical().len(),
                ),
                ..old(self).counters()
            }),
            final(self).contextual() == old(self).contextual(),
            final(self).hierarchical() == old(self).hierarchical(),
            final(self).deps() == old(self).deps(),
            final(self).fingerprints() == old(self).fingerprints(),
            final(self).caps() == old(self).caps(),
            final(self).ttl_secs() == old(self).ttl_secs(),
    {
        let entry = CacheEntry::new(embedding, None);
        self.individual_cache.insert(content_hash, entry);
        self.update_memory_usage();
    }

    /// Caches a contextual embedding as a fresh entry carrying `fingerprint`.
    pub fn cache_contextual_embedding(
        &mut self,
        context_hash: ContextHash,
        embedding: E,
        fingerprint: RelationshipFingerprint,
    )
        requires
            old(self).wf(),
        ensures
            final(self).wf(),
            final(self).contextual() == crate::lru::after_insert(
                old(self).contextual(),
                old(self).caps().1,
                context_hash@,
                final(self).contextual().last().1,
            ),
            fresh_entry(final(self).contextual().last().1, embedding, Some(fingerprint)),
            final(self).counters() == (CacheMetrics {
                memory_usage_bytes: memory_estimate(
                    final(self).individual().len() + final(self).contextual().len()
                        + final(self).hierarchical().len(),
                ),
                ..old(self).counters()
            }),
            final(self).individual() == old(self).individual(),
            final(self).hierarchical() == old(self).hierarchical(),
            final(self).deps() == old(self).deps(),
            final(self).fingerprints() == old(self).fingerprints(),
            final(self).caps() == old(self).caps(),
            final(self).ttl_secs() == old(self).ttl_secs(),
    {
        let entry = CacheEntry::new(embedding, Some(fingerprint));
        self.contextual_cache.insert(context_hash, entry);
        self.update_memory_usage();
    }

    /// Caches a hierarchical embedding as a fresh entry carrying `fingerprint`.
    pub fn cache_hierarchical_embedding(
        &mut self,
        path_hash: PathHash,
        embedding: E,
        fingerprint: RelationshipFingerprint,
    )
        requires
            old(self).wf(),
        ensures
            final(self).wf(),
            final(self).hierarchical() == crate::lru::after_insert(
                old(self).hierarchical(),
                old(self).caps().2,
                path_hash@,
                final(self).hierarchical().last().1,
            ),
            fresh_entry(final(self).hierarchical().last().1, embedding, Some(fingerprint)),
            final(self).counters() == (CacheMetrics {
                memory_usage_bytes: memory_estimate(
                    final(self).individual().len() + final(self).contextual().len()
                        + final(self).hierarchical().len(),
                ),
                ..old(self).counters()
            }),
            final(self).individual() == old(self).individual(),
            final(self).contextual() == old(self).contextual(),
            final(self).deps() == old(self).deps(),
            final(self).fingerprints() == old(self).fingerprints(),
            final(self).caps() == old(self).caps(),
            final(self).ttl_secs() == old(self).ttl_secs(),
    {
        let entry = CacheEntry::new(embedding, Some(fingerprint));
        self.hierarchical_cache.insert(path_hash, entry);
        self.update_memory_usage();
    }

    /// A valid cache records each node's dependents once.
    pub proof fn lemma_deps_keys_unique(&self)
        requires
            self.wf(),
        ensures
            crate::lru::keys_unique(self.deps()),
    {
    }

    /// Records that the embedding of `node_id` depends on `depends_on`.
    pub fn add_dependency(&mut self, node_id: NodeId, depends_on: NodeId)
        requires
            old(self).wf(),
        ensures
            final(self).wf(),
            final(self).deps() == deps_with(old(self).deps(), depends_on@, node_id@),
            final(self).individual() == old(self).individual(),
            final(self).contextual() == old(self).contextual(),
            final(self).hierarchical() == old(self).hierarchical(),
            final(self).fingerprints() == old(self).fingerprints(),
            final(self).counters() == old(self).counters(),
            final(self).caps() == old(self).caps(),
            final(self).ttl_secs() == old(self).ttl_secs(),
    {
        let ghost g = self.deps();
        let ghost on = depends_on@;
        let ghost nv = node_id@;
        match position_of(&self.dependency_graph, &depends_on) {
            Some(i) => {
                proof {
                    assert(g[i as int].0 == on);
                    crate::lru::lemma_find_key_unique(g, i as int);
                }
                if !contains_id(&self.dependency_graph[i].1, &node_id) {
                    let (key, mut list) = self.dependency_graph.remove(i);
                    list.push(node_id);
                    self.dependency_graph.insert(i, (key, list));
                    proof {
                        assert(id_views(list@) =~= g[i as int].1.push(nv));
                        assert(self.deps() =~= g.update(i as int, (on, g[i as int].1.push(nv))));
                        assert forall|a: int, b: int|
                            0 <= a < self.deps().len() && 0 <= b < self.deps().len() && a != b
                                implies self.deps()[a].0 != self.deps()[b].0 by {
                            assert(self.deps()[a].0 == g[a].0);
                            assert(self.deps()[b].0 == g[b].0);
                        }
                        assert forall|a: int| 0 <= a < self.deps().len() implies (
                        #[trigger] self.deps()[a]).1.no_duplicates() by {
                            if a != i {
                                assert(self.deps()[a] == g[a]);
                            }
                        }
                    }
                }
            },
            None => {
                proof {
                    assert(!crate::lru::has_key(g, on));
                }
                let mut list: Vec<NodeId> = Vec::new();
                list.push(node_id);
                self.dependency_graph.push((depends_on, list));
                proof {
                    assert(id_views(list@) =~= seq![nv]);
                    assert(self.deps() =~= g.push((on, seq![nv])));
                    assert forall|a: int, b: int|
                        0 <= a < self.deps().len() && 0 <= b < self.deps().len() && a != b
                            implies self.deps()[a].0 != self.deps()[b].0 by {
                        if a < g.len() {
                            assert(self.deps()[a] == g[a]);
                        }
                        if b < g.len() {
                            assert(self.deps()[b] == g[b]);
                        }
                    }
                    assert forall|a: int| 0 <= a < self.deps().len() implies (
                    #[trigger] self.deps()[a]).1.no_duplicates() by {
                        if a < g.len() {
                            assert(self.deps()[a] == g[a]);
                        }
                    }
                }
            },
        }
    }

    /// Records the relationship fingerprint of a node, replacing an earlier one.
    pub fn update_fingerprint(&mut self, node_id: NodeId, fingerprint: RelationshipFingerprint)
        requires
            old(self).wf(),
        ensures
            final(self).wf(),
            final(self).fingerprints() == fingerprints_with(
                old(self).fingerprints(),
                node_id@,
                fingerprint@,
            ),
            final(self).individual() == old(self).individual(),
            final(self).contextual() == old(self).contextual(),
            final(self).hierarchical() == old(self).hierarchical(),
            final(self).deps() == old(self).deps(),
            final(self).counters() == old(self).counters(),
            final(self).caps() == old(self).caps(),
            final(self).ttl_secs() == old(self).ttl_secs(),
    {
        let ghost f = self.fingerprints();
        let ghost nv = node_id@;
        let ghost fv = fingerprint@;
        match position_of(&self.relationship_fingerprints, &node_id) {
            Some(i) => {
                proof {
                    crate::lru::lemma_find_key_unique(f, i as int);
                }
                self.relationship_fingerprints.set(i, (node_id, fingerprint));
                proof {
                    assert(self.fingerprints() =~= f.update(i as int, (nv, fv)));
                    assert forall|a: int, b: int|
                        0 <= a < self.fingerprints().len() && 0 <= b < self.fingerprints().len()
                            && a != b implies self.fingerprints()[a].0
                        != self.fingerprints()[b].0 by {
                        assert(self.fingerprints()[a].0 == f[a].0);
                        assert(self.fingerprints()[b].0 == f[b].0);
                    }
                }
            },
            None => {
                self.relationship_fingerprints.push((node_id, fingerprint));
                proof {
                    assert(self.fingerprints() =~= f.push((nv, fv)));
                    assert forall|a: int, b: int|
                        0 <= a < self.fingerprints().len() && 0 <= b < self.fingerprints().len()
                            && a != b implies self.fingerprints()[a].0
                        != self.fingerprints()[b].0 by {
                        if a < f.len() {
                            assert(self.fingerprints()[a] == f[a]);
                        }
                        if b < f.len() {
                            assert(self.fingerprints()[b] == f[b]);
                        }
                    }
                }
            },
        }
    }

    /// Empties every tier, the dependency graph and the fingerprints, and resets the
    /// counters.
    pub fn clear_all(&mut self)
        requires
            old(self).wf(),
        ensures
            final(self).wf(),
            final(self).individual().len() == 0,
            final(self).contextual().len() == 0,
            final(self).hierarchical().len() == 0,
            final(self).deps().len() == 0,
            final(self).fingerprints().len() == 0,
            final(self).counters().is_zero(),
            final(self).caps() == old(self).caps(),
            final(self).ttl_secs() == old(self).ttl_secs(),
    {
        self.individual_cache.clear();
        self.contextual_cache.clear();
        self.hierarchical_cache.clear();
        self.dependency_graph.clear();
        self.relationship_fingerprints.clear();
        self.metrics.reset();
        proof {
            assert(self.deps() =~= Seq::<(Seq<char>, Seq<Seq<char>>)>::empty());
            assert(self.fingerprints() =~= Seq::<(Seq<char>, FingerprintView)>::empty());
        }
    }
}

/// The nodes whose embeddings depend on `n`, as the graph records them.
pub open spec fn dependents_of(g: Seq<(Seq<char>, Seq<Seq<char>>)>, n: Seq<char>) -> Seq<Seq<char>> {
    match crate::lru::lookup(g, n) {
        Some(ds) => ds,
        None => Seq::empty(),
    }
}

/// Every node the dependency graph mentions.
pub open spec fn graph_nodes(g: Seq<(Seq<char>, Seq<Seq<char>>)>) -> Set<Seq<char>>
    decreases g.len(),
{
    if g.len() == 0 {
        Set::empty()
    } else {
        graph_nodes(g.drop_last()).insert(g.last().0).union(g.last().1.to_set())
    }
}

/// The mentioned nodes form a finite set holding every key and every dependent.
pub proof fn lemma_graph_nodes(g: Seq<(Seq<char>, Seq<Seq<char>>)>)
    ensures
        graph_nodes(g).finite(),
        forall|i: int| 0 <= i < g.len() ==> graph_nodes(g).contains(#[trigger] g[i].0),
        forall|i: int, x: Seq<char>|
            0 <= i < g.len() && #[trigger] g[i].1.contains(x) ==> graph_nodes(g).contains(x),
    decreases g.len(),
{
    broadcast use vstd::seq_lib::seq_to_set_is_finite;
    if g.len() > 0 {
        let t = g.drop_last();
        lemma_graph_nodes(t);
        assert forall|i: int| 0 <= i < g.len() implies graph_nodes(g).contains(#[trigger] g[i].0) by {
            if i < t.len() {
                assert(t[i] == g[i]);
            }
        }
        assert forall|i: int, x: Seq<char>|
            0 <= i < g.len() && #[trigger] g[i].1.contains(x) implies graph_nodes(g).contains(x) by {
            if i < t.len() {
                assert(t[i] == g[i]);
            } else {
                assert(g.last().1.to_set().contains(x));
            }
        }
    }
}

/// The dependents of a node are mentioned nodes, and a node with dependents is one.
pub proof fn lemma_dependents_in_graph(g: Seq<(Seq<char>, Seq<Seq<char>>)>, n: Seq<char>)
    ensures
        dependents_of(g, n).len() > 0 ==> graph_nodes(g).contains(n),
        forall|x: Seq<char>| #[trigger] dependents_of(g, n).contains(x) ==> graph_nodes(g).contains(x),
{
    lemma_graph_nodes(g);
    if crate::lru::has_key(g, n) {
        let i = crate::lru::find_key(g, n);
        assert(g[i].0 == n);
        assert forall|x: Seq<char>| #[trigger] dependents_of(g, n).contains(x) implies graph_nodes(g).contains(x) by {
            assert(g[i].1.contains(x));
        }
    }
}

/// Entering a mentioned node that is not yet on the path shrinks the set of mentioned
/// nodes off the path.
pub proof fn lemma_path_measure(g: Seq<(Seq<char>, Seq<Seq<char>>)>, path: Set<Seq<char>>, n: Seq<char>)
    requires
        graph_nodes(g).contains(n),
        !path.contains(n),
    ensures
        graph_nodes(g).difference(path.insert(n)).len() < graph_nodes(g).difference(path).len(),
{
    lemma_graph_nodes(g);
    let a = graph_nodes(g).difference(path);
    assert(graph_nodes(g).difference(path.insert(n)) =~= a.remove(n));
    vstd::set::axiom_set_difference_finite(graph_nodes(g), path);
    vstd::set::axiom_set_remove_len(a, n);
}

/// Result of the invalidation walk from `n`: how many invalidations it performs, the
/// nodes it is invoked on, and the nodes whose dependent cache entries it drops. The
/// walk never re-enters a node on the current path, so it ends on any graph.
pub open spec fn walk(g: Seq<(Seq<char>, Seq<Seq<char>>)>, n: Seq<char>, path: Set<Seq<char>>) -> (nat, Set<Seq<char>>, Set<Seq<char>>)
    decreases graph_nodes(g).difference(path).len(), 0int, 0int,
{
    if path.contains(n) || !graph_nodes(g).contains(n) {
        (1, set![n], Set::empty())
    } else {
        proof {
            lemma_path_measure(g, path, n);
        }
        let ds = dependents_of(g, n);
        let rest = walk_prefix(g, ds, ds.len() as int, path.insert(n));
        ((1 + rest.0) as nat, rest.1.insert(n), ds.to_set().union(rest.2))
    }
}

/// The combined result of the walks from the first `k` of `ds`, skipping nodes on the
/// path.
pub open spec fn walk_prefix(g: Seq<(Seq<char>, Seq<Seq<char>>)>, ds: Seq<Seq<char>>, k: int, path: Set<Seq<char>>) -> (nat, Set<Seq<char>>, Set<Seq<char>>)
    decreases graph_nodes(g).difference(path).len(), 1int, k,
{
    if k <= 0 || k > ds.len() {
        (0, Set::empty(), Set::empty())
    } else {
        let prev = walk_prefix(g, ds, k - 1, path);
        if path.contains(ds[k - 1]) {
            prev
        } else {
            let w = walk(g, ds[k - 1], path);
            ((prev.0 + w.0) as nat, prev.1.union(w.1), prev.2.union(w.2))
        }
    }
}

/// `a + c`, or the largest `u64` when that does not fit.
pub open spec fn sat_add(a: u64, c: nat) -> u64 {
    if a + c <= u64::MAX {
        (a + c) as u64
    } else {
        u64::MAX
    }
}

/// The fingerprints of `after` are those of `before`, except that the modification time
/// of each node in `touched` may have changed.
pub open spec fn fingerprints_touched(
    before: Seq<(Seq<char>, FingerprintView)>,
    after: Seq<(Seq<char>, FingerprintView)>,
    touched: Set<Seq<char>>,
) -> bool {
    &&& after.len() == before.len()
    &&& forall|i: int|
        0 <= i < before.len() ==> (#[trigger] after[i]).0 == before[i].0 && if touched.contains(
            before[i].0,
        ) {
            after[i].1 == FingerprintView { last_modified: after[i].1.last_modified, ..before[i].1 }
        } else {
            after[i].1 == before[i].1
        }
}

/// The state change of an invalidation whose walk result is `w`: the counter of
/// invalidations grows by the number of steps, the context and hierarchy tiers drop the
/// entries that depend on a node in `w.2`, the fingerprints of the nodes in `w.1` get a
/// new modification time, and nothing else changes.
pub open spec fn invalidation_effect<E>(
    before: SmartEmbeddingCache<E>,
    after: SmartEmbeddingCache<E>,
    w: (nat, Set<Seq<char>>, Set<Seq<char>>),
) -> bool {
    &&& after.counters() == (CacheMetrics {
        invalidations: sat_add(before.counters().invalidations, w.0),
        ..before.counters()
    })
    &&& after.contextual() == crate::lru::kept(before.contextual(), ctx_keep(w.2))
    &&& after.hierarchical() == crate::lru::kept(before.hierarchical(), path_keep(w.2))
    &&& fingerprints_touched(before.fingerprints(), after.fingerprints(), w.1)
    &&& after.individual() == before.individual()
    &&& after.deps() == before.deps()
    &&& after.caps() == before.caps()
    &&& after.ttl_secs() == before.ttl_secs()
}

/// Keeps the contextual entries that do not depend on any node of `s`.
pub open spec fn ctx_keep<E>(s: Set<Seq<char>>) -> spec_fn((ContextHashView, CacheEntry<E>)) -> bool {
    |e: (ContextHashView, CacheEntry<E>)| !ctx_affected(e.0, s)
}

/// Keeps the hierarchical entries whose path holds no node of `s`.
pub open spec fn path_keep<E>(s: Set<Seq<char>>) -> spec_fn((PathHashView, CacheEntry<E>)) -> bool {
    |e: (PathHashView, CacheEntry<E>)| !path_affected(e.0, s)
}

/// Two invalidation steps in a row have the effect of their combined results.
proof fn lemma_effect_compose<E>(
    a: SmartEmbeddingCache<E>,
    b: SmartEmbeddingCache<E>,
    c: SmartEmbeddingCache<E>,
    w1: (nat, Set<Seq<char>>, Set<Seq<char>>),
    w2: (nat, Set<Seq<char>>, Set<Seq<char>>),
)
    requires
        invalidation_effect(a, b, w1),
        invalidation_effect(b, c, w2),
    ensures
        invalidation_effect(a, c, ((w1.0 + w2.0) as nat, w1.1.union(w2.1), w1.2.union(w2.2))),
{
    let u = w1.2.union(w2.2);
    let p1 = ctx_keep::<E>(w1.2);
    let p2 = ctx_keep::<E>(w2.2);
    let pu = ctx_keep::<E>(u);
    crate::lru::lemma_kept_twice(a.contextual(), p1, p2);
    let both = |e: (ContextHashView, CacheEntry<E>)| p1(e) && p2(e);
    assert forall|i: int| 0 <= i < a.contextual().len() implies both(#[trigger] a.contextual()[i])
        == pu(a.contextual()[i]) by {
        let k = a.contextual()[i].0;
        if ctx_affected(k, u) {
            let id = choose|id: Seq<char>| #[trigger] u.contains(id) && ctx_hit_by(k, content_hash_of(id));
            if w1.2.contains(id) {
                assert(ctx_affected(k, w1.2));
            } else {
                assert(ctx_affected(k, w2.2));
            }
        }
        if ctx_affected(k, w1.2) {
            let id = choose|id: Seq<char>| #[trigger] w1.2.contains(id) && ctx_hit_by(k, content_hash_of(id));
            assert(u.contains(id));
        }
        if ctx_affected(k, w2.2) {
            let id = choose|id: Seq<char>| #[trigger] w2.2.contains(id) && ctx_hit_by(k, content_hash_of(id));
            assert(u.contains(id));
        }
    }
    crate::lru::lemma_kept_ext(a.contextual(), both, pu);
    let q1 = path_keep::<E>(w1.2);
    let q2 = path_keep::<E>(w2.2);
    let qu = path_keep::<E>(u);
    crate::lru::lemma_kept_twice(a.hierarchical(), q1, q2);
    let qboth = |e: (PathHashView, CacheEntry<E>)| q1(e) && q2(e);
    assert forall|i: int| 0 <= i < a.hierarchical().len() implies qboth(
        #[trigger] a.hierarchical()[i],
    ) == qu(a.hierarchical()[i]) by {
        let k = a.hierarchical()[i].0;
        if path_affected(k, u) {
            let id = choose|id: Seq<char>| #[trigger] u.contains(id) && k.path_hashes.contains(content_hash_of(id));
            if w1.2.contains(id) {
                assert(path_affected(k, w1.2));
            } else {
                assert(path_affected(k, w2.2));
            }
        }
        if path_affected(k, w1.2) {
            let id = choose|id: Seq<char>| #[trigger] w1.2.contains(id) && k.path_hashes.contains(content_hash_of(id));
            assert(u.contains(id));
        }
        if path_affected(k, w2.2) {
            let id = choose|id: Seq<char>| #[trigger] w2.2.contains(id) && k.path_hashes.contains(content_hash_of(id));
            assert(u.contains(id));
        }
    }
    crate::lru::lemma_kept_ext(a.hierarchical(), qboth, qu);
    let fa = a.fingerprints();
    let fb = b.fingerprints();
    let fc = c.fingerprints();
    assert forall|i: int| 0 <= i < fa.len() implies (#[trigger] fc[i]).0 == fa[i].0 && if w1.1.union(
        w2.1,
    ).contains(fa[i].0) {
        fc[i].1 == FingerprintView { last_modified: fc[i].1.last_modified, ..fa[i].1 }
    } else {
        fc[i].1 == fa[i].1
    } by {
        assert(fb[i].0 == fa[i].0);
    }
}

/// Whether a contextual key was made with the hash `h` among its parent, siblings or
/// mentions.
fn ctx_hit(k: &ContextHash, h: &ContentHash) -> (r: bool)
    ensures
        r == ctx_hit_by(k@, h@),
{
    let parent_hit = match &k.parent_hash {
        Some(p) => p.key_eq(h),
        None => false,
    };
    parent_hit || contains_hash(&k.sibling_hashes, h) || contains_hash(&k.mention_hashes, h)
}

/// The content hashes of the identifier texts of `ids`.
fn id_hashes(ids: &Vec<NodeId>) -> (r: Vec<ContentHash>)
    ensures
        r@.len() == ids@.len(),
        forall|j: int| 0 <= j < ids@.len() ==> (#[trigger] r@[j])@ == content_hash_of(ids@[j]@),
{
    let mut r: Vec<ContentHash> = Vec::new();
    let mut i: usize = 0;
    while i < ids.len()
        invariant
            i <= ids@.len(),
            r@.len() == i,
            forall|j: int| 0 <= j < i ==> (#[trigger] r@[j])@ == content_hash_of(ids@[j]@),
        decreases ids@.len() - i,
    {
        r.push(ContentHash::from_content(ids[i].as_str()));
        i = i + 1;
    }
    r
}

/// Membership in the set of a list of identifiers.
proof fn lemma_id_set(ids: Seq<NodeId>, id: Seq<char>)
    ensures
        id_views(ids).to_set().contains(id) <==> exists|j: int| 0 <= j < ids.len() && (#[trigger] ids[j])@ == id,
{
    if id_views(ids).to_set().contains(id) {
        assert(id_views(ids).contains(id));
        let j = choose|j: int| 0 <= j < id_views(ids).len() && id_views(ids)[j] == id;
        assert(ids[j]@ == id);
    }
    if exists|j: int| 0 <= j < ids.len() && (#[trigger] ids[j])@ == id {
        let j = choose|j: int| 0 <= j < ids.len() && (#[trigger] ids[j])@ == id;
        assert(id_views(ids)[j] == id);
        assert(id_views(ids).contains(id));
    }
}

impl<E> SmartEmbeddingCache<E> {
    /// A copy of the list of nodes that depend on `node_id`.
    fn dependents_copy(&self, node_id: &NodeId) -> (r: Vec<NodeId>)
        requires
            self.wf(),
        ensures
            id_views(r@) == dependents_of(self.deps(), node_id@),
            id_views(r@).no_duplicates(),
    {
        match position_of(&self.dependency_graph, node_id) {
            Some(i) => {
                proof {
                    assert(self.deps()[i as int].0 == node_id@);
                    crate::lru::lemma_find_key_unique(self.deps(), i as int);
                    assert(self.deps()[i as int].1.no_duplicates());
                }
                copy_ids(&self.dependency_graph[i].1)
            },
            None => {
                proof {
                    assert(!crate::lru::has_key(self.deps(), node_id@));
                }
                let r: Vec<NodeId> = Vec::new();
                proof {
                    assert(id_views(r@) =~= Seq::<Seq<char>>::empty());
                }
                r
            },
        }
    }

    /// Drops the contextual entries that depend on any of `ids`.
    fn invalidate_contextual_caches(&mut self, ids: &Vec<NodeId>)
        requires
            old(self).wf(),
        ensures
            final(self).wf(),
            final(self).contextual() == crate::lru::kept(
                old(self).contextual(),
                ctx_keep(id_views(ids@).to_set()),
            ),
            final(self).individual() == old(self).individual(),
            final(self).hierarchical() == old(self).hierarchical(),
            final(self).deps() == old(self).deps(),
            final(self).fingerprints() == old(self).fingerprints(),
            final(self).counters() == old(self).counters(),
            final(self).caps() == old(self).caps(),
            final(self).ttl_secs() == old(self).ttl_secs(),
    {
        let ghost s = id_views(ids@).to_set();
        let ghost keep = ctx_keep::<E>(s);
        let hashes = id_hashes(ids);
        let keys = self.contextual_cache.keys();
        let mut drop: Vec<bool> = Vec::new();
        let mut i: usize = 0;
        while i < keys.len()
            invariant
                i <= keys@.len(),
                drop@.len() == i,
                keys@.len() == self.contextual().len(),
                self.contextual() == old(self).contextual(),
                self.wf(),
                forall|j: int| 0 <= j < keys@.len() ==> (#[trigger] keys@[j])@ == self.contextual()[j].0,
                hashes@.len() == ids@.len(),
                forall|j: int| 0 <= j < ids@.len() ==> (#[trigger] hashes@[j])@ == content_hash_of(ids@[j]@),
                forall|j: int| 0 <= j < i ==> #[trigger] drop@[j] == !keep(self.contextual()[j]),
                s == id_views(ids@).to_set(),
                keep == ctx_keep::<E>(s),
            decreases keys@.len() - i,
        {
            let mut hit = false;
            let mut j: usize = 0;
            while j < hashes.len()
                invariant
                    j <= hashes@.len(),
                    i < keys@.len(),
                    hashes@.len() == ids@.len(),
                    forall|t: int| 0 <= t < ids@.len() ==> (#[trigger] hashes@[t])@ == content_hash_of(ids@[t]@),
                    hit == exists|t: int| 0 <= t < j && ctx_hit_by(keys@[i as int]@, #[trigger] hashes@[t]@),
                decreases hashes@.len() - j,
            {
                if ctx_hit(&keys[i], &hashes[j]) {
                    hit = true;
                }
                j = j + 1;
            }
            proof {
                let k = keys@[i as int]@;
                if hit {
                    let t = choose|t: int| 0 <= t < j && ctx_hit_by(k, #[trigger] hashes@[t]@);
                    lemma_id_set(ids@, ids@[t]@);
                    assert(s.contains(ids@[t]@));
                    assert(ctx_affected(k, s));
                }
                if ctx_affected(k, s) {
                    let id = choose|id: Seq<char>| #[trigger] s.contains(id) && ctx_hit_by(k, content_hash_of(id));
                    lemma_id_set(ids@, id);
                    let t = choose|t: int| 0 <= t < ids@.len() && (#[trigger] ids@[t])@ == id;
                    assert(ctx_hit_by(k, hashes@[t]@));
                }
            }
            drop.push(hit);
            i = i + 1;
        }
        self.contextual_cache.retain_where(&drop, Ghost(keep));
    }

    /// Drops the hierarchical entries whose path holds any of `ids`.
    fn invalidate_hierarchical_caches(&mut self, ids: &Vec<NodeId>)
        requires
            old(self).wf(),
        ensures
            final(self).wf(),
            final(self).hierarchical() == crate::lru::kept(
                old(self).hierarchical(),
                path_keep(id_views(ids@).to_set()),
            ),
            final(self).individual() == old(self).individual(),
            final(self).contextual() == old(self).contextual(),
            final(self).deps() == old(self).deps(),
            final(self).fingerprints() == old(self).fingerprints(),
            final(self).counters() == old(self).counters(),
            final(self).caps() == old(self).caps(),
            final(self).ttl_secs() == old(self).ttl_secs(),
    {
        let ghost s = id_views(ids@).to_set();
        let ghost keep = path_keep::<E>(s);
        let hashes = id_hashes(ids);
        let keys = self.hierarchical_cache.keys();
        let mut drop: Vec<bool> = Vec::new();
        let mut i: usize = 0;
        while i < keys.len()
            invariant
                i <= keys@.len(),
                drop@.len() == i,
                keys@.len() == self.hierarchical().len(),
                self.hierarchical() == old(self).hierarchical(),
                self.wf(),
                forall|j: int| 0 <= j < keys@.len() ==> (#[trigger] keys@[j])@ == self.hierarchical()[j].0,
                hashes@.len() == ids@.len(),
                forall|j: int| 0 <= j < ids@.len() ==> (#[trigger] hashes@[j])@ == content_hash_of(ids@[j]@),
                forall|j: int| 0 <= j < i ==> #[trigger] drop@[j] == !keep(self.hierarchical()[j]),
                s == id_views(ids@).to_set(),
                keep == path_keep::<E>(s),
            decreases keys@.len() - i,
        {
            let mut hit = false;
            let mut j: usize = 0;
            while j < hashes.len()
                invariant
                    j <= hashes@.len(),
                    i < keys@.len(),
                    hashes@.len() == ids@.len(),
                    forall|t: int| 0 <= t < ids@.len() ==> (#[trigger] hashes@[t])@ == content_hash_of(ids@[t]@),
                    hit == exists|t: int| 0 <= t < j && keys@[i as int]@.path_hashes.contains(#[trigger] hashes@[t]@),
                decreases hashes@.len() - j,
            {
                if contains_hash(&keys[i].path_hashes, &hashes[j]) {
                    hit = true;
                }
                j = j + 1;
            }
            proof {
                let k = keys@[i as int]@;
                if hit {
                    let t = choose|t: int| 0 <= t < j && k.path_hashes.contains(#[trigger] hashes@[t]@);
                    lemma_id_set(ids@, ids@[t]@);
                    assert(s.contains(ids@[t]@));
                    assert(path_affected(k, s));
                }
                if path_affected(k, s) {
                    let id = choose|id: Seq<char>| #[trigger] s.contains(id) && k.path_hashes.contains(content_hash_of(id));
                    lemma_id_set(ids@, id);
                    let t = choose|t: int| 0 <= t < ids@.len() && (#[trigger] ids@[t])@ == id;
                    assert(k.path_hashes.contains(hashes@[t]@));
                }
            }
            drop.push(hit);
            i = i + 1;
        }
        self.hierarchical_cache.retain_where(&drop, Ghost(keep));
    }
}

/// Keeping everything keeps the sequence as it is.
proof fn lemma_kept_all<A>(s: Seq<A>, keep: spec_fn(A) -> bool)
    requires
        forall|i: int| 0 <= i < s.len() ==> keep(#[trigger] s[i]),
    ensures
        crate::lru::kept(s, keep) == s,
    decreases s.len(),
{
    if s.len() > 0 {
        let t = s.drop_last();
        assert forall|i: int| 0 <= i < t.len() implies keep(#[trigger] t[i]) by {
            assert(t[i] == s[i]);
        }
        lemma_kept_all(t, keep);
        assert(keep(s[s.len() - 1]));
        assert(t.push(s.last()) =~= s);
    }
}

/// A step that changes nothing has the empty walk result as its effect.
proof fn lemma_effect_identity<E>(c: SmartEmbeddingCache<E>)
    ensures
        invalidation_effect(c, c, (0nat, Set::empty(), Set::empty())),
{
    assert forall|i: int| 0 <= i < c.contextual().len() implies ctx_keep::<E>(Set::empty())(
        #[trigger] c.contextual()[i],
    ) by {}
    lemma_kept_all(c.contextual(), ctx_keep::<E>(Set::empty()));
    assert forall|i: int| 0 <= i < c.hierarchical().len() implies path_keep::<E>(Set::empty())(
        #[trigger] c.hierarchical()[i],
    ) by {}
    lemma_kept_all(c.hierarchical(), path_keep::<E>(Set::empty()));
}

/// Membership in the set of identifiers of a list.
proof fn lemma_ids_contains(ids: Seq<NodeId>, id: Seq<char>)
    ensures
        id_views(ids).to_set().contains(id) == id_views(ids).contains(id),
{
}

impl<E> SmartEmbeddingCache<E> {
    /// Gives the fingerprint of `node_id`, if there is one, the current time as its
    /// modification time.
    fn touch_fingerprint(&mut self, node_id: &NodeId)
        requires
            old(self).wf(),
        ensures
            final(self).wf(),
            fingerprints_touched(old(self).fingerprints(), final(self).fingerprints(), set![node_id@]),
            final(self).individual() == old(self).individual(),
            final(self).contextual() == old(self).contextual(),
            final(self).hierarchical() == old(self).hierarchical(),
            final(self).deps() == old(self).deps(),
            final(self).counters() == old(self).counters(),
            final(self).caps() == old(self).caps(),
            final(self).ttl_secs() == old(self).ttl_secs(),
    {
        let ghost f = self.fingerprints();
        match position_of(&self.relationship_fingerprints, node_id) {
            Some(i) => {
                let (k, mut fp) = self.relationship_fingerprints.remove(i);
                fp.last_modified = utc_now();
                self.relationship_fingerprints.insert(i, (k, fp));
                proof {
                    let nf = self.fingerprints();
                    assert(nf.len() == f.len());
                    assert forall|a: int| 0 <= a < f.len() implies (#[trigger] nf[a]).0 == f[a].0 && if set![node_id@].contains(f[a].0) {
                        nf[a].1 == FingerprintView { last_modified: nf[a].1.last_modified, ..f[a].1 }
                    } else {
                        nf[a].1 == f[a].1
                    } by {
                        if a == i {
                            assert(nf[a].1 =~= FingerprintView { last_modified: nf[a].1.last_modified, ..f[a].1 });
                        } else {
                            assert(nf[a] == f[a]);
                        }
                    }
                    assert forall|a: int, b: int|
                        0 <= a < nf.len() && 0 <= b < nf.len() && a != b implies nf[a].0 != nf[b].0 by {
                        assert(nf[a].0 == f[a].0);
                        assert(nf[b].0 == f[b].0);
                    }
                }
            },
            None => {
                proof {
                    assert forall|a: int| 0 <= a < f.len() implies !set![node_id@].contains(
                        #[trigger] f[a].0,
                    ) by {
                        assert(self.relationship_fingerprints@[a].0@ != node_id@);
                    }
                }
            },
        }
    }

    /// One step of the invalidation walk from `node_id`, followed by the walks from
    /// its dependents that are not on the current path `stack`.
    fn invalidate_walk(
        &mut self,
        node_id: &NodeId,
        stack: &mut Vec<NodeId>,
        Ghost(g): Ghost<Seq<(Seq<char>, Seq<Seq<char>>)>>,
        Ghost(path): Ghost<Set<Seq<char>>>,
    )
        requires
            old(self).wf(),
            old(self).deps() == g,
            id_views(old(stack)@).to_set() == path,
            !path.contains(node_id@),
        ensures
            final(self).wf(),
            id_views(final(stack)@) == id_views(old(stack)@),
            invalidation_effect(*old(self), *final(self), walk(g, node_id@, path)),
        decreases graph_nodes(g).difference(path).len(),
    {
        let ghost start = *self;
        self.metrics.invalidations = bump(self.metrics.invalidations);
        let dependents = self.dependents_copy(node_id);
        let ghost ds = id_views(dependents@);
        self.invalidate_contextual_caches(&dependents);
        self.invalidate_hierarchical_caches(&dependents);
        self.touch_fingerprint(node_id);
        let ghost mid = *self;
        proof {
            let own = (1nat, set![node_id@], ds.to_set());
            assert(sat_add(start.counters().invalidations, 1) == sat_inc(start.counters().invalidations));
            assert(invalidation_effect(start, mid, own));
        }
        let ghost old_stack = id_views(stack@);
        stack.push(node_id.clone_id());
        let ghost path2 = path.insert(node_id@);
        proof {
            assert(id_views(stack@) =~= old_stack.push(node_id@));
            assert forall|x: Seq<char>| #[trigger] id_views(stack@).to_set().contains(x) == path2.contains(x) by {
                if x != node_id@ {
                    if old_stack.contains(x) {
                        let j = choose|j: int| 0 <= j < old_stack.len() && old_stack[j] == x;
                        assert(id_views(stack@)[j] == x);
                    }
                    if id_views(stack@).contains(x) {
                        let j = choose|j: int| 0 <= j < id_views(stack@).len() && id_views(stack@)[j] == x;
                        assert(old_stack[j] == x);
                    }
                } else {
                    assert(id_views(stack@)[old_stack.len() as int] == x);
                }
            }
            assert(id_views(stack@).to_set() =~= path2);
            lemma_effect_identity(mid);
            lemma_dependents_in_graph(g, node_id@);
        }
        let mut i: usize = 0;
        while i < dependents.len()
            invariant
                i <= dependents@.len(),
                ds == id_views(dependents@),
                ds == dependents_of(g, node_id@),
                self.wf(),
                self.deps() == g,
                id_views(stack@) == old_stack.push(node_id@),
                id_views(stack@).to_set() == path2,
                path2 == path.insert(node_id@),
                !path.contains(node_id@),
                ds.len() > 0 ==> graph_nodes(g).contains(node_id@),
                invalidation_effect(mid, *self, walk_prefix(g, ds, i as int, path2)),
            decreases dependents@.len() - i,
        {
            let ghost before = *self;
            let d = &dependents[i];
            proof {
                lemma_ids_contains(stack@, d@);
            }
            if !contains_id(stack, d) {
                proof {
                    lemma_path_measure(g, path, node_id@);
                }
                self.invalidate_walk(d, stack, Ghost(g), Ghost(path2));
                proof {
                    let wp = walk_prefix(g, ds, i as int, path2);
                    let w = walk(g, ds[i as int], path2);
                    lemma_effect_compose(mid, before, *self, wp, w);
                    assert(walk_prefix(g, ds, i + 1, path2) == ((wp.0 + w.0) as nat, wp.1.union(w.1), wp.2.union(w.2)));
                }
            } else {
                proof {
                    assert(walk_prefix(g, ds, i + 1, path2) == walk_prefix(g, ds, i as int, path2));
                }
            }
            i = i + 1;
        }
        let ghost pushed = stack@;
        let _ = stack.pop();
        proof {
            assert(stack@ =~= pushed.drop_last());
            assert forall|j: int| 0 <= j < stack@.len() implies (#[trigger] id_views(stack@)[j]) == old_stack[j] by {
                assert(id_views(pushed)[j] == stack@[j]@);
            }
            assert(id_views(stack@) =~= old_stack);
            let own = (1nat, set![node_id@], ds.to_set());
            let rest = walk_prefix(g, ds, ds.len() as int, path2);
            lemma_effect_compose(start, mid, *self, own, rest);
            let total = walk(g, node_id@, path);
            if graph_nodes(g).contains(node_id@) {
                assert(own.1.union(rest.1) =~= rest.1.insert(node_id@));
                assert(own.2.union(rest.2) =~= ds.to_set().union(rest.2));
                assert(total == ((own.0 + rest.0) as nat, own.1.union(rest.1), own.2.union(rest.2)));
            } else {
                assert(ds.len() == 0);
                assert(ds.to_set() =~= Set::<Seq<char>>::empty());
                assert(own.1.union(rest.1) =~= set![node_id@]);
                assert(own.2.union(rest.2) =~= Set::<Seq<char>>::empty());
                assert(total == ((own.0 + rest.0) as nat, own.1.union(rest.1), own.2.union(rest.2)));
            }
        }
    }

    /// Invalidates the cached embeddings that depend on `node_id`: counts the
    /// invalidation, drops the contextual and hierarchical entries that depend on the
    /// nodes depending on it, refreshes its fingerprint time, and repeats for each
    /// dependent that is not already being invalidated further up the chain.
    pub fn invalidate_node_embeddings(&mut self, node_id: &NodeId)
        requires
            old(self).wf(),
        ensures
            final(self).wf(),
            invalidation_effect(*old(self), *final(self), walk(old(self).deps(), node_id@, Set::empty())),
    {
        let mut stack: Vec<NodeId> = Vec::new();
        proof {
            assert(id_views(stack@).to_set() =~= Set::<Seq<char>>::empty());
        }
        self.invalidate_walk(node_id, &mut stack, Ghost(self.deps()), Ghost(Set::empty()));
    }
}

proof fn lemma_walk_closed(g: Seq<(Seq<char>, Seq<Seq<char>>)>, n: Seq<char>, path: Set<Seq<char>>)
    ensures
        walk(g, n, path).1.contains(n),
        forall|v: Seq<char>|
            #[trigger] walk(g, n, path).1.contains(v) ==> path.contains(v) || dependents_of(g, v).to_set().subset_of(
                walk(g, n, path).2,
            ),
        forall|d: Seq<char>| #[trigger] walk(g, n, path).2.contains(d) ==> path.contains(d) || walk(g, n, path).1.contains(d),
    decreases graph_nodes(g).difference(path).len(), 0int, 0int,
{
    let w = walk(g, n, path);
    if path.contains(n) || !graph_nodes(g).contains(n) {
        lemma_dependents_in_graph(g, n);
        if !path.contains(n) {
            assert(dependents_of(g, n).len() == 0);
            assert(dependents_of(g, n).to_set() =~= Set::<Seq<char>>::empty());
        }
    } else {
        lemma_path_measure(g, path, n);
        let ds = dependents_of(g, n);
        let q = path.insert(n);
        lemma_walk_prefix_closed(g, ds, ds.len() as int, q);
        let rest = walk_prefix(g, ds, ds.len() as int, q);
        assert(w == ((1 + rest.0) as nat, rest.1.insert(n), ds.to_set().union(rest.2)));
        assert forall|d: Seq<char>| #[trigger] w.2.contains(d) implies path.contains(d) || w.1.contains(d) by {
            if ds.to_set().contains(d) && !rest.2.contains(d) {
                let j = choose|j: int| 0 <= j < ds.len() && ds[j] == d;
                assert(j < ds.len() as int);
            }
        }
    }
}

proof fn lemma_walk_prefix_closed(g: Seq<(Seq<char>, Seq<Seq<char>>)>, ds: Seq<Seq<char>>, k: int, path: Set<Seq<char>>)
    requires
        0 <= k <= ds.len(),
    ensures
        forall|v: Seq<char>|
            #[trigger] walk_prefix(g, ds, k, path).1.contains(v) ==> path.contains(v) || dependents_of(
                g,
                v,
            ).to_set().subset_of(walk_prefix(g, ds, k, path).2),
        forall|d: Seq<char>|
            #[trigger] walk_prefix(g, ds, k, path).2.contains(d) ==> path.contains(d) || walk_prefix(
                g,
                ds,
                k,
                path,
            ).1.contains(d),
        forall|j: int| 0 <= j < k ==> path.contains(#[trigger] ds[j]) || walk_prefix(g, ds, k, path).1.contains(ds[j]),
    decreases graph_nodes(g).difference(path).len(), 1int, k,
{
    if k > 0 {
        lemma_walk_prefix_closed(g, ds, k - 1, path);
        let prev = walk_prefix(g, ds, k - 1, path);
        let cur = walk_prefix(g, ds, k, path);
        if !path.contains(ds[k - 1]) {
            let w = walk(g, ds[k - 1], path);
            lemma_walk_closed(g, ds[k - 1], path);
            assert(cur == ((prev.0 + w.0) as nat, prev.1.union(w.1), prev.2.union(w.2)));
            assert forall|v: Seq<char>| #[trigger] cur.1.contains(v) implies path.contains(v)
                || dependents_of(g, v).to_set().subset_of(cur.2) by {
                if prev.1.contains(v) && !path.contains(v) {
                    assert(dependents_of(g, v).to_set().subset_of(prev.2));
                } else if w.1.contains(v) && !path.contains(v) {
                    assert(dependents_of(g, v).to_set().subset_of(w.2));
                }
            }
            assert forall|d: Seq<char>| #[trigger] cur.2.contains(d) implies path.contains(d) || cur.1.contains(d) by {
                if prev.2.contains(d) {
                    assert(path.contains(d) || prev.1.contains(d));
                } else {
                    assert(w.2.contains(d));
                    assert(path.contains(d) || w.1.contains(d));
                }
            }
        } else {
            assert(cur == prev);
        }
    }
}

/// The invalidation walk from a node counts at least one invalidation and reaches every
/// node that depends on it, directly or through others: the walk starts at the node,
/// every node whose entries it drops is a node it visits, and every dependent of a
/// visited node has its entries dropped.
pub proof fn law_invalidation_closed_under_dependents(g: Seq<(Seq<char>, Seq<Seq<char>>)>, n: Seq<char>)
    ensures
        walk(g, n, Set::empty()).0 >= 1,
        walk(g, n, Set::empty()).1.contains(n),
        walk(g, n, Set::empty()).2.subset_of(walk(g, n, Set::empty()).1),
        forall|v: Seq<char>|
            #[trigger] walk(g, n, Set::empty()).1.contains(v) ==> dependents_of(g, v).to_set().subset_of(
                walk(g, n, Set::empty()).2,
            ),
{
    lemma_walk_closed(g, n, Set::empty());
}

/// When a node changes, the invalidation it triggers leaves no cached contextual or
/// hierarchical embedding that depends on a node recorded as a dependent of the
/// changed node.
pub proof fn law_invalidation_drops_dependents<E>(
    before: SmartEmbeddingCache<E>,
    after: SmartEmbeddingCache<E>,
    changed: Seq<char>,
    dependent: Seq<char>,
)
    requires
        invalidation_effect(before, after, walk(before.deps(), changed, Set::empty())),
        dependents_of(before.deps(), changed).contains(dependent),
    ensures
        forall|i: int| 0 <= i < after.contextual().len() ==> !ctx_affected(#[trigger] after.contextual()[i].0, set![dependent]),
        forall|i: int| 0 <= i < after.hierarchical().len() ==> !path_affected(#[trigger] after.hierarchical()[i].0, set![dependent]),
{
    let w = walk(before.deps(), changed, Set::empty());
    law_invalidation_closed_under_dependents(before.deps(), changed);
    assert(dependents_of(before.deps(), changed).to_set().contains(dependent));
    assert(w.2.contains(dependent));
    crate::lru::lemma_kept_sub(before.contextual(), ctx_keep::<E>(w.2));
    crate::lru::lemma_kept_sub(before.hierarchical(), path_keep::<E>(w.2));
    assert forall|i: int| 0 <= i < after.contextual().len() implies !ctx_affected(#[trigger] after.contextual()[i].0, set![dependent]) by {
        assert(ctx_keep::<E>(w.2)(after.contextual()[i]));
        if ctx_affected(after.contextual()[i].0, set![dependent]) {
            let id = choose|id: Seq<char>| #[trigger] set![dependent].contains(id) && ctx_hit_by(after.contextual()[i].0, content_hash_of(id));
            assert(w.2.contains(id));
        }
    }
    assert forall|i: int| 0 <= i < after.hierarchical().len() implies !path_affected(#[trigger] after.hierarchical()[i].0, set![dependent]) by {
        assert(path_keep::<E>(w.2)(after.hierarchical()[i]));
        if path_affected(after.hierarchical()[i].0, set![dependent]) {
            let id = choose|id: Seq<char>| #[trigger] set![dependent].contains(id) && after.hierarchical()[i].0.path_hashes.contains(content_hash_of(id));
            assert(w.2.contains(id));
        }
    }
}

/// When a node changes, the invalidation it triggers leaves no contextual entry whose
/// parent hash, sibling hashes or mention hashes hold the hash of a node recorded as a
/// dependent of the changed node, and no hierarchical entry whose path holds it.
pub proof fn law_invalidation_drops_entries_naming_a_dependent<E>(
    before: SmartEmbeddingCache<E>,
    after: SmartEmbeddingCache<E>,
    changed: Seq<char>,
    dependent: Seq<char>,
)
    requires
        invalidation_effect(before, after, walk(before.deps(), changed, Set::empty())),
        dependents_of(before.deps(), changed).contains(dependent),
    ensures
        forall|i: int|
            0 <= i < after.contextual().len() ==> {
                let k = (#[trigger] after.contextual()[i]).0;
                &&& k.parent_hash != Some(content_hash_of(dependent))
                &&& !k.sibling_hashes.contains(content_hash_of(dependent))
                &&& !k.mention_hashes.contains(content_hash_of(dependent))
            },
        forall|i: int|
            0 <= i < after.hierarchical().len() ==> !(#[trigger] after.hierarchical()[i]).0.path_hashes.contains(
                content_hash_of(dependent),
            ),
{
    law_invalidation_drops_dependents(before, after, changed, dependent);
    assert(set![dependent].contains(dependent));
    assert forall|i: int| 0 <= i < after.contextual().len() implies {
        let k = (#[trigger] after.contextual()[i]).0;
        &&& k.parent_hash != Some(content_hash_of(dependent))
        &&& !k.sibling_hashes.contains(content_hash_of(dependent))
        &&& !k.mention_hashes.contains(content_hash_of(dependent))
    } by {
        let k = after.contextual()[i].0;
        assert(!ctx_affected(k, set![dependent]));
        if k.parent_hash == Some(content_hash_of(dependent)) || k.sibling_hashes.contains(content_hash_of(dependent))
            || k.mention_hashes.contains(content_hash_of(dependent)) {
            assert(ctx_hit_by(k, content_hash_of(dependent)));
            assert(ctx_affected(k, set![dependent]));
        }
    }
    assert forall|i: int| 0 <= i < after.hierarchical().len() implies !(#[trigger] after.hierarchical()[i]).0.path_hashes.contains(
        content_hash_of(dependent),
    ) by {
        let k = after.hierarchical()[i].0;
        assert(!path_affected(k, set![dependent]));
        if k.path_hashes.contains(content_hash_of(dependent)) {
            assert(path_affected(k, set![dependent]));
        }
    }
}

impl<E> SmartEmbeddingCache<E> {
    /// The recorded fingerprint of a node.
    fn fingerprint_of(&self, node_id: &NodeId) -> (r: Option<&RelationshipFingerprint>)
        requires
            self.wf(),
        ensures
            match crate::lru::lookup(self.fingerprints(), node_id@) {
                Some(f) => r is Some && r->0@ == f,
                None => r is None,
            },
    {
        match position_of(&self.relationship_fingerprints, node_id) {
            Some(i) => {
                proof {
                    crate::lru::lemma_find_key_unique(self.fingerprints(), i as int);
                }
                Some(&self.relationship_fingerprints[i].1)
            },
            None => {
                proof {
                    assert(!crate::lru::has_key(self.fingerprints(), node_id@));
                }
                None
            },
        }
    }

    /// Whether a contextual entry may still be used: it has not expired and, when a
    /// current fingerprint is found for the looked-up node, it is not newer than the
    /// entry's. The lookup uses a freshly generated identifier.
    fn is_contextual_entry_valid(&self, entry: &CacheEntry<E>) -> (r: bool)
        requires
            self.wf(),
    {
        if expired_since(elapsed_nanos(&entry.created_at), self.cache_ttl_secs) {
            return false;
        }
        if let Some(fingerprint) = &entry.fingerprint {
            let probe = NodeId::new();
            if let Some(current) = self.fingerprint_of(&probe) {
                let a = fingerprint.last_modified;
                let b = current.last_modified;
                return a.secs < b.secs || (a.secs == b.secs && a.nanos <= b.nanos);
            }
        }
        true
    }

    /// Whether a hierarchical entry may still be used: it has not expired and, when a
    /// current fingerprint is found for the looked-up node, parent and siblings are
    /// unchanged. The lookup uses a freshly generated identifier.
    fn is_hierarchical_entry_valid(&self, entry: &CacheEntry<E>) -> (r: bool)
        requires
            self.wf(),
    {
        if expired_since(elapsed_nanos(&entry.created_at), self.cache_ttl_secs) {
            return false;
        }
        if let Some(fingerprint) = &entry.fingerprint {
            let probe = NodeId::new();
            if let Some(current) = self.fingerprint_of(&probe) {
                return crate::model::opt_id_eq(&fingerprint.parent_id, &current.parent_id)
                    && ids_eq(&fingerprint.sibling_ids, &current.sibling_ids);
            }
        }
        true
    }
}


/// Reading a tier right after caching an embedding under a key hits, and hands out a
/// clone of that embedding.
pub proof fn law_cached_embedding_is_found<E: Clone>(
    tier: Seq<(Seq<char>, CacheEntry<E>)>,
    capacity: usize,
    key: Seq<char>,
    entry: CacheEntry<E>,
    embedding: E,
    after_read: Seq<(Seq<char>, CacheEntry<E>)>,
    r: Option<E>,
)
    requires
        crate::lru::keys_unique(tier),
        fresh_entry(entry, embedding, None),
        tier_lookup(crate::lru::after_insert(tier, capacity, key, entry), after_read, key, r),
    ensures
        r matches Some(x) && cloned(embedding, x),
{
    let t = crate::lru::after_insert(tier, capacity, key, entry);
    crate::lru::law_lookup_after_insert(tier, capacity, key, entry);
    assert(t[crate::lru::find_key(t, key)].1 == entry);
}

} // verus!
