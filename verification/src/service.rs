use vstd::prelude::*;

use crate::context::{build_contextual_content, build_hierarchical_content};
use crate::embedding_cache::{CacheStats, ContentHash, SmartEmbeddingCache};
use crate::errors::{NodeSpaceError, NodeSpaceResult, internal, is_internal, not_found};
use crate::hierarchy::HierarchyCache;
use crate::model::{JsonValue, Node, NodeId};
use crate::monitoring::PerformanceMonitor;
use crate::query::OfflineFallback;
use crate::text::{push_str, string_of};

verus! {

/// Storage of nodes, with embeddings of type `E` and search scores of type `Self::Score`.
/// The service only passes what it gets from the store along.
pub trait DataStore<E> {
    /// Score attached to a search hit.
    type Score;

    /// The node with the given identifier, if stored.
    fn get_node(&self, id: &NodeId) -> NodeSpaceResult<Option<Node>>;

    /// Replaces a stored node.
    fn update_node(&self, node: Node) -> NodeSpaceResult<()>;

    /// Deletes a node.
    fn delete_node(&self, id: &NodeId) -> NodeSpaceResult<()>;

    /// The nodes matching a text query (all nodes for the empty query).
    fn query_nodes(&self, query: &str) -> NodeSpaceResult<Vec<Node>>;

    /// The nodes of the tree with the given root.
    fn get_nodes_by_root(&self, root_id: &NodeId) -> NodeSpaceResult<Vec<Node>>;

    /// Stores a node together with its embedding.
    fn store_node_with_embedding(&self, node: Node, embedding: E) -> NodeSpaceResult<NodeId>;

    /// The nodes nearest to an embedding, at most `limit`, with their scores.
    fn semantic_search_with_embedding(&self, embedding: E, limit: usize) -> NodeSpaceResult<Vec<(Node, Self::Score)>>;

    /// Replaces the embedding of a stored node.
    fn update_node_embedding(&self, id: &NodeId, embedding: E) -> NodeSpaceResult<()>;
}

/// A request for text generation with retrieval context.
#[derive(Debug)]
pub struct TextRequest {
    pub prompt: String,
    pub max_tokens: u32,
    pub context_window: u32,
    pub conversation_mode: bool,
    /// The sources the answer may draw on, as `node:<id>` references.
    pub knowledge_sources: Vec<String>,
    /// Whether retrieval found context (confidence 0.8) or not (0.3).
    pub retrieval_found_context: bool,
    pub context_summary: String,
    pub enable_link_generation: bool,
}

/// Language-model back end producing embeddings of type `Self::Embedding`.
pub trait NLPEngine {
    /// Embedding vector type.
    type Embedding;

    /// The embedding of a text.
    fn generate_embedding(&self, text: &str) -> NodeSpaceResult<Self::Embedding>;

    /// The embeddings of several texts, in order.
    fn batch_embeddings(&self, texts: &Vec<String>) -> NodeSpaceResult<Vec<Self::Embedding>>;

    /// Text generated for a prompt.
    fn generate_text(&self, prompt: &str) -> NodeSpaceResult<String>;

    /// Text generated for a request with retrieval context; on failure, the text of the
    /// error.
    fn generate_text_enhanced(&self, request: TextRequest) -> Result<String, String>;
}

/// Model preferences.
#[derive(Debug, Clone)]
pub struct ModelConfig {
    pub embedding_model: Option<String>,
    pub text_model: Option<String>,
    pub download_timeout: Option<u64>,
    pub cache_dir: Option<String>,
}

/// Performance tuning.
#[derive(Debug, Clone)]
pub struct PerformanceConfig {
    pub max_batch_size: Option<usize>,
    pub context_window: Option<usize>,
    pub max_siblings_context: Option<usize>,
    pub max_children_context: Option<usize>,
}

/// Offline operation.
#[derive(Debug, Clone)]
pub struct OfflineConfig {
    pub enable_offline: bool,
    pub offline_fallback: OfflineFallback,
}

/// Configuration of the service.
#[derive(Debug, Clone)]
pub struct NodeSpaceConfig {
    pub model_config: ModelConfig,
    pub performance_config: PerformanceConfig,
    pub offline_config: OfflineConfig,
}

/// Default embedding model.
pub const DEFAULT_EMBEDDING_MODEL: &'static str = "sentence-transformers/all-MiniLM-L6-v2";
/// Default text generation model.
pub const DEFAULT_TEXT_MODEL: &'static str = "mistralai/Mistral-7B-Instruct-v0.1";
/// Default model download timeout, in seconds.
pub const DEFAULT_DOWNLOAD_TIMEOUT: u64 = 300;
/// Default batch size.
pub const DEFAULT_MAX_BATCH_SIZE: usize = 32;
/// Default number of results of a semantic search.
pub const DEFAULT_SEARCH_LIMIT: usize = 10;
/// Default number of results per search strategy.
pub const DEFAULT_MAX_RESULTS_PER_STRATEGY: usize = 10;
/// Default limit of a multi-strategy search.
pub const DEFAULT_MULTI_STRATEGY_LIMIT: usize = 20;
/// Default limit of fused search results.
pub const DEFAULT_FINAL_RESULT_LIMIT: usize = 10;
/// Default embedding dimension.
pub const DEFAULT_EMBEDDING_DIMENSION: usize = 768;
/// Deepest hierarchy the service walks.
pub const MAX_HIERARCHY_DEPTH: u32 = 1000;
/// Most children processed in one operation.
pub const MAX_CHILDREN_PER_NODE: usize = 10000;
/// Most nodes processed when building a hierarchy.
pub const MAX_TOTAL_HIERARCHY_NODES: usize = 50000;
/// Time limit of one hierarchy operation, in milliseconds.
pub const HIERARCHY_OPERATION_TIMEOUT_MS: u64 = 30000;
/// Default number of siblings and children included in embedding context.
pub const DEFAULT_FAMILY_CONTEXT: usize = 10;

/// The default configuration: default models, batch size and context window, ten
/// siblings and ten children of context, offline operation with cached fallbacks.
pub open spec fn is_default_config(r: NodeSpaceConfig) -> bool {
    &&& r.model_config.embedding_model matches Some(m) && m@ == DEFAULT_EMBEDDING_MODEL@
    &&& r.model_config.text_model matches Some(m) && m@ == DEFAULT_TEXT_MODEL@
    &&& r.model_config.download_timeout == Some(DEFAULT_DOWNLOAD_TIMEOUT)
    &&& r.model_config.cache_dir is None
    &&& r.performance_config.max_batch_size == Some(DEFAULT_MAX_BATCH_SIZE)
    &&& r.performance_config.context_window == Some(crate::query::DEFAULT_CONTEXT_WINDOW)
    &&& r.performance_config.max_siblings_context == Some(DEFAULT_FAMILY_CONTEXT)
    &&& r.performance_config.max_children_context == Some(DEFAULT_FAMILY_CONTEXT)
    &&& r.offline_config.enable_offline
    &&& r.offline_config.offline_fallback == OfflineFallback::Cache
}

impl NodeSpaceConfig {
    /// The default configuration: default models, batch size and context window, ten
    /// siblings and ten children of context, offline operation with cached fallbacks.
    pub fn default_config() -> (r: NodeSpaceConfig)
        ensures
            is_default_config(r),
    {
        NodeSpaceConfig {
            model_config: ModelConfig {
                embedding_model: Some(string_of(DEFAULT_EMBEDDING_MODEL)),
                text_model: Some(string_of(DEFAULT_TEXT_MODEL)),
                download_timeout: Some(DEFAULT_DOWNLOAD_TIMEOUT),
                cache_dir: None,
            },
            performance_config: PerformanceConfig {
                max_batch_size: Some(DEFAULT_MAX_BATCH_SIZE),
                context_window: Some(crate::query::DEFAULT_CONTEXT_WINDOW),
                max_siblings_context: Some(DEFAULT_FAMILY_CONTEXT),
                max_children_context: Some(DEFAULT_FAMILY_CONTEXT),
            },
            offline_config: OfflineConfig { enable_offline: true, offline_fallback: OfflineFallback::Cache },
        }
    }
}

impl Default for NodeSpaceConfig {
    fn default() -> (r: NodeSpaceConfig)
        ensures
            is_default_config(r),
    {
        NodeSpaceConfig::default_config()
    }
}

/// Lifecycle state of the service.
#[derive(Debug, Clone)]
pub enum ServiceState {
    Uninitialized,
    Initializing,
    Ready,
    Failed(String),
}

/// The `Debug` text of a string (quoted and escaped).
pub uninterp spec fn spec_debug_text(s: Seq<char>) -> Seq<char>;

/// The `Debug` text of a string.
///
/// Trusted: calls `<str as Debug>::fmt` through `format!("{:?}")`, which quotes and
/// escapes the text as a function of the text alone; the result is named
/// `spec_debug_text`.
#[verifier::external_body]
fn debug_text(s: &str) -> (r: String)
    ensures
        r@ == spec_debug_text(s@),
{
    format!("{:?}", s)
}

/// The `Debug` text of a service state.
pub open spec fn state_debug(s: ServiceState) -> Seq<char> {
    match s {
        ServiceState::Uninitialized => "Uninitialized"@,
        ServiceState::Initializing => "Initializing"@,
        ServiceState::Ready => "Ready"@,
        ServiceState::Failed(m) => "Failed("@ + spec_debug_text(m@) + ")"@,
    }
}

impl ServiceState {
    /// The `Debug` text of the state.
    pub fn debug_string(&self) -> (r: String)
        ensures
            r@ == state_debug(*self),
    {
        match self {
            ServiceState::Uninitialized => string_of("Uninitialized"),
            ServiceState::Initializing => string_of("Initializing"),
            ServiceState::Ready => string_of("Ready"),
            ServiceState::Failed(m) => {
                let mut s = String::new();
                push_str(&mut s, "Failed(");
                let d = debug_text(m.as_str());
                push_str(&mut s, d.as_str());
                push_str(&mut s, ")");
                s
            },
        }
    }

    /// A copy of the state.
    pub fn copy_state(&self) -> (r: ServiceState)
        ensures
            r == *self,
    {
        match self {
            ServiceState::Uninitialized => ServiceState::Uninitialized,
            ServiceState::Initializing => ServiceState::Initializing,
            ServiceState::Ready => ServiceState::Ready,
            ServiceState::Failed(m) => ServiceState::Failed(m.clone()),
        }
    }
}

/// The error for an operation refused because the service is not ready in state `s`.
pub open spec fn not_ready_error(e: NodeSpaceError, s: ServiceState) -> bool {
    is_internal(e, "Service not ready: "@ + state_debug(s))
}

/// Core business logic service over a store `D` and a language-model back end `N`.
pub struct NodeSpaceService<D, N: NLPEngine> {
    data_store: D,
    nlp_engine: N,
    config: NodeSpaceConfig,
    state: ServiceState,
    performance_monitor: PerformanceMonitor,
    hierarchy_cache: HierarchyCache,
    embedding_cache: SmartEmbeddingCache<N::Embedding>,
}

impl<D: DataStore<N::Embedding>, N: NLPEngine> NodeSpaceService<D, N> {
    /// The lifecycle state.
    pub closed spec fn state_of(&self) -> ServiceState {
        self.state
    }

    /// The configuration.
    pub closed spec fn config_of(&self) -> NodeSpaceConfig {
        self.config
    }

    /// The caches are valid.
    pub closed spec fn wf(&self) -> bool {
        self.embedding_cache.wf() && self.hierarchy_cache.wf()
    }

    /// The hierarchy cache.
    pub closed spec fn hierarchy_of(&self) -> HierarchyCache {
        self.hierarchy_cache
    }

    /// The embedding cache.
    pub closed spec fn embedding_cache_of(&self) -> SmartEmbeddingCache<N::Embedding> {
        self.embedding_cache
    }

    /// A service with the default configuration, not yet initialized.
    pub fn new(data_store: D, nlp_engine: N) -> (r: Self)
        ensures
            r.wf(),
            r.state_of() is Uninitialized,
            is_default_config(r.config_of()),
            r.store_of() == data_store,
            r.engine_of() == nlp_engine,
    {
        Self::with_config(data_store, nlp_engine, NodeSpaceConfig::default_config())
    }

    /// A service with the given configuration, not yet initialized, with empty caches.
    pub fn with_config(data_store: D, nlp_engine: N, config: NodeSpaceConfig) -> (r: Self)
        ensures
            r.wf(),
            r.state_of() is Uninitialized,
            r.config_of() == config,
            r.store_of() == data_store,
            r.engine_of() == nlp_engine,
            r.embedding_cache_of().individual().len() == 0,
            r.embedding_cache_of().contextual().len() == 0,
            r.embedding_cache_of().hierarchical().len() == 0,
    {
        NodeSpaceService {
            data_store,
            nlp_engine,
            config,
            state: ServiceState::Uninitialized,
            performance_monitor: PerformanceMonitor::new(),
            hierarchy_cache: HierarchyCache::new(),
            embedding_cache: SmartEmbeddingCache::new(),
        }
    }

    /// The performance monitor.
    pub fn performance_monitor(&self) -> (r: &PerformanceMonitor)
        ensures
            *r == self.monitor_of(),
    {
        &self.performance_monitor
    }

    /// The performance monitor the service holds.
    pub closed spec fn monitor_of(&self) -> PerformanceMonitor {
        self.performance_monitor
    }

    /// A copy of the lifecycle state.
    pub fn get_state(&self) -> (r: ServiceState)
        ensures
            r == self.state_of(),
    {
        self.state.copy_state()
    }

    /// Whether the service is ready for operations.
    pub fn is_ready(&self) -> (r: bool)
        ensures
            r == (self.state_of() is Ready),
    {
        match self.state {
            ServiceState::Ready => true,
            _ => false,
        }
    }

    /// Fails with the not-ready error unless the service is ready.
    fn ensure_ready(&self) -> (r: NodeSpaceResult<()>)
        ensures
            r is Ok <==> self.state_of() is Ready,
            r matches Err(e) ==> not_ready_error(e, self.state_of()),
    {
        if self.is_ready() {
            Ok(())
        } else {
            let mut message = String::new();
            push_str(&mut message, "Service not ready: ");
            let d = self.state.debug_string();
            push_str(&mut message, d.as_str());
            Err(internal(message))
        }
    }

    /// Entry counts and capacities of the embedding cache.
    pub fn embedding_cache_stats(&self) -> (r: CacheStats)
        requires
            self.wf(),
        ensures
            r.individual_count == self.embedding_cache_of().individual().len(),
            r.contextual_count == self.embedding_cache_of().contextual().len(),
            r.hierarchical_count == self.embedding_cache_of().hierarchical().len(),
    {
        self.embedding_cache.cache_stats()
    }

    /// Empties the embedding cache.
    pub fn clear_embedding_cache(&mut self)
        requires
            old(self).wf(),
        ensures
            final(self).wf(),
            final(self).embedding_cache_of().individual().len() == 0,
            final(self).embedding_cache_of().contextual().len() == 0,
            final(self).embedding_cache_of().hierarchical().len() == 0,
            final(self).state_of() == old(self).state_of(),
    {
        self.embedding_cache.clear_all();
    }

    /// Invalidates the cached embeddings that depend on a changed node.
    pub fn invalidate_node_cache(&mut self, node_id: &NodeId)
        requires
            old(self).wf(),
        ensures
            final(self).wf(),
            crate::embedding_cache::invalidation_effect(
                old(self).embedding_cache_of(),
                final(self).embedding_cache_of(),
                crate::embedding_cache::walk(old(self).embedding_cache_of().deps(), node_id@, Set::empty()),
            ),
            final(self).state_of() == old(self).state_of(),
            final(self).config_of() == old(self).config_of(),
            final(self).hierarchy_of() == old(self).hierarchy_of(),
    {
        self.embedding_cache.invalidate_node_embeddings(node_id);
    }

    /// Empties the hierarchy cache.
    pub fn invalidate_hierarchy_cache(&mut self)
        requires
            old(self).wf(),
        ensures
            final(self).wf(),
            final(self).hierarchy_of().depths().len() == 0,
            final(self).hierarchy_of().child_lists().len() == 0,
            !final(self).hierarchy_of().written(),
            final(self).hierarchy_of().ttl_secs() == old(self).hierarchy_of().ttl_secs(),
            final(self).state_of() == old(self).state_of(),
            final(self).config_of() == old(self).config_of(),
            final(self).embedding_cache_of() == old(self).embedding_cache_of(),
    {
        self.hierarchy_cache.invalidate();
    }
}

} // verus!

verus! {

/// What a poll of the lifecycle state decides while waiting for readiness.
#[derive(Debug)]
pub enum ReadyStep {
    /// The service is ready.
    Ready,
    /// Initialization failed, or the wait timed out, with this error.
    Fail(NodeSpaceError),
    /// Wait a moment and poll again.
    Wait,
}

/// Decides one poll of the wait for readiness: a ready service is done at once,
/// whatever the time; otherwise a timed-out wait fails, a failed initialization fails
/// with its message, and anything else waits.
pub fn ready_step(state: &ServiceState, timed_out: bool) -> (r: ReadyStep)
    ensures
        *state is Ready ==> r is Ready,
        !(*state is Ready) && timed_out ==> (r matches ReadyStep::Fail(e) && is_internal(e, "NLP initialization timed out"@)),
        !timed_out ==> match state {
            ServiceState::Ready => r is Ready,
            ServiceState::Failed(m) => r matches ReadyStep::Fail(e) && is_internal(
                e,
                "NLP initialization failed: "@ + m@,
            ),
            _ => r is Wait,
        },
{
    if let ServiceState::Ready = state {
        return ReadyStep::Ready;
    }
    if timed_out {
        return ReadyStep::Fail(internal(string_of("NLP initialization timed out")));
    }
    match state {
        ServiceState::Ready => ReadyStep::Ready,
        ServiceState::Failed(m) => {
            let mut message = String::new();
            push_str(&mut message, "NLP initialization failed: ");
            push_str(&mut message, m.as_str());
            ReadyStep::Fail(internal(message))
        },
        _ => ReadyStep::Wait,
    }
}

impl<D: DataStore<N::Embedding>, N: NLPEngine> NodeSpaceService<D, N> {
    /// Checks that the language-model back end works by generating an embedding and a
    /// text. An embedding failure always fails; a text failure is tolerated when offline
    /// operation is enabled.
    fn initialize_nlp_engine(&self) -> (r: NodeSpaceResult<()>) {
        match self.nlp_engine.generate_embedding("initialization test") {
            Ok(_) => match self.nlp_engine.generate_text("test initialization") {
                Ok(_) => Ok(()),
                Err(e) => {
                    if self.config.offline_config.enable_offline {
                        Ok(())
                    } else {
                        Err(e)
                    }
                },
            },
            Err(e) => Err(e),
        }
    }

    /// Initializes the service: ready when the back end works (a failing text generation
    /// is tolerated when offline operation is enabled), otherwise failed with the back
    /// end's error.
    pub fn initialize(&mut self) -> (r: NodeSpaceResult<()>)
        requires
            old(self).wf(),
        ensures
            final(self).wf(),
            r is Ok <==> final(self).state_of() is Ready,
            r matches Err(e) ==> final(self).state_of() matches ServiceState::Failed(m) && m@
                == "NLP engine initialization failed: "@ + crate::errors::error_text(e),
            final(self).config_of() == old(self).config_of(),
    {
        self.state = ServiceState::Initializing;
        match self.initialize_nlp_engine() {
            Ok(()) => {
                self.state = ServiceState::Ready;
                Ok(())
            },
            Err(e) => {
                let mut m = String::new();
                push_str(&mut m, "NLP engine initialization failed: ");
                let d = e.describe();
                push_str(&mut m, d.as_str());
                self.state = ServiceState::Failed(m);
                Err(e)
            },
        }
    }

    /// Shuts the service down: it is uninitialized afterwards.
    pub fn shutdown(&mut self) -> (r: NodeSpaceResult<()>)
        requires
            old(self).wf(),
        ensures
            final(self).wf(),
            r is Ok,
            final(self).state_of() is Uninitialized,
    {
        self.state = ServiceState::Uninitialized;
        Ok(())
    }
}

impl<D: DataStore<N::Embedding>, N: NLPEngine> NodeSpaceService<D, N> where N::Embedding: Clone {
    /// The embedding of a text, from the content cache when present; otherwise generated
    /// and cached.
    pub fn get_cached_embedding(&mut self, content: &str) -> (r: NodeSpaceResult<N::Embedding>)
        requires
            old(self).wf(),
        ensures
            final(self).wf(),
            final(self).state_of() == old(self).state_of(),
            crate::lru::has_key(
                old(self).embedding_cache_of().individual(),
                crate::embedding_cache::content_hash_of(content@),
            ) ==> (r matches Ok(e) && cloned(
                old(self).embedding_cache_of().individual()[crate::lru::find_key(
                    old(self).embedding_cache_of().individual(),
                    crate::embedding_cache::content_hash_of(content@),
                )].1.embedding,
                e,
            )),
            r matches Ok(e) ==> (!crate::lru::has_key(
                old(self).embedding_cache_of().individual(),
                crate::embedding_cache::content_hash_of(content@),
            ) ==> (crate::lru::lookup(
                final(self).embedding_cache_of().individual(),
                crate::embedding_cache::content_hash_of(content@),
            ) matches Some(entry) && cloned(e, entry.embedding))),
    {
        let content_hash = ContentHash::from_content(content);
        let key = content_hash.copy_hash();
        if let Some(cached) = self.embedding_cache.get_individual_embedding(&content_hash) {
            return Ok(cached);
        }
        let embedding = self.nlp_engine.generate_embedding(content)?;
        let copy = embedding.clone();
        let ghost before = self.embedding_cache.individual();
        proof {
            self.embedding_cache.lemma_tiers();
        }
        self.embedding_cache.cache_individual_embedding(key, copy);
        proof {
            let after = self.embedding_cache.individual();
            crate::lru::law_lookup_after_insert(before, self.embedding_cache.caps().0, content_hash@, after.last().1);
        }
        Ok(embedding)
    }
}

} // verus!

verus! {

/// Copies `v` except the nodes whose identifier is `id`.
fn without_id(v: Vec<Node>, id: &NodeId) -> (r: Vec<Node>)
    ensures
        crate::hierarchy::node_views(r@) == crate::lru::kept(
            crate::hierarchy::node_views(v@),
            |n: crate::model::NodeView| n.id != id@,
        ),
{
    let ghost nv = crate::hierarchy::node_views(v@);
    let ghost keep = |n: crate::model::NodeView| n.id != id@;
    let mut r: Vec<Node> = Vec::new();
    let mut i: usize = 0;
    while i < v.len()
        invariant
            i <= v@.len(),
            nv == crate::hierarchy::node_views(v@),
            keep == (|n: crate::model::NodeView| n.id != id@),
            crate::hierarchy::node_views(r@) == crate::lru::kept(nv.take(i as int), keep),
        decreases v@.len() - i,
    {
        proof {
            crate::lru::lemma_kept_take(nv, keep, i as int);
        }
        let ghost before = crate::hierarchy::node_views(r@);
        if !(v[i].id == *id) {
            r.push(v[i].dup());
            proof {
                assert(crate::hierarchy::node_views(r@) =~= before.push(nv[i as int]));
            }
        }
        i = i + 1;
    }
    proof {
        assert(nv.take(v@.len() as int) =~= nv);
    }
    r
}

/// Each pair's list holds the identifiers of the nodes of `all` that link to the pair's
/// identifier (see `links_into`).
pub open spec fn batch_lists_from(
    v: Seq<(NodeId, Vec<NodeId>)>,
    all: Seq<crate::model::NodeView>,
    types: Seq<Seq<char>>,
) -> bool {
    forall|i: int|
        0 <= i < v.len() ==> crate::embedding_cache::id_views((#[trigger] v[i]).1@) == crate::links::links_into(
            all,
            types,
            v[i].0@,
        )
}

/// The lists of `v` are those of one set of stored nodes.
pub open spec fn batch_lists_from_some(v: Seq<(NodeId, Vec<NodeId>)>, types: Seq<Seq<char>>) -> bool {
    exists|all: Seq<crate::model::NodeView>| #[trigger] batch_lists_from(v, all, types)
}

/// The value of an optional borrowed identifier.
pub open spec fn opt_ref_id(o: Option<&NodeId>) -> Option<Seq<char>> {
    match o {
        Some(i) => Some(i@),
        None => None,
    }
}

/// The metadata of a node after its parent is set: with a parent, `parent_id` is
/// recorded in an object document (a missing or null document becomes an object, any
/// other is kept as it is); without one, `parent_id` is removed from an object document.
pub open spec fn metadata_with_parent(m: Option<crate::model::JsonModel>, parent: Option<Seq<char>>) -> Option<crate::model::JsonModel> {
    match parent {
        Some(p) => match m {
            None => Some(crate::model::JsonModel::Object(Map::empty().insert("parent_id"@, crate::model::JsonModel::Str(p)))),
            Some(v) => if v is Null || v is Object {
                Some(crate::model::JsonModel::Object(
                    (if v is Object { v->Object_0 } else { Map::empty() }).insert("parent_id"@, crate::model::JsonModel::Str(p)),
                ))
            } else {
                Some(v)
            },
        },
        None => match m {
            Some(crate::model::JsonModel::Object(o)) => Some(crate::model::JsonModel::Object(o.remove("parent_id"@))),
            other => other,
        },
    }
}

/// A node with its parent set (or cleared), both in its parent field and in the
/// `parent_id` record of its metadata.
pub fn with_parent(node: Node, parent_id: Option<&NodeId>) -> (r: Node)
    ensures
        r@.parent_id == opt_ref_id(parent_id),
        r@.metadata == metadata_with_parent(node@.metadata, opt_ref_id(parent_id)),
        r@.id == node@.id,
        r@.node_type == node@.node_type,
        r@.content == node@.content,
        r@.created_at == node@.created_at,
        r@.updated_at == node@.updated_at,
        r@.before_sibling == node@.before_sibling,
        r@.root_id == node@.root_id,
{
    let mut node = node;
    match parent_id {
        Some(p) => {
            let mut metadata = match node.metadata.take() {
                Some(m) => m,
                None => JsonValue::empty_object(),
            };
            let _ok = metadata.set_member(string_of("parent_id"), JsonValue::Str(string_of(p.as_str())));
            node.metadata = Some(metadata);
            node.parent_id = Some(p.clone_id());
        },
        None => {
            if let Some(m) = &mut node.metadata {
                m.remove_member("parent_id");
            }
            node.parent_id = None;
        },
    }
    node
}

/// A node with the sibling it comes before set (or cleared); nothing else changes.
pub fn with_before_sibling(node: Node, before_sibling_id: Option<&NodeId>) -> (r: Node)
    ensures
        r@ == (crate::model::NodeView { before_sibling: opt_ref_id(before_sibling_id), ..node@ }),
{
    let mut node = node;
    node.before_sibling = match before_sibling_id {
        Some(b) => Some(b.clone_id()),
        None => None,
    };
    node
}

/// The generation request of a question over found nodes: the prompt as given, up to
/// 500 tokens in an 8192-token window, outside a conversation, with the sources as
/// `node:<id>` references, found context, and links not generated.
pub fn contextual_answer_request(prompt: &str, sources: &Vec<NodeId>) -> (r: TextRequest)
    ensures
        r.prompt@ == prompt@,
        r.max_tokens == 500,
        r.context_window == 8192,
        !r.conversation_mode,
        crate::text::views_of(r.knowledge_sources@) == sources@.map_values(|s: NodeId| "node:"@ + s@),
        r.retrieval_found_context,
        r.context_summary@ == "Campaign management data retrieved from semantic search"@,
        !r.enable_link_generation,
{
    TextRequest {
        prompt: string_of(prompt),
        max_tokens: 500,
        context_window: 8192,
        conversation_mode: false,
        knowledge_sources: source_refs(sources),
        retrieval_found_context: true,
        context_summary: string_of("Campaign management data retrieved from semantic search"),
        enable_link_generation: false,
    }
}

/// A node moved under `new_parent` at time `now`: its parent field and update time
/// change, nothing else.
pub fn moved_node(node: Node, new_parent: &NodeId, now: String) -> (r: Node)
    ensures
        r@ == (crate::model::NodeView { parent_id: Some(new_parent@), updated_at: now@, ..node@ }),
{
    let mut node = node;
    node.parent_id = Some(new_parent.clone_id());
    node.updated_at = now;
    node
}

/// The node the store gave for `id`, when it carries that identifier; a node under
/// another identifier counts as missing (`entity` not found).
pub fn stored_as(n: Node, id: &NodeId, entity: &str) -> (r: NodeSpaceResult<Node>)
    ensures
        n@.id == id@ ==> r == Ok::<Node, NodeSpaceError>(n),
        n@.id != id@ ==> (r matches Err(e) && crate::errors::is_not_found(e, entity@, id@)),
{
    if n.id == *id {
        Ok(n)
    } else {
        Err(not_found(entity, id.as_str(), None))
    }
}

/// Each node of `c` names the next as its parent.
pub open spec fn parent_linked(c: Seq<crate::model::NodeView>) -> bool {
    forall|i: int| 0 <= i < c.len() - 1 ==> (#[trigger] c[i]).parent_id == Some(c[i + 1].id)
}

/// `c` is the chain of parents from the node `start` up to a node without parent.
pub open spec fn chain_to_root(c: Seq<crate::model::NodeView>, start: Seq<char>) -> bool {
    &&& c.len() >= 1
    &&& c[0].id == start
    &&& parent_linked(c)
    &&& c.last().parent_id is None
}

/// Each node of `anc` after the first names the one before it as its parent: an
/// ancestry listed from the root down.
pub open spec fn root_first(anc: Seq<crate::model::NodeView>) -> bool {
    forall|i: int| 0 <= i < anc.len() - 1 ==> (#[trigger] anc[i + 1]).parent_id == Some(anc[i].id)
}

/// The number of hits a search asks the store for: the requested limit, capped by the
/// configured batch size.
pub open spec fn effective_limit(limit: usize, max_batch: Option<usize>) -> usize {
    match max_batch {
        Some(m) => if limit < m { limit } else { m },
        None => limit,
    }
}

/// The results of a search: each hit the store gave, in the store's order, as a
/// result naming its node, up to `cap` of them.
pub fn hits_to_results<S>(hits: Vec<(Node, S)>, cap: usize) -> (r: Vec<SearchResult<S>>)
    ensures
        r@.len() == (if cap < hits@.len() { cap as int } else { hits@.len() as int }),
        forall|i: int|
            0 <= i < r@.len() ==> (#[trigger] r@[i]).node == hits@[i].0 && r@[i].score == hits@[i].1
                && r@[i].node_id@ == hits@[i].0@.id,
{
    let ghost all = hits@;
    let mut rest = hits;
    let mut collected: Vec<SearchResult<S>> = Vec::new();
    while rest.len() > 0 && collected.len() < cap
        invariant
            collected@.len() <= cap,
            collected@.len() + rest@.len() == all.len(),
            rest@ == all.skip(collected@.len() as int),
            forall|i: int|
                0 <= i < collected@.len() ==> (#[trigger] collected@[i]).node == all[i].0 && collected@[i].score
                    == all[i].1 && collected@[i].node_id@ == all[i].0@.id,
        decreases rest@.len(),
    {
        let ghost before = rest@;
        let (node, score) = rest.remove(0);
        proof {
            assert(before[0] == all[collected@.len() as int]);
            assert(rest@ =~= all.skip(collected@.len() as int + 1));
        }
        let id = node.id.clone_id();
        collected.push(SearchResult { node_id: id, node, score });
    }
    collected
}

/// Refuses a move whose target parent is among the node's descendants in
/// `all_nodes`.
pub fn check_move_target(all_nodes: &[Node], node_id: &NodeId, new_parent: &NodeId) -> (r: NodeSpaceResult<()>)
    ensures
        r is Ok <==> !crate::hierarchy::ids_of(
            crate::hierarchy::descendants(
                |u: Seq<char>| crate::hierarchy::children_in(crate::hierarchy::node_views(all_nodes@), u),
                crate::hierarchy::scan_universe(crate::hierarchy::node_views(all_nodes@)),
                node_id@,
                Set::empty(),
            ),
        ).contains(new_parent@),
        r matches Err(e) ==> crate::errors::is_invalid(e, "move_parent"@, "non_descendant"@, "descendant"@),
{
    let descendants = crate::hierarchy::get_all_descendants(all_nodes, node_id);
    if has_node_id(&descendants, new_parent) {
        return Err(crate::errors::invalid(
            "move_parent",
            string_of("non_descendant"),
            string_of("descendant"),
            vec![string_of("sibling_node"), string_of("parent_node")],
        ));
    }
    Ok(())
}

/// Whether a node with identifier `id` is in the list.
pub fn has_node_id(v: &Vec<Node>, id: &NodeId) -> (r: bool)
    ensures
        r == crate::hierarchy::ids_of(crate::hierarchy::node_views(v@)).contains(id@),
{
    let ghost ids = crate::hierarchy::ids_of(crate::hierarchy::node_views(v@));
    let mut i: usize = 0;
    while i < v.len()
        invariant
            i <= v@.len(),
            ids == crate::hierarchy::ids_of(crate::hierarchy::node_views(v@)),
            forall|j: int| 0 <= j < i ==> ids[j] != id@,
        decreases v@.len() - i,
    {
        if v[i].id == *id {
            proof {
                assert(ids[i as int] == id@);
            }
            return true;
        }
        i = i + 1;
    }
    proof {
        if ids.contains(id@) {
            let j = choose|j: int| 0 <= j < ids.len() && ids[j] == id@;
            assert(ids[j] != id@);
        }
    }
    false
}

/// Stable insertion sort of nodes with depths by depth.
pub open spec fn depth_gt() -> spec_fn((crate::model::NodeView, u32), (crate::model::NodeView, u32)) -> bool {
    |a: (crate::model::NodeView, u32), b: (crate::model::NodeView, u32)| a.1 > b.1
}

/// The values of a list of nodes with depths.
pub open spec fn depth_views(v: Seq<(Node, u32)>) -> Seq<(crate::model::NodeView, u32)> {
    v.map_values(|e: (Node, u32)| (e.0@, e.1))
}

/// Sorting the nodes of a subtree by depth puts shallower nodes first and keeps every
/// node with its depth.
pub proof fn law_depth_sort_is_ordered(v: Seq<(crate::model::NodeView, u32)>)
    ensures
        crate::ordering::is_ordered(crate::ordering::stable_sorted(v, depth_gt()), depth_gt()),
        crate::ordering::stable_sorted(v, depth_gt()).to_multiset() == v.to_multiset(),
{
    crate::ordering::law_stable_sort_orders(v, depth_gt());
    crate::ordering::law_stable_sort_permutes(v, depth_gt());
}

/// Sorts nodes with depths by depth, keeping the order of nodes at the same depth.
pub fn sort_by_depth(v: Vec<(Node, u32)>) -> (r: Vec<(Node, u32)>)
    ensures
        depth_views(r@) == crate::ordering::stable_sorted(depth_views(v@), depth_gt()),
{
    let ghost vv = depth_views(v@);
    let mut out: Vec<(Node, u32)> = Vec::new();
    let mut i: usize = 0;
    while i < v.len()
        invariant
            i <= v@.len(),
            vv == depth_views(v@),
            depth_views(out@) == crate::ordering::stable_sorted(vv.take(i as int), depth_gt()),
        decreases v@.len() - i,
    {
        let ghost s = depth_views(out@);
        let d = v[i].1;
        let mut j: usize = out.len();
        while j > 0 && out[j - 1].1 > d
            invariant
                j <= out@.len(),
                s == depth_views(out@),
                i < v@.len(),
                d == vv[i as int].1,
                forall|k: int| j <= k < s.len() ==> depth_gt()(#[trigger] s[k], vv[i as int]),
            decreases j,
        {
            j = j - 1;
        }
        proof {
            crate::ordering::lemma_ins_at(s, vv[i as int], depth_gt(), j as int);
            assert(vv.take(i + 1).drop_last() =~= vv.take(i as int));
            assert(vv.take(i + 1).last() == vv[i as int]);
        }
        out.insert(j, (v[i].0.dup(), d));
        proof {
            assert(depth_views(out@) =~= s.insert(j as int, vv[i as int]));
        }
        i = i + 1;
    }
    proof {
        assert(vv.take(v@.len() as int) =~= vv);
    }
    out
}

impl<D: DataStore<N::Embedding>, N: NLPEngine> NodeSpaceService<D, N> {
    /// The stored node with identifier `id`; a missing node is the not-found error for
    /// `entity`.
    fn fetch_node(&self, id: &NodeId, entity: &str) -> (r: NodeSpaceResult<Node>)
        ensures
            r matches Ok(n) ==> n@.id == id@,
    {
        match self.data_store.get_node(id)? {
            Some(n) => stored_as(n, id, entity),
            None => Err(not_found(entity, id.as_str(), None)),
        }
    }

    /// The nodes of the tree a node belongs to: by its root when it names one, otherwise
    /// every stored node.
    fn tree_nodes_of(&self, node: &Node) -> NodeSpaceResult<Vec<Node>> {
        match &node.root_id {
            Some(root) => self.data_store.get_nodes_by_root(root),
            None => self.data_store.query_nodes(""),
        }
    }

    /// The children of a node, in sibling order, from the nodes of its tree.
    fn get_children_efficient(&self, parent_id: &NodeId) -> (r: NodeSpaceResult<Vec<Node>>)
        ensures
            r matches Ok(v) ==> exists|tree: Seq<crate::model::NodeView>|
                crate::hierarchy::node_views(v@) == crate::hierarchy::ordered_children(tree, parent_id@),
    {
        let parent = self.fetch_node(parent_id, "parent node")?;
        let tree = self.tree_nodes_of(&parent)?;
        let r = crate::hierarchy::ordered_children_of(&tree, parent_id);
        Ok(r)
    }

    /// The children of a node in sibling order: from the hierarchy cache when it is
    /// fresh, otherwise computed from the node's tree and cached. The parent must exist.
    pub fn get_children(&mut self, parent_id: &NodeId) -> (r: NodeSpaceResult<Vec<Node>>)
        requires
            old(self).wf(),
        ensures
            final(self).wf(),
            final(self).state_of() == old(self).state_of(),
            final(self).config_of() == old(self).config_of(),
            final(self).embedding_cache_of() == old(self).embedding_cache_of(),
            final(self).hierarchy_of().depths() == old(self).hierarchy_of().depths(),
            r is Err ==> final(self).hierarchy_of() == old(self).hierarchy_of(),
            final(self).hierarchy_of().child_lists() == old(self).hierarchy_of().child_lists() || (r matches Ok(v)
                && final(self).hierarchy_of().child_lists() == crate::hierarchy::assoc_set(
                old(self).hierarchy_of().child_lists(),
                parent_id@,
                crate::hierarchy::ids_of(crate::hierarchy::node_views(v@)),
            )),
            crate::lru::lookup(old(self).hierarchy_of().child_lists(), parent_id@) is None ==> (r matches Ok(v)
                ==> final(self).hierarchy_of().child_lists() == crate::hierarchy::assoc_set(
                old(self).hierarchy_of().child_lists(),
                parent_id@,
                crate::hierarchy::ids_of(crate::hierarchy::node_views(v@)),
            ) && exists|tree: Seq<crate::model::NodeView>|
                crate::hierarchy::node_views(v@) == crate::hierarchy::ordered_children(tree, parent_id@)),
    {
        let _parent = self.fetch_node(parent_id, "parent node")?;
        let cached: Option<Vec<NodeId>> = match self.hierarchy_cache.get_children(parent_id) {
            Some(ids) => Some(crate::embedding_cache::copy_ids(ids)),
            None => None,
        };
        if let Some(ids) = cached {
            let mut children: Vec<Node> = Vec::new();
            let mut i: usize = 0;
            while i < ids.len()
                invariant
                    i <= ids@.len(),
                decreases ids@.len() - i,
            {
                if let Ok(Some(child)) = self.data_store.get_node(&ids[i]) {
                    children.push(child);
                }
                i = i + 1;
            }
            return Ok(children);
        }
        let children = self.get_children_efficient(parent_id)?;
        let child_ids = ids_of_nodes(&children);
        self.hierarchy_cache.cache_children(parent_id.clone_id(), child_ids);
        Ok(children)
    }

    /// Number of parent links from a node up to its root (the stored parent of each
    /// node in turn, see `chain_to_root`), from the hierarchy cache when it is fresh. A
    /// chain longer than a thousand links is refused.
    pub fn get_node_depth(&mut self, node_id: &NodeId) -> (r: NodeSpaceResult<u32>)
        requires
            old(self).wf(),
        ensures
            final(self).wf(),
            final(self).state_of() == old(self).state_of(),
            final(self).config_of() == old(self).config_of(),
            final(self).embedding_cache_of() == old(self).embedding_cache_of(),
            r matches Ok(d) ==> (d <= MAX_HIERARCHY_DEPTH || crate::lru::lookup(
                old(self).hierarchy_of().depths(),
                node_id@,
            ) == Some(d)),
            final(self).hierarchy_of().child_lists() == old(self).hierarchy_of().child_lists(),
            r is Err ==> final(self).hierarchy_of() == old(self).hierarchy_of(),
            final(self).hierarchy_of().depths() == old(self).hierarchy_of().depths() || (r matches Ok(d)
                && final(self).hierarchy_of().depths() == crate::hierarchy::assoc_set(
                old(self).hierarchy_of().depths(),
                node_id@,
                d,
            )),
            crate::lru::lookup(old(self).hierarchy_of().depths(), node_id@) is None ==> (r matches Ok(d)
                ==> d <= MAX_HIERARCHY_DEPTH && final(self).hierarchy_of().depths() == crate::hierarchy::assoc_set(
                old(self).hierarchy_of().depths(),
                node_id@,
                d,
            ) && exists|chain: Seq<crate::model::NodeView>| #[trigger] chain_to_root(chain, node_id@) && chain.len()
                == d + 1),
    {
        if let Some(depth) = self.hierarchy_cache.get_depth(node_id) {
            return Ok(depth);
        }
        let mut depth: u32 = 0;
        let mut node = self.fetch_node(node_id, "node")?;
        let ghost mut chain: Seq<crate::model::NodeView> = seq![node@];
        while node.parent_id.is_some()
            invariant
                depth <= MAX_HIERARCHY_DEPTH,
                *self == *old(self),
                self.wf(),
                chain.len() == depth + 1,
                chain[0].id == node_id@,
                parent_linked(chain),
                chain.last() == node@,
            decreases MAX_HIERARCHY_DEPTH - depth,
        {
            let parent = crate::model::clone_opt_id(&node.parent_id).unwrap();
            depth = depth + 1;
            if depth > MAX_HIERARCHY_DEPTH {
                return Err(crate::errors::invalid(
                    "hierarchy_depth",
                    string_of("<1000"),
                    string_of("exceeds_limit"),
                    vec![string_of("100"), string_of("500")],
                ));
            }
            let next = self.fetch_node(&parent, "node")?;
            proof {
                let c2 = chain.push(next@);
                assert forall|i: int| 0 <= i < c2.len() - 1 implies (#[trigger] c2[i]).parent_id == Some(c2[i + 1].id) by {
                    if i < chain.len() - 1 {
                        assert(c2[i] == chain[i] && c2[i + 1] == chain[i + 1]);
                    } else {
                        assert(c2[i] == chain.last());
                    }
                }
                chain = c2;
            }
            node = next;
        }
        proof {
            assert(chain_to_root(chain, node_id@));
        }
        self.hierarchy_cache.cache_depth(node_id.clone_id(), depth);
        Ok(depth)
    }

    /// The ancestors of a node, nearest first. A chain longer than a thousand links is
    /// refused.
    pub fn get_ancestors(&self, node_id: &NodeId) -> (r: NodeSpaceResult<Vec<Node>>)
        ensures
            r matches Ok(v) ==> v@.len() <= 1000 && exists|start: crate::model::NodeView|
                #[trigger] chain_to_root(seq![start] + crate::hierarchy::node_views(v@), node_id@),
    {
        let (_start, ancestors) = self.ancestry_of(node_id)?;
        Ok(ancestors)
    }

    /// A stored node and its ancestors, nearest first: each is the stored parent of the
    /// one before, and the last has no parent. A chain longer than a thousand links is
    /// refused.
    fn ancestry_of(&self, node_id: &NodeId) -> (r: NodeSpaceResult<(Node, Vec<Node>)>)
        ensures
            r matches Ok(q) ==> q.1@.len() <= 1000 && chain_to_root(
                seq![q.0@] + crate::hierarchy::node_views(q.1@),
                node_id@,
            ),
    {
        let start = self.fetch_node(node_id, "node")?;
        let mut ancestors: Vec<Node> = Vec::new();
        let mut current = start.dup();
        while current.parent_id.is_some()
            invariant
                ancestors@.len() <= 1000,
                start@.id == node_id@,
                parent_linked(seq![start@] + crate::hierarchy::node_views(ancestors@)),
                current@ == (seq![start@] + crate::hierarchy::node_views(ancestors@)).last(),
            decreases 1000 - ancestors@.len(),
        {
            let ghost c = seq![start@] + crate::hierarchy::node_views(ancestors@);
            let parent_id = crate::model::clone_opt_id(&current.parent_id).unwrap();
            let parent = self.fetch_node(&parent_id, "parent node")?;
            ancestors.push(parent.dup());
            proof {
                let c2 = seq![start@] + crate::hierarchy::node_views(ancestors@);
                assert(c2 =~= c.push(parent@));
                assert forall|i: int| 0 <= i < c2.len() - 1 implies (#[trigger] c2[i]).parent_id == Some(c2[i + 1].id) by {
                    if i < c.len() - 1 {
                        assert(c2[i] == c[i] && c2[i + 1] == c[i + 1]);
                    } else {
                        assert(c2[i] == c.last());
                    }
                }
            }
            current = parent;
            if ancestors.len() > 1000 {
                return Err(crate::errors::invalid(
                    "ancestry_chain",
                    string_of("<1000"),
                    string_of("exceeds_limit"),
                    vec![string_of("100"), string_of("500")],
                ));
            }
        }
        Ok((start, ancestors))
    }

    /// Whether `potential_ancestor` is among the ancestors of `node_id`.
    pub fn is_ancestor_of(&self, potential_ancestor: &NodeId, node_id: &NodeId) -> (r: NodeSpaceResult<bool>)
        ensures
            r matches Ok(b) ==> exists|start: crate::model::NodeView, anc: Seq<crate::model::NodeView>|
                #[trigger] chain_to_root(seq![start] + anc, node_id@) && anc.len() <= 1000
                && b == crate::hierarchy::ids_of(anc).contains(potential_ancestor@),
    {
        let (start, ancestors) = self.ancestry_of(node_id)?;
        let b = has_node_id(&ancestors, potential_ancestor);
        proof {
            assert(chain_to_root(seq![start@] + crate::hierarchy::node_views(ancestors@), node_id@));
        }
        Ok(b)
    }

    /// The other children of a node's parent (none for a node without parent).
    pub fn get_siblings(&mut self, node_id: &NodeId) -> (r: NodeSpaceResult<Vec<Node>>)
        requires
            old(self).wf(),
        ensures
            final(self).wf(),
            final(self).state_of() == old(self).state_of(),
            final(self).config_of() == old(self).config_of(),
            final(self).embedding_cache_of() == old(self).embedding_cache_of(),
            r matches Ok(v) ==> forall|i: int| 0 <= i < v@.len() ==> (#[trigger] v@[i]).id@ != node_id@,
    {
        let node = self.fetch_node(node_id, "node")?;
        let parent_id = match node.parent_id {
            Some(p) => p,
            None => return Ok(Vec::new()),
        };
        let all_children = self.get_children(&parent_id)?;
        let r = without_id(all_children, node_id);
        proof {
            crate::lru::lemma_kept_sub(
                crate::hierarchy::node_views(all_children@),
                |n: crate::model::NodeView| n.id != node_id@,
            );
            assert forall|i: int| 0 <= i < r@.len() implies (#[trigger] r@[i]).id@ != node_id@ by {
                assert(crate::hierarchy::node_views(r@)[i] == r@[i]@);
            }
        }
        Ok(r)
    }

    /// Checks that a node may be moved under `new_parent`: both exist, they differ, and
    /// the new parent is not a descendant of the node.
    pub fn validate_hierarchy_move(&self, node_id: &NodeId, new_parent: &NodeId) -> (r: NodeSpaceResult<()>)
        ensures
            r is Ok ==> node_id@ != new_parent@,
            node_id@ == new_parent@ ==> r is Err,
    {
        let _node = self.fetch_node(node_id, "node")?;
        let _parent = self.fetch_node(new_parent, "new parent")?;
        if *node_id == *new_parent {
            return Err(crate::errors::invalid(
                "move_target",
                string_of("different_node"),
                string_of("self"),
                vec![string_of("other_node_id")],
            ));
        }
        let all_nodes = self.data_store.query_nodes("")?;
        check_move_target(all_nodes.as_slice(), node_id, new_parent)
    }

    /// Moves a node under `new_parent` after validating the move, stamping its update
    /// time, and empties the hierarchy cache.
    pub fn move_node(&mut self, node_id: &NodeId, new_parent: &NodeId) -> (r: NodeSpaceResult<()>)
        requires
            old(self).wf(),
        ensures
            final(self).wf(),
            final(self).state_of() == old(self).state_of(),
            final(self).config_of() == old(self).config_of(),
            final(self).embedding_cache_of() == old(self).embedding_cache_of(),
            r is Ok ==> final(self).hierarchy_of().depths().len() == 0 && final(self).hierarchy_of().child_lists().len()
                == 0 && !final(self).hierarchy_of().written(),
            r is Err ==> final(self).hierarchy_of() == old(self).hierarchy_of(),
            r is Ok ==> node_id@ != new_parent@,
    {
        self.validate_hierarchy_move(node_id, new_parent)?;
        let node = self.fetch_node(node_id, "node")?;
        let now = crate::model::now_rfc3339();
        self.data_store.update_node(moved_node(node, new_parent, now))?;
        self.invalidate_hierarchy_cache();
        Ok(())
    }

    /// Moves a node and its subtree under `new_parent`, refusing a target inside the
    /// subtree.
    pub fn move_subtree(&mut self, root_id: &NodeId, new_parent: &NodeId) -> (r: NodeSpaceResult<()>)
        requires
            old(self).wf(),
        ensures
            final(self).wf(),
            final(self).state_of() == old(self).state_of(),
            final(self).config_of() == old(self).config_of(),
            final(self).embedding_cache_of() == old(self).embedding_cache_of(),
            r is Ok ==> final(self).hierarchy_of().depths().len() == 0 && final(self).hierarchy_of().child_lists().len()
                == 0 && !final(self).hierarchy_of().written(),
            r is Err ==> final(self).hierarchy_of() == old(self).hierarchy_of(),
            r is Ok ==> root_id@ != new_parent@,
    {
        self.validate_hierarchy_move(root_id, new_parent)?;
        let root_node = self.fetch_node(root_id, "root node")?;
        let tree = self.tree_nodes_of(&root_node)?;
        let index = crate::hierarchy::build_parent_children_index(tree.as_slice());
        proof {
            crate::hierarchy::law_parent_index_lists_children(crate::hierarchy::node_views(tree@), Seq::empty());
        }
        let descendants = crate::hierarchy::get_all_descendants_optimized(&index, root_id);
        if has_node_id(&descendants, new_parent) {
            return Err(crate::errors::invalid(
                "subtree_move",
                string_of("no_cycle"),
                string_of("creates_cycle"),
                vec![string_of("valid_parent")],
            ));
        }
        self.move_node(root_id, new_parent)
    }

    /// The subtree of a node with the depth of each node, sorted by depth (stable).
    pub fn get_subtree_with_depths(&mut self, root_id: &NodeId) -> (r: NodeSpaceResult<Vec<(Node, u32)>>)
        requires
            old(self).wf(),
        ensures
            final(self).wf(),
            final(self).state_of() == old(self).state_of(),
            final(self).config_of() == old(self).config_of(),
            r matches Ok(v) ==> exists|u: Seq<(crate::model::NodeView, u32)>| depth_views(v@)
                == crate::ordering::stable_sorted(u, depth_gt()),
    {
        let root_node = self.fetch_node(root_id, "root node")?;
        let root_depth = self.get_node_depth(root_id)?;
        let tree = self.tree_nodes_of(&root_node)?;
        let mut result: Vec<(Node, u32)> = Vec::new();
        result.push((root_node, root_depth));
        let index = crate::hierarchy::build_parent_children_index(tree.as_slice());
        proof {
            crate::hierarchy::law_parent_index_lists_children(crate::hierarchy::node_views(tree@), Seq::empty());
        }
        let descendants = crate::hierarchy::get_all_descendants_optimized(&index, root_id);
        let mut i: usize = 0;
        while i < descendants.len()
            invariant
                i <= descendants@.len(),
                self.wf(),
                self.state_of() == old(self).state_of(),
                self.config_of() == old(self).config_of(),
            decreases descendants@.len() - i,
        {
            let depth = self.get_node_depth(&descendants[i].id)?;
            result.push((descendants[i].dup(), depth));
            i = i + 1;
        }
        Ok(sort_by_depth(result))
    }

    /// A node followed by all its descendants among the stored nodes.
    pub fn get_tree_nodes(&self, root_id: &NodeId) -> (r: NodeSpaceResult<Vec<Node>>)
        ensures
            r matches Ok(v) ==> v@.len() >= 1 && exists|all: Seq<crate::model::NodeView>|
                #![trigger crate::hierarchy::scan_universe(all)]
                crate::hierarchy::node_views(v@).skip(1) == crate::hierarchy::descendants(
                    |u: Seq<char>| crate::hierarchy::children_in(all, u),
                    crate::hierarchy::scan_universe(all),
                    root_id@,
                    Set::empty(),
                ),
    {
        let root_node = self.fetch_node(root_id, "root node")?;
        let all_nodes = self.data_store.query_nodes("")?;
        let descendants = crate::hierarchy::get_all_descendants(all_nodes.as_slice(), root_id);
        let mut result: Vec<Node> = Vec::new();
        result.push(root_node);
        let mut i: usize = 0;
        while i < descendants.len()
            invariant
                i <= descendants@.len(),
                result@.len() == i + 1,
                crate::hierarchy::node_views(result@).skip(1) == crate::hierarchy::node_views(descendants@).take(i as int),
            decreases descendants@.len() - i,
        {
            result.push(descendants[i].dup());
            i = i + 1;
            proof {
                assert(crate::hierarchy::node_views(result@).skip(1) =~= crate::hierarchy::node_views(descendants@).take(i as int));
            }
        }
        proof {
            assert(crate::hierarchy::node_views(descendants@).take(i as int) =~= crate::hierarchy::node_views(descendants@));
            let all = crate::hierarchy::node_views(all_nodes@);
            assert(crate::hierarchy::node_views(result@).skip(1) == crate::hierarchy::descendants(
                |u: Seq<char>| crate::hierarchy::children_in(all, u),
                crate::hierarchy::scan_universe(all),
                root_id@,
                Set::empty(),
            ));
        }
        Ok(result)
    }
}

} // verus!

verus! {

/// The date node of a day: identified by the day's `%Y-%m-%d` text, of type "date",
/// with null content, no metadata and no links.
pub open spec fn is_date_node_for(n: crate::model::NodeView, date: crate::model::CalendarDate) -> bool {
    &&& n.id == crate::model::date_key(date)
    &&& n.node_type == "date"@
    &&& n.content == crate::model::JsonModel::Null
    &&& n.metadata is None
    &&& n.parent_id is None
    &&& n.before_sibling is None
    &&& n.root_id is None
}

/// A fresh date node for a day (see `is_date_node_for`).
pub fn new_date_node(date: &crate::model::CalendarDate) -> (r: Node)
    ensures
        is_date_node_for(r@, *date),
        r@.created_at == r@.updated_at,
{
    proof {
        reveal_strlit("date");
    }
    let mut node = Node::new(string_of("date"), JsonValue::Null);
    node.id = NodeId::from_string(date.key());
    node.metadata = None;
    node.root_id = None;
    node
}

/// The identifier of a looked-up node when it is a date node.
pub fn date_node_match(found: Option<&Node>) -> (r: Option<NodeId>)
    ensures
        match found {
            Some(n) => if n@.node_type == "date"@ {
                (r matches Some(id) && id@ == n@.id)
            } else {
                r is None
            },
            None => r is None,
        },
{
    match found {
        Some(n) => {
            if crate::text::str_eq(n.node_type.as_str(), "date") {
                Some(n.id.clone_id())
            } else {
                None
            }
        },
        None => None,
    }
}

/// The lower-case name of a node kind, checked against the kinds the store accepts.
pub open spec fn node_type_for(s: Seq<char>) -> Option<crate::model::NodeType> {
    if s == "text"@ || s == "ai-chat"@ {
        Some(crate::model::NodeType::Text)
    } else if s == "task"@ {
        Some(crate::model::NodeType::Task)
    } else if s == "image"@ {
        Some(crate::model::NodeType::Image)
    } else if s == "date"@ {
        Some(crate::model::NodeType::Date)
    } else {
        None
    }
}

/// The node kind named by a type name ("ai-chat" nodes are stored as text); other
/// names are refused.
pub fn map_node_type(node_type: &str) -> (r: NodeSpaceResult<crate::model::NodeType>)
    ensures
        match node_type_for(node_type@) {
            Some(t) => r == Ok::<crate::model::NodeType, NodeSpaceError>(t),
            None => (r matches Err(e) && is_internal(e, "Unsupported node type: "@ + node_type@)),
        },
{
    if crate::text::str_eq(node_type, "text") || crate::text::str_eq(node_type, "ai-chat") {
        Ok(crate::model::NodeType::Text)
    } else if crate::text::str_eq(node_type, "task") {
        Ok(crate::model::NodeType::Task)
    } else if crate::text::str_eq(node_type, "image") {
        Ok(crate::model::NodeType::Image)
    } else if crate::text::str_eq(node_type, "date") {
        Ok(crate::model::NodeType::Date)
    } else {
        let mut m = String::new();
        push_str(&mut m, "Unsupported node type: ");
        push_str(&mut m, node_type);
        Err(internal(m))
    }
}

/// The structural operations the outliner sends.
pub open spec fn known_operation(op: Seq<char>) -> bool {
    op == "indent"@ || op == "outdent"@ || op == "move_up"@ || op == "move_down"@ || op == "reorder"@
}

/// Applies a structural operation to a node: "indent" with a target parent records the
/// parent in the metadata (a missing metadata document becomes an object) and clears
/// the sibling link; "outdent" removes that record and clears the sibling link; the
/// reordering operations change nothing here; other operations are refused. Metadata
/// that is neither null nor an object cannot take the record, and the indent is refused.
pub fn apply_structure_operation(node: &mut Node, operation: &str, target_parent_id: Option<&NodeId>) -> (r: NodeSpaceResult<()>)
    ensures
        !known_operation(operation@) ==> (r matches Err(e) && crate::errors::is_invalid(
            e,
            "operation"@,
            "indent|outdent|move_up|move_down|reorder"@,
            operation@,
        )),
        !known_operation(operation@) ==> *final(node) == *old(node),
        operation@ == "indent"@ && target_parent_id is Some ==> match old(node)@.metadata {
            Some(m) => if m is Null || m is Object {
                r is Ok && final(node)@.metadata == Some(crate::model::JsonModel::Object(
                    (if m is Object { m->Object_0 } else { Map::empty() }).insert(
                        "parent_id"@,
                        crate::model::JsonModel::Str(target_parent_id->0@),
                    ),
                )) && final(node)@.before_sibling is None
            } else {
                r is Err
            },
            None => r is Ok && final(node)@.metadata == Some(crate::model::JsonModel::Object(
                Map::empty().insert("parent_id"@, crate::model::JsonModel::Str(target_parent_id->0@)),
            )) && final(node)@.before_sibling is None,
        },
        operation@ == "indent"@ && target_parent_id is None ==> r is Ok && *final(node) == *old(node),
        operation@ == "outdent"@ ==> r is Ok && final(node)@.before_sibling is None && final(node)@.metadata
            == match old(node)@.metadata {
            Some(crate::model::JsonModel::Object(o)) => Some(crate::model::JsonModel::Object(o.remove("parent_id"@))),
            other => other,
        },
        (operation@ == "move_up"@ || operation@ == "move_down"@ || operation@ == "reorder"@) ==> r is Ok
            && *final(node) == *old(node),
        r is Ok ==> final(node)@.id == old(node)@.id && final(node)@.content == old(node)@.content
            && final(node)@.parent_id == old(node)@.parent_id,
{
    proof {
        reveal_strlit("indent");
        reveal_strlit("outdent");
        reveal_strlit("move_up");
        reveal_strlit("move_down");
        reveal_strlit("reorder");
        assert("indent"@.len() == 6);
        assert("outdent"@[0] == 'o' && "move_up"@[0] == 'm' && "reorder"@[0] == 'r' && "move_down"@[0] == 'm');
        assert("move_up"@.len() == 7 && "move_down"@.len() == 9 && "reorder"@.len() == 7 && "outdent"@.len() == 7);
        assert("indent"@ != "outdent"@ && "indent"@ != "move_up"@ && "indent"@ != "move_down"@ && "indent"@ != "reorder"@);
        assert("outdent"@ != "move_up"@ && "outdent"@ != "move_down"@ && "outdent"@ != "reorder"@);
    }
    if crate::text::str_eq(operation, "indent") {
        match target_parent_id {
            Some(parent_id) => {
                let mut metadata = match node.metadata.take() {
                    Some(m) => m,
                    None => JsonValue::empty_object(),
                };
                let ok = metadata.set_member(string_of("parent_id"), JsonValue::Str(string_of(parent_id.as_str())));
                if !ok {
                    node.metadata = Some(metadata);
                    return Err(crate::errors::invalid(
                        "metadata",
                        string_of("object"),
                        string_of("non-object metadata"),
                        Vec::new(),
                    ));
                }
                node.metadata = Some(metadata);
                node.before_sibling = None;
                Ok(())
            },
            None => Ok(()),
        }
    } else if crate::text::str_eq(operation, "outdent") {
        if let Some(m) = &mut node.metadata {
            m.remove_member("parent_id");
        }
        node.before_sibling = None;
        Ok(())
    } else if crate::text::str_eq(operation, "move_up") || crate::text::str_eq(operation, "move_down")
        || crate::text::str_eq(operation, "reorder") {
        Ok(())
    } else {
        Err(crate::errors::invalid(
            "operation",
            string_of("indent|outdent|move_up|move_down|reorder"),
            string_of(operation),
            vec![string_of("indent"), string_of("outdent")],
        ))
    }
}

} // verus!

verus! {

/// The `Debug` text of an identifier.
pub open spec fn id_debug(id: Seq<char>) -> Seq<char> {
    "NodeId("@ + spec_debug_text(id) + ")"@
}

/// The `Debug` text of an optional identifier.
pub open spec fn opt_id_debug(o: Option<Seq<char>>) -> Seq<char> {
    match o {
        Some(id) => "Some("@ + id_debug(id) + ")"@,
        None => "None"@,
    }
}

/// Builds the `Debug` text of an optional identifier.
fn opt_id_debug_text(o: &Option<NodeId>) -> (r: String)
    ensures
        r@ == opt_id_debug(crate::model::opt_id_view(*o)),
{
    match o {
        Some(id) => {
            let mut s = String::new();
            push_str(&mut s, "Some(");
            push_str(&mut s, "NodeId(");
            let d = debug_text(id.as_str());
            push_str(&mut s, d.as_str());
            push_str(&mut s, ")");
            push_str(&mut s, ")");
            proof {
                assert(s@ =~= "Some("@ + id_debug(id@) + ")"@);
            }
            s
        },
        None => string_of("None"),
    }
}

/// Checks the sibling a new node is to follow: it must exist and share the new node's
/// parent.
pub fn check_before_sibling(before_id: &NodeId, found: Option<&Node>, actual_parent: &Option<NodeId>) -> (r: NodeSpaceResult<()>)
    ensures
        match found {
            None => (r matches Err(e) && crate::errors::is_not_found(e, "before_sibling"@, before_id@)),
            Some(s) => if s@.parent_id == crate::model::opt_id_view(*actual_parent) {
                r is Ok
            } else {
                (r matches Err(e) && crate::errors::is_invalid(
                    e,
                    "before_sibling_id"@,
                    "sibling with parent_id "@ + opt_id_debug(crate::model::opt_id_view(*actual_parent)),
                    "node with parent_id "@ + opt_id_debug(s@.parent_id),
                ))
            },
        },
{
    match found {
        None => Err(not_found("before_sibling", before_id.as_str(), Some("verify_sibling_exists"))),
        Some(s) => {
            if crate::model::opt_id_eq(&s.parent_id, actual_parent) {
                Ok(())
            } else {
                let mut expected = String::new();
                push_str(&mut expected, "sibling with parent_id ");
                let a = opt_id_debug_text(actual_parent);
                push_str(&mut expected, a.as_str());
                let mut actual = String::new();
                push_str(&mut actual, "node with parent_id ");
                let b = opt_id_debug_text(&s.parent_id);
                push_str(&mut actual, b.as_str());
                Err(crate::errors::invalid(
                    "before_sibling_id",
                    expected,
                    actual,
                    vec![string_of("ensure before_sibling has same parent")],
                ))
            }
        },
    }
}

/// The node stored for a day: of the given kind and text content, with the given
/// metadata, placed under `parent` in the tree rooted at `root`, after `before_sibling`.
pub open spec fn is_placed_node(
    n: crate::model::NodeView,
    id: Seq<char>,
    node_type: crate::model::NodeType,
    content: Seq<char>,
    metadata: Option<crate::model::JsonModel>,
    parent: Option<Seq<char>>,
    root: Option<Seq<char>>,
    before_sibling: Option<Seq<char>>,
) -> bool {
    &&& n.id == id
    &&& n.node_type == crate::model::node_type_name(node_type)
    &&& n.content == crate::model::JsonModel::Str(content)
    &&& n.metadata == metadata
    &&& n.parent_id == parent
    &&& n.root_id == root
    &&& n.before_sibling == before_sibling
}

/// Builds a node of the given kind with text content, metadata and links.
pub fn placed_node(
    node_id: &NodeId,
    node_type: crate::model::NodeType,
    content: &str,
    metadata: Option<JsonValue>,
    parent: Option<NodeId>,
    root: Option<NodeId>,
    before_sibling: Option<NodeId>,
) -> (r: Node)
    ensures
        is_placed_node(
            r@,
            node_id@,
            node_type,
            content@,
            crate::model::opt_json_view(metadata),
            crate::model::opt_id_view(parent),
            crate::model::opt_id_view(root),
            crate::model::opt_id_view(before_sibling),
        ),
{
    let mut node = Node::new(node_type.as_type_str(), JsonValue::Str(string_of(content)));
    node.id = node_id.clone_id();
    node.metadata = metadata;
    node.parent_id = parent;
    node.root_id = root;
    node.before_sibling = before_sibling;
    node
}

/// The texts of the hits that have text content, and the identifiers of all hits.
pub fn context_and_sources<S>(results: &Vec<SearchResult<S>>) -> (r: (Vec<String>, Vec<NodeId>))
    ensures
        crate::text::views_of(r.0@) == search_texts(results@),
        crate::embedding_cache::id_views(r.1@) == results@.map_values(|h: SearchResult<S>| h.node_id@),
{
    let mut texts: Vec<String> = Vec::new();
    let mut ids: Vec<NodeId> = Vec::new();
    let mut i: usize = 0;
    while i < results.len()
        invariant
            i <= results@.len(),
            crate::text::views_of(texts@) == search_texts(results@.take(i as int)),
            crate::embedding_cache::id_views(ids@) == results@.take(i as int).map_values(|h: SearchResult<S>| h.node_id@),
        decreases results@.len() - i,
    {
        proof {
            assert(results@.take(i + 1).drop_last() =~= results@.take(i as int));
            assert(results@.take(i + 1).last() == results@[i as int]);
        }
        let ghost tb = texts@;
        let ghost ib = ids@;
        match results[i].node.content_str() {
            Some(t) => {
                texts.push(t.clone());
                proof {
                    assert(crate::text::views_of(texts@) =~= crate::text::views_of(tb).push(t@));
                }
            },
            None => {},
        }
        ids.push(results[i].node_id.clone_id());
        proof {
            assert(crate::embedding_cache::id_views(ids@) =~= crate::embedding_cache::id_views(ib).push(results@[i as int].node_id@));
            assert(results@.take(i + 1).map_values(|h: SearchResult<S>| h.node_id@) =~= results@.take(i as int).map_values(|h: SearchResult<S>| h.node_id@).push(results@[i as int].node_id@));
        }
        i = i + 1;
    }
    proof {
        assert(results@.take(results@.len() as int) =~= results@);
    }
    (texts, ids)
}

/// A search hit: a node with its identifier and score.
#[derive(Debug)]
pub struct SearchResult<S> {
    pub node_id: NodeId,
    pub node: Node,
    pub score: S,
}

/// The text contents of the hits that have one, in order.
pub open spec fn search_texts<S>(hits: Seq<SearchResult<S>>) -> Seq<Seq<char>>
    decreases hits.len(),
{
    if hits.len() == 0 {
        Seq::empty()
    } else {
        let prev = search_texts(hits.drop_last());
        match crate::model::content_text(hits.last().node@) {
            Some(t) => prev.push(t),
            None => prev,
        }
    }
}

/// The answer of a question: the generated text, or the configured fallback when
/// generation failed with an error text.
pub fn answer_or_fallback(outcome: Result<String, String>, mode: OfflineFallback, source_count: usize) -> (r: NodeSpaceResult<String>)
    ensures
        match outcome {
            Ok(t) => (r matches Ok(a) && a@ == t@),
            Err(e) => crate::query::is_fallback(r, mode, source_count as nat, e@),
        },
{
    match outcome {
        Ok(t) => Ok(t),
        Err(e) => crate::query::fallback_answer(mode, source_count, e.as_str()),
    }
}

/// References to the source nodes of an answer, as `node:<id>`.
pub fn source_refs(sources: &Vec<NodeId>) -> (r: Vec<String>)
    ensures
        crate::text::views_of(r@) == sources@.map_values(|s: NodeId| "node:"@ + s@),
{
    let mut r: Vec<String> = Vec::new();
    let mut i: usize = 0;
    while i < sources.len()
        invariant
            i <= sources@.len(),
            crate::text::views_of(r@) == sources@.take(i as int).map_values(|s: NodeId| "node:"@ + s@),
        decreases sources@.len() - i,
    {
        let mut s = String::new();
        push_str(&mut s, "node:");
        push_str(&mut s, sources[i].as_str());
        let ghost before = r@;
        let ghost sv = s@;
        r.push(s);
        proof {
            assert(crate::text::views_of(r@) =~= crate::text::views_of(before).push(sv));
            assert(sources@.take(i + 1).map_values(|s: NodeId| "node:"@ + s@) =~= sources@.take(i as int).map_values(|s: NodeId| "node:"@ + s@).push("node:"@ + sources@[i as int]@));
        }
        i = i + 1;
    }
    proof {
        assert(sources@.take(sources@.len() as int) =~= sources@);
    }
    r
}

} // verus!

verus! {

/// Answer to a question, with the sources it drew on, its confidence and follow-up
/// questions.
#[derive(Debug)]
pub struct QueryResponse {
    pub answer: String,
    pub sources: Vec<NodeId>,
    pub confidence: crate::query::ResponseConfidence,
    pub related_queries: Vec<String>,
}

/// A date node with the ordered forest of nodes below it.
#[derive(Debug)]
pub struct HierarchicalNodes {
    pub date_node: Node,
    pub children: Vec<crate::hierarchy::HierarchicalNode>,
    pub total_count: usize,
    pub has_content: bool,
}

impl<D: DataStore<N::Embedding>, N: NLPEngine> NodeSpaceService<D, N> {
    /// The language-model back end.
    pub fn nlp_engine(&self) -> (r: &N)
        ensures
            *r == self.engine_of(),
    {
        &self.nlp_engine
    }

    /// The store.
    pub fn data_store(&self) -> (r: &D)
        ensures
            *r == self.store_of(),
    {
        &self.data_store
    }

    /// The language-model back end the service holds.
    pub closed spec fn engine_of(&self) -> N {
        self.nlp_engine
    }

    /// The store the service holds.
    pub closed spec fn store_of(&self) -> D {
        self.data_store
    }

    /// Number of siblings used as embedding context.
    fn max_siblings(&self) -> (r: usize)
        ensures
            r == self.max_siblings_spec(),
    {
        match self.config.performance_config.max_siblings_context {
            Some(n) => n,
            None => DEFAULT_FAMILY_CONTEXT,
        }
    }

    /// Number of children used as embedding context.
    fn max_children(&self) -> (r: usize)
        ensures
            r == self.max_children_spec(),
    {
        match self.config.performance_config.max_children_context {
            Some(n) => n,
            None => DEFAULT_FAMILY_CONTEXT,
        }
    }

    /// The text of a node's contextual embedding (see `build_contextual_content`), from
    /// its parent, siblings and children as the store gives them.
    pub fn build_contextual_content_for(&mut self, node: &Node) -> (r: NodeSpaceResult<String>)
        requires
            old(self).wf(),
        ensures
            final(self).wf(),
            final(self).state_of() == old(self).state_of(),
            final(self).config_of() == old(self).config_of(),
            final(self).embedding_cache_of() == old(self).embedding_cache_of(),
            r is Ok,
            r matches Ok(s) ==> exists|p: Option<crate::model::NodeView>, sibs: Seq<crate::model::NodeView>, kids: Seq<crate::model::NodeView>|
                s@ == crate::text::joined(
                    crate::context::contextual_lines(node@, p, sibs, kids, old(self).max_siblings_spec() as nat, old(self).max_children_spec() as nat),
                    "\n"@,
                ),
            node@.parent_id is None ==> (r matches Ok(s) && exists|kids: Seq<crate::model::NodeView>|
                s@ == #[trigger] crate::text::joined(
                    crate::context::contextual_lines(node@, None, Seq::empty(), kids, old(self).max_siblings_spec() as nat, old(self).max_children_spec() as nat),
                    "\n"@,
                )),
    {
        let mut parent: Option<Node> = None;
        let mut siblings: Vec<Node> = Vec::new();
        if let Some(pid) = &node.parent_id {
            if let Ok(Some(p)) = self.data_store.get_node(pid) {
                parent = Some(p);
            }
            siblings = match self.get_children(pid) {
                Ok(v) => v,
                Err(_) => Vec::new(),
            };
        }
        let children = match self.get_children(&node.id) {
            Ok(v) => v,
            Err(_) => Vec::new(),
        };
        let s = build_contextual_content(node, parent.as_ref(), &siblings, &children, self.max_siblings(), self.max_children());
        proof {
            let p: Option<crate::model::NodeView> = match parent {
                Some(n) => Some(n@),
                None => None,
            };
            if node@.parent_id is None {
                assert(crate::hierarchy::node_views(siblings@) =~= Seq::<crate::model::NodeView>::empty());
            }
            assert(s@ == crate::text::joined(
                crate::context::contextual_lines(node@, p, crate::hierarchy::node_views(siblings@), crate::hierarchy::node_views(children@), old(self).max_siblings_spec() as nat, old(self).max_children_spec() as nat),
                "\n"@,
            ));
        }
        Ok(s)
    }

    /// Number of siblings used as embedding context.
    pub closed spec fn max_siblings_spec(&self) -> usize {
        match self.config.performance_config.max_siblings_context {
            Some(n) => n,
            None => DEFAULT_FAMILY_CONTEXT,
        }
    }

    /// Number of children used as embedding context.
    pub closed spec fn max_children_spec(&self) -> usize {
        match self.config.performance_config.max_children_context {
            Some(n) => n,
            None => DEFAULT_FAMILY_CONTEXT,
        }
    }

    /// The text of a node's hierarchical embedding (see `build_hierarchical_content`):
    /// the parent's ancestry from the root down, followed by the parent, then the node,
    /// its siblings and its children as the store gives them.
    pub fn build_hierarchical_content_for(&mut self, node: &Node) -> (r: NodeSpaceResult<String>)
        requires
            old(self).wf(),
        ensures
            final(self).wf(),
            final(self).state_of() == old(self).state_of(),
            final(self).config_of() == old(self).config_of(),
            final(self).embedding_cache_of() == old(self).embedding_cache_of(),
            r matches Ok(s) ==> exists|anc: Seq<crate::model::NodeView>, sibs: Seq<crate::model::NodeView>, kids: Seq<crate::model::NodeView>|
                #![trigger crate::context::hierarchical_lines(node@, anc, sibs, kids, old(self).max_siblings_spec() as nat, old(self).max_children_spec() as nat)]
                s@ == crate::text::joined(
                    crate::context::hierarchical_lines(node@, anc, sibs, kids, old(self).max_siblings_spec() as nat, old(self).max_children_spec() as nat),
                    "\n"@,
                ) && root_first(anc) && (anc.len() > 1 ==> anc[0].parent_id is None) && (anc.len() > 0
                    ==> node@.parent_id == Some(anc.last().id)),
            node@.parent_id is None ==> (r matches Ok(s) && exists|kids: Seq<crate::model::NodeView>|
                s@ == #[trigger] crate::text::joined(
                    crate::context::hierarchical_lines(node@, Seq::empty(), Seq::empty(), kids, old(self).max_siblings_spec() as nat, old(self).max_children_spec() as nat),
                    "\n"@,
                )),
    {
        let mut ancestors: Vec<Node> = Vec::new();
        let mut siblings: Vec<Node> = Vec::new();
        if let Some(pid) = &node.parent_id {
            ancestors = match self.ancestry_of(pid) {
                Ok((p, v)) => {
                    let mut line: Vec<Node> = Vec::new();
                    line.push(p);
                    let ghost lp = crate::hierarchy::node_views(line@);
                    let mut rest = v;
                    line.append(&mut rest);
                    proof {
                        assert(crate::hierarchy::node_views(line@) =~= lp + crate::hierarchy::node_views(v@));
                        assert(lp =~= seq![line@[0]@]);
                    }
                    reversed_nodes(&line)
                },
                Err(_) => match self.data_store.get_node(pid)? {
                    Some(p) => {
                        let mut only: Vec<Node> = Vec::new();
                        if p.id == *pid {
                            only.push(p);
                        }
                        only
                    },
                    None => Vec::new(),
                },
            };
            proof {
                let a = crate::hierarchy::node_views(ancestors@);
                assert(a.len() > 0 ==> a.last().id == pid@);
                assert(root_first(a));
                assert(a.len() > 1 ==> a[0].parent_id is None);
            }
            siblings = match self.get_children(pid) {
                Ok(v) => v,
                Err(_) => Vec::new(),
            };
        }
        let children = match self.get_children(&node.id) {
            Ok(v) => v,
            Err(_) => Vec::new(),
        };
        let s = build_hierarchical_content(node, &ancestors, &siblings, &children, self.max_siblings(), self.max_children());
        proof {
            if node@.parent_id is None {
                assert(crate::hierarchy::node_views(siblings@) =~= Seq::<crate::model::NodeView>::empty());
                assert(crate::hierarchy::node_views(ancestors@) =~= Seq::<crate::model::NodeView>::empty());
            }
            assert(s@ == crate::text::joined(
                crate::context::hierarchical_lines(node@, crate::hierarchy::node_views(ancestors@), crate::hierarchy::node_views(siblings@), crate::hierarchy::node_views(children@), old(self).max_siblings_spec() as nat, old(self).max_children_spec() as nat),
                "\n"@,
            ));
        }
        Ok(s)
    }

    /// Stores a node with the embedding of its hierarchical text.
    pub fn store_node_with_hierarchical_embedding(&mut self, node: Node) -> (r: NodeSpaceResult<NodeId>)
        requires
            old(self).wf(),
        ensures
            final(self).wf(),
            final(self).state_of() == old(self).state_of(),
            final(self).config_of() == old(self).config_of(),
            final(self).embedding_cache_of() == old(self).embedding_cache_of(),
    {
        let text = self.build_hierarchical_content_for(&node)?;
        let embedding = self.nlp_engine.generate_embedding(text.as_str())?;
        self.data_store.store_node_with_embedding(node, embedding)
    }

    /// The identifier of the date node of a day, when the store holds a node under the
    /// day's identifier and it is a date node.
    pub fn find_date_node(&self, date: &crate::model::CalendarDate) -> (r: NodeSpaceResult<Option<NodeId>>)
        ensures
            r matches Ok(Some(id)) ==> id@ == crate::model::date_key(*date),
    {
        let key = NodeId::from_string(date.key());
        let found = self.data_store.get_node(&key)?;
        match date_node_match(found.as_ref()) {
            Some(_) => Ok(Some(key)),
            None => Ok(None),
        }
    }

    /// The identifier of the date node of a day, creating and storing the node when
    /// there is none.
    pub fn ensure_date_node_exists(&mut self, date: &crate::model::CalendarDate) -> (r: NodeSpaceResult<NodeId>)
        requires
            old(self).wf(),
        ensures
            final(self).wf(),
            final(self).state_of() == old(self).state_of(),
            final(self).config_of() == old(self).config_of(),
            final(self).embedding_cache_of() == old(self).embedding_cache_of(),
            r matches Ok(id) ==> id@ == crate::model::date_key(*date),
    {
        if let Some(existing) = self.find_date_node(date)? {
            return Ok(existing);
        }
        let node = new_date_node(date);
        self.store_node_with_hierarchical_embedding(node)?;
        Ok(NodeId::from_string(date.key()))
    }

    /// Creates a text node with the given content and metadata as the root of its own
    /// tree; refused unless the service is ready.
    pub fn create_knowledge_node(&mut self, content: &str, metadata: JsonValue) -> (r: NodeSpaceResult<NodeId>)
        requires
            old(self).wf(),
        ensures
            final(self).wf(),
            final(self).state_of() == old(self).state_of(),
            !(old(self).state_of() is Ready) ==> (r matches Err(e) && not_ready_error(e, old(self).state_of())),
            r matches Ok(id) ==> id@.len() == 36,
    {
        self.ensure_ready()?;
        let node_id = NodeId::new();
        let node = placed_node(
            &node_id,
            crate::model::NodeType::Text,
            content,
            Some(metadata),
            None,
            Some(node_id.clone_id()),
            None,
        );
        self.store_node_with_hierarchical_embedding(node)?;
        Ok(node_id)
    }

    /// Creates a node of the given kind under the date node of a day (creating that node
    /// when missing); refused unless the service is ready.
    pub fn create_node_for_date(
        &mut self,
        date: &crate::model::CalendarDate,
        content: &str,
        node_type: crate::model::NodeType,
        metadata: Option<JsonValue>,
    ) -> (r: NodeSpaceResult<NodeId>)
        requires
            old(self).wf(),
        ensures
            final(self).wf(),
            final(self).state_of() == old(self).state_of(),
            !(old(self).state_of() is Ready) ==> (r matches Err(e) && not_ready_error(e, old(self).state_of())),
            r matches Ok(id) ==> id@.len() == 36,
            r is Ok ==> final(self).hierarchy_of().depths().len() == 0 && final(self).hierarchy_of().child_lists().len()
                == 0 && !final(self).hierarchy_of().written(),
    {
        self.ensure_ready()?;
        let date_node_id = self.ensure_date_node_exists(date)?;
        let node_id = NodeId::new();
        let node = placed_node(
            &node_id,
            node_type,
            content,
            metadata,
            Some(date_node_id.clone_id()),
            Some(date_node_id),
            None,
        );
        self.store_node_with_hierarchical_embedding(node)?;
        self.invalidate_hierarchy_cache();
        Ok(node_id)
    }

    /// The nodes most similar to a query, at most `limit` (and at most the configured
    /// batch size); refused unless the service is ready.
    pub fn semantic_search(&self, query: &str, limit: usize) -> (r: NodeSpaceResult<Vec<SearchResult<D::Score>>>)
        ensures
            !(self.state_of() is Ready) ==> (r matches Err(e) && not_ready_error(e, self.state_of())),
            r matches Ok(v) ==> forall|i: int| 0 <= i < v@.len() ==> (#[trigger] v@[i]).node_id@ == v@[i].node@.id,
            r matches Ok(v) ==> v@.len() <= effective_limit(limit, self.config_of().performance_config.max_batch_size),
    {
        self.ensure_ready()?;
        let cap: usize = match self.config.performance_config.max_batch_size {
            Some(max_batch) => if limit < max_batch { limit } else { max_batch },
            None => limit,
        };
        let embedding = self.nlp_engine.generate_embedding(query)?;
        let hits = self.data_store.semantic_search_with_embedding(embedding, cap)?;
        Ok(hits_to_results(hits, cap))
    }

    /// The text contents and identifiers of the nodes found for a query.
    fn gather_query_context(&self, query: &str) -> (r: NodeSpaceResult<(Vec<String>, Vec<NodeId>)>)
        ensures
            !(self.state_of() is Ready) ==> r is Err,
    {
        let results = self.semantic_search(query, DEFAULT_SEARCH_LIMIT)?;
        Ok(context_and_sources(&results))
    }

    /// Answers a prompt with the back end, falling back as configured when generation
    /// fails.
    fn generate_contextual_answer(&self, prompt: &str, sources: &Vec<NodeId>) -> (r: NodeSpaceResult<String>)
        ensures
            !(self.config_of().offline_config.offline_fallback is Error) ==> r is Ok,
            r matches Err(e) ==> e matches NodeSpaceError::Processing(
                crate::errors::ProcessingError::ModelError { service, model_name, .. },
            ) && service@ == "core-logic"@ && model_name@ == "text-generation"@,
    {
        let request = contextual_answer_request(prompt, sources);
        let outcome = self.nlp_engine.generate_text_enhanced(request);
        answer_or_fallback(outcome, self.config.offline_config.offline_fallback, sources.len())
    }

    /// Answers a question from the nodes found for it: the prompt carries their text
    /// contents (cut to the context window), the answer is generated (or the configured
    /// fallback), then rated and followed by related questions. Refused unless the
    /// service is ready; a context whose cut would split a character is refused.
    pub fn process_query(&self, query: &str) -> (r: NodeSpaceResult<QueryResponse>)
        ensures
            !(self.state_of() is Ready) ==> (r matches Err(e) && not_ready_error(e, self.state_of())),
            r matches Ok(resp) ==> resp.related_queries@.len() == 2 && resp.related_queries@[0]@
                == "What else about "@ + crate::query::last_word_or_topic(crate::text::spec_words(query@)) + "?"@
                && resp.related_queries@[1]@ == "How does "@ + crate::text::joined(
                crate::query::first_words(crate::text::spec_words(query@)),
                " "@,
            ) + " work?"@,
            r matches Ok(resp) ==> resp.confidence.fallback == (crate::text::contains_seq(resp.answer@, "currently unable"@)
                || crate::text::contains_seq(resp.answer@, "cannot generate"@)),
    {
        self.ensure_ready()?;
        let (context, sources) = self.gather_query_context(query)?;
        let window = match self.config.performance_config.context_window {
            Some(w) => w,
            None => crate::query::DEFAULT_CONTEXT_WINDOW,
        };
        if !crate::query::prompt_fits_boundary(query, &context, window) {
            return Err(internal(string_of("context truncation would split a character")));
        }
        let prompt = crate::query::build_contextual_prompt(query, &context, window);
        let answer = self.generate_contextual_answer(prompt.as_str(), &sources)?;
        let confidence = crate::query::calculate_response_confidence(&context, answer.as_str());
        let related_queries = crate::query::generate_related_queries(query);
        Ok(QueryResponse { answer, sources, confidence, related_queries })
    }

    /// Replaces the content of a node with a text, stamps its update time, and
    /// invalidates the embeddings that depend on it.
    pub fn update_node(&mut self, node_id: &NodeId, content: &str) -> (r: NodeSpaceResult<()>)
        requires
            old(self).wf(),
        ensures
            final(self).wf(),
            final(self).state_of() == old(self).state_of(),
            final(self).config_of() == old(self).config_of(),
            r is Ok ==> crate::embedding_cache::invalidation_effect(
                old(self).embedding_cache_of(),
                final(self).embedding_cache_of(),
                crate::embedding_cache::walk(old(self).embedding_cache_of().deps(), node_id@, Set::empty()),
            ),
            final(self).hierarchy_of() == old(self).hierarchy_of(),
            r is Err ==> final(self).embedding_cache_of() == old(self).embedding_cache_of(),
    {
        let mut node = self.fetch_node(node_id, "node")?;
        node.content = JsonValue::Str(string_of(content));
        node.updated_at = crate::model::now_rfc3339();
        self.data_store.update_node(node)?;
        self.invalidate_node_cache(node_id);
        Ok(())
    }

    /// The identifiers of the stored nodes whose metadata links to `node_id` (see
    /// `link_count`); a failing store counts as empty.
    pub fn get_related_nodes(&self, node_id: &NodeId, relationship_types: Vec<String>) -> (r: NodeSpaceResult<Vec<NodeId>>)
        ensures
            r matches Ok(v) && exists|all: Seq<crate::model::NodeView>| crate::embedding_cache::id_views(v@)
                == crate::links::linking_ids(all, crate::text::views_of(relationship_types@), node_id@),
    {
        let all_nodes = match self.data_store.query_nodes("") {
            Ok(v) => v,
            Err(_) => Vec::new(),
        };
        Ok(crate::links::related_node_ids(&all_nodes, node_id, &relationship_types))
    }

    /// For each requested identifier, the stored nodes linking to it (see
    /// `batch_related`); a failing store counts as empty.
    pub fn get_batch_related_nodes(&self, node_ids: &Vec<NodeId>, relationship_types: Vec<String>) -> (r: NodeSpaceResult<Vec<(NodeId, Vec<NodeId>)>>)
        ensures
            r matches Ok(v) && v@.len() == crate::links::first_occurrences(crate::embedding_cache::id_views(node_ids@)).len(),
            r matches Ok(v) ==> forall|i: int|
                0 <= i < v@.len() ==> (#[trigger] v@[i]).0@ == crate::links::first_occurrences(
                    crate::embedding_cache::id_views(node_ids@),
                )[i],
            r matches Ok(v) ==> batch_lists_from_some(v@, crate::text::views_of(relationship_types@)),
    {
        if node_ids.len() == 0 {
            proof {
                assert(crate::embedding_cache::id_views(node_ids@) =~= Seq::<Seq<char>>::empty());
            }
            let v: Vec<(NodeId, Vec<NodeId>)> = Vec::new();
            proof {
                assert(batch_lists_from(v@, Seq::empty(), crate::text::views_of(relationship_types@)));
                assert(batch_lists_from_some(v@, crate::text::views_of(relationship_types@)));
            }
            return Ok(v);
        }
        let all_nodes = match self.data_store.query_nodes("") {
            Ok(v) => v,
            Err(_) => Vec::new(),
        };
        let v = crate::links::batch_related(&all_nodes, node_ids, &relationship_types);
        proof {
            let all = crate::hierarchy::node_views(all_nodes@);
            assert(batch_lists_from(v@, all, crate::text::views_of(relationship_types@)));
            assert(batch_lists_from_some(v@, crate::text::views_of(relationship_types@)));
        }
        Ok(v)
    }

    /// Insights on the text contents of the given nodes, generated by the back end; fixed
    /// answers when no node is given or none has readable content.
    pub fn generate_insights(&self, node_ids: Vec<NodeId>) -> (r: NodeSpaceResult<String>)
        ensures
            node_ids@.len() == 0 ==> (r matches Ok(s) && s@ == crate::query::no_nodes_insight()),
    {
        if node_ids.len() == 0 {
            return Ok(string_of("No nodes provided for insight generation."));
        }
        let mut contents: Vec<String> = Vec::new();
        let mut i: usize = 0;
        while i < node_ids.len()
            invariant
                i <= node_ids@.len(),
            decreases node_ids@.len() - i,
        {
            if let Ok(Some(node)) = self.data_store.get_node(&node_ids[i]) {
                if let Some(t) = node.content_str() {
                    contents.push(t.clone());
                }
            }
            i = i + 1;
        }
        if contents.len() == 0 {
            return Ok(string_of("No readable content found in the specified nodes."));
        }
        let prompt = crate::query::insight_prompt(&contents);
        self.nlp_engine.generate_text(prompt.as_str())
    }

    /// Applies a structural operation (see `apply_structure_operation`) to a stored node.
    pub fn update_node_structure(
        &self,
        node_id: &NodeId,
        operation: &str,
        target_parent_id: Option<&NodeId>,
        previous_sibling_id: Option<&NodeId>,
    ) -> (r: NodeSpaceResult<()>)
        ensures
            r is Ok ==> known_operation(operation@),
            !known_operation(operation@) ==> r is Err,
    {
        let mut node = self.fetch_node(node_id, "node")?;
        apply_structure_operation(&mut node, operation, target_parent_id)?;
        self.data_store.update_node(node)
    }

    /// Sets (or clears) the parent of a stored node.
    pub fn set_node_parent(&self, node_id: &NodeId, parent_id: Option<&NodeId>) -> (r: NodeSpaceResult<()>) {
        let node = self.fetch_node(node_id, "node")?;
        self.data_store.update_node(with_parent(node, parent_id))
    }

    /// Moves the given children under `new_parent_id`, then deletes the node. The
    /// hierarchy cache is left as it is.
    pub fn delete_node_with_children_transfer(
        &self,
        node_id: &NodeId,
        children_to_reparent: Vec<NodeId>,
        new_parent_id: Option<&NodeId>,
    ) -> (r: NodeSpaceResult<()>) {
        let mut i: usize = 0;
        while i < children_to_reparent.len()
            invariant
                i <= children_to_reparent@.len(),
            decreases children_to_reparent@.len() - i,
        {
            self.set_node_parent(&children_to_reparent[i], new_parent_id)?;
            i = i + 1;
        }
        self.data_store.delete_node(node_id)
    }

    /// Places a node between two siblings: the node records `previous_sibling_id` as
    /// the sibling it follows, and the following sibling `before_sibling_id`, when given
    /// and stored, records the node as the sibling it follows (siblings are chained by
    /// their predecessor links, see `chain_order`).
    pub fn update_sibling_order(
        &self,
        node_id: &NodeId,
        previous_sibling_id: Option<&NodeId>,
        before_sibling_id: Option<&NodeId>,
    ) -> (r: NodeSpaceResult<()>) {
        let node = self.fetch_node(node_id, "node")?;
        self.data_store.update_node(with_before_sibling(node, previous_sibling_id))?;
        if let Some(next_id) = before_sibling_id {
            if let Some(next_node) = self.data_store.get_node(next_id)? {
                self.data_store.update_node(with_before_sibling(next_node, Some(node_id)))?;
            }
        }
        Ok(())
    }

    /// The direct children of a root, from the nodes of its tree, in sibling order.
    fn get_hierarchy_for_root_efficient(&self, root_id: &NodeId) -> (r: NodeSpaceResult<Vec<Node>>)
        ensures
            r matches Ok(v) ==> exists|tree: Seq<crate::model::NodeView>| #![trigger crate::hierarchy::last_wins(tree)] crate::hierarchy::node_views(v@)
                == crate::hierarchy::ordered_children(crate::hierarchy::last_wins(tree), root_id@),
    {
        let tree = self.data_store.get_nodes_by_root(root_id)?;
        Ok(crate::hierarchy::build_logical_hierarchy_for_root(tree, root_id))
    }

    /// The direct children of a day's date node in sibling order (none without a date
    /// node).
    pub fn get_nodes_for_date(&self, date: &crate::model::CalendarDate) -> (r: NodeSpaceResult<Vec<Node>>)
        ensures
            r matches Ok(v) ==> v@.len() == 0 || exists|tree: Seq<crate::model::NodeView>, root: Seq<char>|
                #![trigger crate::hierarchy::ordered_children(crate::hierarchy::last_wins(tree), root)]
                crate::hierarchy::node_views(v@) == crate::hierarchy::ordered_children(crate::hierarchy::last_wins(tree), root),
    {
        match self.find_date_node(date)? {
            Some(id) => self.get_hierarchy_for_root_efficient(&id),
            None => Ok(Vec::new()),
        }
    }

    /// The ordered forest below a node, built from the nodes of its tree.
    fn build_hierarchical_structure_efficient(&self, parent_id: &NodeId) -> (r: NodeSpaceResult<Vec<crate::hierarchy::HierarchicalNode>>)
        ensures
            r matches Ok(v) ==> exists|tree: Seq<crate::model::NodeView>| #![trigger crate::hierarchy::last_wins(tree)] crate::hierarchy::hviews(v@)
                == crate::hierarchy::subtree(
                |q: Seq<char>| crate::hierarchy::ordered_children(crate::hierarchy::last_wins(tree), q),
                parent_id@,
                0,
                Set::empty(),
            ),
    {
        let parent = self.fetch_node(parent_id, "parent node")?;
        let tree = self.tree_nodes_of(&parent)?;
        Ok(crate::hierarchy::build_hierarchical_tree_from_flat_list(tree, parent_id, 0))
    }

    /// The date node of a day with the ordered forest below it, its size, and whether it
    /// has any content; a placeholder date node with nothing below it when the day has
    /// no date node.
    pub fn get_hierarchical_nodes_for_date(&self, date: &crate::model::CalendarDate) -> (r: NodeSpaceResult<HierarchicalNodes>)
        ensures
            r matches Ok(h) ==> h.has_content == (h.children@.len() > 0) && h.total_count
                == crate::hierarchy::clamp_usize(crate::hierarchy::forest_count(crate::hierarchy::hviews(h.children@))),
            r matches Ok(h) ==> h.children@.len() == 0 || exists|tree: Seq<crate::model::NodeView>|
                #![trigger crate::hierarchy::last_wins(tree)]
                crate::hierarchy::hviews(h.children@) == crate::hierarchy::subtree(
                    |q: Seq<char>| crate::hierarchy::ordered_children(crate::hierarchy::last_wins(tree), q),
                    crate::model::date_key(*date),
                    0,
                    Set::empty(),
                ),
    {
        match self.find_date_node(date)? {
            Some(date_node_id) => {
                let date_node = match self.data_store.get_node(&date_node_id)? {
                    Some(n) => n,
                    None => return Err(not_found("date_node", date_node_id.as_str(), Some("create_date_node"))),
                };
                let children = self.build_hierarchical_structure_efficient(&date_node_id)?;
                let total_count = crate::hierarchy::count_hierarchical_nodes_saturating(children.as_slice());
                let has_content = children.len() > 0;
                Ok(HierarchicalNodes { date_node, children, total_count, has_content })
            },
            None => {
                let children: Vec<crate::hierarchy::HierarchicalNode> = Vec::new();
                proof {
                    assert(crate::hierarchy::hviews(children@) =~= Seq::<crate::hierarchy::HierarchicalNodeView>::empty());
                }
                Ok(HierarchicalNodes {
                    date_node: new_date_node(date),
                    children,
                    total_count: 0,
                    has_content: false,
                })
            },
        }
    }
}


/// Where a node created for a day goes, as `(parent, root)`: a day's own date node has
/// neither; any other node goes under the given parent, which must exist, or else
/// under the date node, in the tree rooted at the date node.
pub fn resolve_placement(
    node_id: &NodeId,
    date_node_id: &NodeId,
    parent_id: Option<NodeId>,
    parent_exists: bool,
) -> (r: NodeSpaceResult<(Option<NodeId>, Option<NodeId>)>)
    ensures
        node_id@ == date_node_id@ ==> (r matches Ok(q) && q.0 is None && q.1 is None),
        node_id@ != date_node_id@ ==> match parent_id {
            Some(p) => if parent_exists {
                r matches Ok(q) && crate::model::opt_id_view(q.0) == Some(p@)
                    && crate::model::opt_id_view(q.1) == Some(date_node_id@)
            } else {
                r matches Err(e) && crate::errors::is_not_found(e, "parent_node"@, p@)
            },
            None => (r matches Ok(q) && crate::model::opt_id_view(q.0) == Some(date_node_id@)
                && crate::model::opt_id_view(q.1) == Some(date_node_id@)),
        },
{
    if *node_id == *date_node_id {
        return Ok((None, None));
    }
    let parent = match parent_id {
        Some(p) => {
            if !parent_exists {
                return Err(not_found("parent_node", p.as_str(), Some("verify_parent_exists")));
            }
            p
        },
        None => date_node_id.clone_id(),
    };
    Ok((Some(parent), Some(date_node_id.clone_id())))
}

/// A stored node with new text content; the metadata and the parent are replaced only
/// where new ones are given.
pub fn refreshed_node(node: Node, content: &str, metadata: Option<JsonValue>, parent_id: &Option<NodeId>) -> (r: Node)
    ensures
        r@ == (crate::model::NodeView {
            content: crate::model::JsonModel::Str(content@),
            metadata: match metadata {
                Some(m) => Some(m@),
                None => node@.metadata,
            },
            parent_id: match parent_id {
                Some(p) => Some(p@),
                None => node@.parent_id,
            },
            ..node@
        }),
{
    let mut node = node;
    node.content = JsonValue::Str(string_of(content));
    if let Some(m) = metadata {
        node.metadata = Some(m);
    }
    if let Some(p) = parent_id {
        node.parent_id = Some(p.clone_id());
    }
    node
}

/// Where a node created for a day goes, as `(parent, root)` (see `resolve_placement`).
pub open spec fn placement(node: Seq<char>, date_node: Seq<char>, parent: Option<Seq<char>>) -> (Option<Seq<char>>, Option<Seq<char>>) {
    if node == date_node {
        (None, None)
    } else {
        match parent {
            Some(p) => (Some(p), Some(date_node)),
            None => (Some(date_node), Some(date_node)),
        }
    }
}

/// The node to store for a day under a caller-chosen identifier, given what the store
/// answered: whether the given parent exists, and what it holds under the given
/// preceding sibling. A missing parent is refused (`parent_node` not found); otherwise
/// the node goes where `placement` says, after the preceding sibling, which must be
/// stored under the same parent (`check_before_sibling`).
pub fn plan_dated_node(
    node_id: &NodeId,
    date_node_id: &NodeId,
    content: &str,
    node_type: crate::model::NodeType,
    metadata: Option<JsonValue>,
    parent_id: Option<NodeId>,
    parent_exists: bool,
    before_sibling_id: Option<NodeId>,
    before_found: Option<&Node>,
) -> (r: NodeSpaceResult<Node>)
    ensures
        node_id@ != date_node_id@ && parent_id is Some && !parent_exists ==> (r matches Err(e)
            && crate::errors::is_not_found(e, "parent_node"@, parent_id->0@)),
        !(node_id@ != date_node_id@ && parent_id is Some && !parent_exists) ==> ({
            let q = placement(node_id@, date_node_id@, crate::model::opt_id_view(parent_id));
            match before_sibling_id {
                None => r matches Ok(n) && is_placed_node(
                    n@,
                    node_id@,
                    node_type,
                    content@,
                    crate::model::opt_json_view(metadata),
                    q.0,
                    q.1,
                    None,
                ),
                Some(b) => match before_found {
                    None => r matches Err(e) && crate::errors::is_not_found(e, "before_sibling"@, b@),
                    Some(sib) => if sib@.parent_id == q.0 {
                        r matches Ok(n) && is_placed_node(
                            n@,
                            node_id@,
                            node_type,
                            content@,
                            crate::model::opt_json_view(metadata),
                            q.0,
                            q.1,
                            Some(b@),
                        )
                    } else {
                        r matches Err(e) && crate::errors::is_invalid(
                            e,
                            "before_sibling_id"@,
                            "sibling with parent_id "@ + opt_id_debug(q.0),
                            "node with parent_id "@ + opt_id_debug(sib@.parent_id),
                        )
                    },
                },
            }
        }),
{
    let (parent, root) = resolve_placement(node_id, date_node_id, parent_id, parent_exists)?;
    if let Some(b) = &before_sibling_id {
        check_before_sibling(b, before_found, &parent)?;
    }
    Ok(placed_node(node_id, node_type, content, metadata, parent, root, before_sibling_id))
}

impl<D: DataStore<N::Embedding>, N: NLPEngine> NodeSpaceService<D, N> {
    /// Creates a node under a caller-chosen identifier for a day: the day's date node is
    /// made when missing, and the node stored is the one `plan_dated_node` builds from
    /// the store's answers about the parent and the preceding sibling (with its errors
    /// when they are missing or misplaced). Refused unless the service is ready.
    pub fn create_node_for_date_with_id(
        &mut self,
        node_id: NodeId,
        date: &crate::model::CalendarDate,
        content: &str,
        node_type: crate::model::NodeType,
        metadata: Option<JsonValue>,
        parent_id: Option<NodeId>,
        before_sibling_id: Option<NodeId>,
    ) -> (r: NodeSpaceResult<()>)
        requires
            old(self).wf(),
        ensures
            final(self).wf(),
            final(self).state_of() == old(self).state_of(),
            !(old(self).state_of() is Ready) ==> (r matches Err(e) && not_ready_error(e, old(self).state_of())),
            r is Ok ==> final(self).hierarchy_of().depths().len() == 0 && final(self).hierarchy_of().child_lists().len()
                == 0 && !final(self).hierarchy_of().written(),
    {
        self.ensure_ready()?;
        let date_node_id = self.ensure_date_node_exists(date)?;
        let parent_exists = if node_id == date_node_id {
            true
        } else {
            match &parent_id {
                Some(p) => self.data_store.get_node(p)?.is_some(),
                None => true,
            }
        };
        let found = match &before_sibling_id {
            Some(b) => self.data_store.get_node(b)?,
            None => None,
        };
        let node = plan_dated_node(
            &node_id,
            &date_node_id,
            content,
            node_type,
            metadata,
            parent_id,
            parent_exists,
            before_sibling_id,
            found.as_ref(),
        )?;
        self.store_node_with_hierarchical_embedding(node)?;
        self.invalidate_hierarchy_cache();
        Ok(())
    }

    /// Creates or updates a node under a caller-chosen identifier. A stored node gets
    /// the new content and, where given, metadata and parent (`refreshed_node`), is
    /// placed after the given sibling (`update_sibling_order` with that sibling as the
    /// preceding one and no following one, so that a repeated call writes the same
    /// links), and gets a new embedding of the content; otherwise the node is created for the day. Refused
    /// unless the service is ready, and for a type name `node_type_for` does not know.
    pub fn upsert_node(
        &mut self,
        node_id: NodeId,
        date: &crate::model::CalendarDate,
        content: String,
        parent_id: Option<NodeId>,
        before_sibling_id: Option<NodeId>,
        node_type: &str,
        metadata: Option<JsonValue>,
    ) -> (r: NodeSpaceResult<()>)
        requires
            old(self).wf(),
        ensures
            final(self).wf(),
            final(self).state_of() == old(self).state_of(),
            !(old(self).state_of() is Ready) ==> (r matches Err(e) && is_internal(e, "Service not ready for node upsert"@)),
            old(self).state_of() is Ready && node_type_for(node_type@) is None ==> (r matches Err(e)
                && is_internal(e, "Unsupported node type: "@ + node_type@)),
    {
        if !self.is_ready() {
            return Err(internal(string_of("Service not ready for node upsert")));
        }
        let kind = map_node_type(node_type)?;
        match self.data_store.get_node(&node_id)? {
            Some(existing) => {
                let node = refreshed_node(existing, content.as_str(), metadata, &parent_id);
                self.data_store.update_node(node)?;
                if let Some(b) = &before_sibling_id {
                    self.update_sibling_order(&node_id, Some(b), None)?;
                }
                let embedding = self.nlp_engine.generate_embedding(content.as_str())?;
                self.data_store.update_node_embedding(&node_id, embedding)
            },
            None => self.create_node_for_date_with_id(
                node_id,
                date,
                content.as_str(),
                kind,
                metadata,
                parent_id,
                before_sibling_id,
            ),
        }
    }
}

impl<D: DataStore<N::Embedding>, N: NLPEngine> NodeSpaceService<D, N> where N::Embedding: Clone {
    /// Creates one text node per (content, metadata) pair, each the root of nothing and
    /// stored with the embedding the engine gives for its content in one batch; a batch
    /// with fewer embeddings than contents is refused at the first content without one.
    pub fn create_knowledge_nodes_batch(&self, content_metadata_pairs: Vec<(String, JsonValue)>) -> (r: NodeSpaceResult<Vec<NodeId>>)
        ensures
            content_metadata_pairs@.len() == 0 ==> (r matches Ok(v) && v@.len() == 0),
            r matches Ok(v) ==> v@.len() == content_metadata_pairs@.len(),
    {
        if content_metadata_pairs.len() == 0 {
            return Ok(Vec::new());
        }
        let mut texts: Vec<String> = Vec::new();
        let mut i: usize = 0;
        while i < content_metadata_pairs.len()
            invariant
                i <= content_metadata_pairs@.len(),
                texts@.len() == i,
                forall|k: int| 0 <= k < i ==> #[trigger] texts@[k]@ == content_metadata_pairs@[k].0@,
            decreases content_metadata_pairs@.len() - i,
        {
            texts.push(string_of(content_metadata_pairs[i].0.as_str()));
            i = i + 1;
        }
        let embeddings = self.nlp_engine.batch_embeddings(&texts)?;
        let mut ids: Vec<NodeId> = Vec::new();
        let mut j: usize = 0;
        while j < content_metadata_pairs.len()
            invariant
                j <= content_metadata_pairs@.len(),
                ids@.len() == j,
            decreases content_metadata_pairs@.len() - j,
        {
            let node_id = NodeId::new();
            let node = placed_node(
                &node_id,
                crate::model::NodeType::Text,
                content_metadata_pairs[j].0.as_str(),
                Some(content_metadata_pairs[j].1.dup()),
                None,
                None,
                None,
            );
            if j >= embeddings.len() {
                return Err(NodeSpaceError::Processing(crate::errors::ProcessingError::model_error(
                    "nlp_engine",
                    "batch_embedding",
                    string_of("embedding count mismatch"),
                )));
            }
            let stored = self.data_store.store_node_with_embedding(node, embeddings[j].clone())?;
            ids.push(stored);
            j = j + 1;
        }
        Ok(ids)
    }
}


/// The content hash of a node: that of its text content, or of the empty text.
pub open spec fn node_hash(n: crate::model::NodeView) -> Seq<char> {
    crate::embedding_cache::content_hash_of(
        match crate::model::content_text(n) {
            Some(t) => t,
            None => Seq::empty(),
        },
    )
}

/// The contextual cache key of a node among its parent, siblings and children: the
/// hashes of their contents, the node itself left out of its siblings.
pub open spec fn context_key(
    node: crate::model::NodeView,
    parent: Option<crate::model::NodeView>,
    siblings: Seq<crate::model::NodeView>,
    children: Seq<crate::model::NodeView>,
    strategy: crate::embedding_cache::ContextStrategy,
) -> crate::embedding_cache::ContextHashView {
    crate::embedding_cache::ContextHashView {
        content_hash: node_hash(node),
        parent_hash: match parent {
            Some(p) => Some(node_hash(p)),
            None => None,
        },
        sibling_hashes: crate::lru::kept(siblings, |s: crate::model::NodeView| s.id != node.id).map_values(
            |s: crate::model::NodeView| node_hash(s),
        ),
        children_hashes: children.map_values(|c: crate::model::NodeView| node_hash(c)),
        mention_hashes: Seq::empty(),
        strategy,
    }
}

/// The content hash of a node.
pub fn node_content_hash(n: &Node) -> (r: ContentHash)
    ensures
        r@ == node_hash(n@),
{
    match n.content_str() {
        Some(t) => {
            let h = ContentHash::from_content(t.as_str());
            assert(h@ == node_hash(n@));
            h
        },
        None => {
            let empty = "";
            proof {
                reveal_strlit("");
                assert(empty@ =~= Seq::<char>::empty());
                assert(crate::model::content_text(n@) is None);
            }
            let h = ContentHash::from_content(empty);
            assert(h@ == node_hash(n@));
            h
        },
    }
}

/// The content hashes of a list of nodes.
fn node_hashes(v: &Vec<Node>) -> (r: Vec<ContentHash>)
    ensures
        crate::embedding_cache::hash_views(r@) == crate::hierarchy::node_views(v@).map_values(
            |c: crate::model::NodeView| node_hash(c),
        ),
{
    let mut r: Vec<ContentHash> = Vec::new();
    let mut i: usize = 0;
    while i < v.len()
        invariant
            i <= v@.len(),
            r@.len() == i,
            forall|k: int| 0 <= k < i ==> #[trigger] r@[k]@ == node_hash(v@[k]@),
        decreases v@.len() - i,
    {
        r.push(node_content_hash(&v[i]));
        i = i + 1;
    }
    proof {
        assert(crate::embedding_cache::hash_views(r@) =~= crate::hierarchy::node_views(v@).map_values(
            |c: crate::model::NodeView| node_hash(c),
        ));
    }
    r
}

/// The contextual cache key of a node among its parent, siblings and children.
pub fn context_hash_for(
    node: &Node,
    parent: Option<&Node>,
    siblings: &Vec<Node>,
    children: &Vec<Node>,
    strategy: crate::embedding_cache::ContextStrategy,
) -> (r: crate::embedding_cache::ContextHash)
    ensures
        r@ == context_key(
            node@,
            match parent {
                Some(p) => Some(p@),
                None => None,
            },
            crate::hierarchy::node_views(siblings@),
            crate::hierarchy::node_views(children@),
            strategy,
        ),
{
    let parent_hash = match parent {
        Some(p) => Some(node_content_hash(p)),
        None => None,
    };
    let others = without_id(copy_nodes(siblings), &node.id);
    let mention_hashes: Vec<ContentHash> = Vec::new();
    let r = crate::embedding_cache::ContextHash {
        content_hash: node_content_hash(node),
        parent_hash,
        sibling_hashes: node_hashes(&others),
        children_hashes: node_hashes(children),
        mention_hashes,
        strategy,
    };
    proof {
        assert(crate::embedding_cache::hash_views(r.mention_hashes@) =~= Seq::<Seq<char>>::empty());
    }
    r
}

/// A list of nodes in reverse order (an ancestry read nearest first becomes one read
/// from the root down).
fn reversed_nodes(v: &Vec<Node>) -> (r: Vec<Node>)
    ensures
        crate::hierarchy::node_views(r@) == crate::hierarchy::node_views(v@).reverse(),
{
    let n = v.len();
    let mut r: Vec<Node> = Vec::new();
    let mut i: usize = n;
    while i > 0
        invariant
            i <= n,
            n == v@.len(),
            r@.len() == n - i,
            forall|k: int| 0 <= k < n - i ==> #[trigger] r@[k]@ == v@[n - 1 - k]@,
        decreases i,
    {
        r.push(v[i - 1].dup());
        i = i - 1;
    }
    proof {
        assert(crate::hierarchy::node_views(r@) =~= crate::hierarchy::node_views(v@).reverse());
    }
    r
}

/// A deep copy of a list of nodes.
fn copy_nodes(v: &Vec<Node>) -> (r: Vec<Node>)
    ensures
        crate::hierarchy::node_views(r@) == crate::hierarchy::node_views(v@),
{
    let mut r: Vec<Node> = Vec::new();
    let mut i: usize = 0;
    while i < v.len()
        invariant
            i <= v@.len(),
            r@.len() == i,
            forall|k: int| 0 <= k < i ==> #[trigger] r@[k]@ == v@[k]@,
        decreases v@.len() - i,
    {
        r.push(v[i].dup());
        i = i + 1;
    }
    proof {
        assert(crate::hierarchy::node_views(r@) =~= crate::hierarchy::node_views(v@));
    }
    r
}

/// The identifiers of a list of nodes.
fn ids_of_nodes(v: &Vec<Node>) -> (r: Vec<NodeId>)
    ensures
        crate::embedding_cache::id_views(r@) == crate::hierarchy::ids_of(crate::hierarchy::node_views(v@)),
{
    let mut r: Vec<NodeId> = Vec::new();
    let mut i: usize = 0;
    while i < v.len()
        invariant
            i <= v@.len(),
            r@.len() == i,
            forall|k: int| 0 <= k < i ==> #[trigger] r@[k]@ == v@[k]@.id,
        decreases v@.len() - i,
    {
        r.push(v[i].id.clone_id());
        i = i + 1;
    }
    proof {
        assert(crate::embedding_cache::id_views(r@) =~= crate::hierarchy::ids_of(crate::hierarchy::node_views(v@)));
    }
    r
}


/// Whether an entry of a cache tier holds `e` or a clone of it (or what `e` was
/// cloned from).
pub open spec fn holds_embedding<KV, E: Clone>(tier: Seq<(KV, crate::embedding_cache::CacheEntry<E>)>, e: E) -> bool {
    exists|i: int|
        0 <= i < tier.len() && (cloned(#[trigger] tier[i].1.embedding, e) || cloned(e, tier[i].1.embedding))
}

/// What a contextual-embedding request leaves in the cache, for the parent, siblings and
/// children the store gave (none of the first two for a node without parent), whose
/// context key is `k`: either `k` was cached already (a hit, counted as a contextual
/// hit, with the dependencies unchanged), or the embedding is now
/// cached under `k` and the node is recorded as a dependent of its parent, of each
/// sibling and of each child, so that a change of any of them invalidates it.
pub open spec fn contextual_outcome<E>(
    before: SmartEmbeddingCache<E>,
    after: SmartEmbeddingCache<E>,
    node: crate::model::NodeView,
    p: Option<crate::model::NodeView>,
    sibs: Seq<crate::model::NodeView>,
    kids: Seq<crate::model::NodeView>,
    strategy: crate::embedding_cache::ContextStrategy,
) -> bool {
    let k = context_key(node, p, sibs, kids, strategy);
    &&& node.parent_id is None ==> p is None && sibs.len() == 0
    &&& {
        ||| {
            &&& crate::lru::has_key(before.contextual(), k)
            &&& after.counters() == crate::embedding_cache::counted(before.counters(), 1, true)
            &&& after.deps() == before.deps()
        }
        ||| {
            &&& crate::lru::has_key(after.contextual(), k)
            &&& node.parent_id matches Some(pp) ==> crate::embedding_cache::dependents_of(after.deps(), pp).contains(node.id)
            &&& forall|i: int| 0 <= i < kids.len() ==> crate::embedding_cache::dependents_of(after.deps(), (#[trigger] kids[i]).id).contains(node.id)
            &&& forall|i: int| 0 <= i < sibs.len() && (#[trigger] sibs[i]).id != node.id
                ==> crate::embedding_cache::dependents_of(after.deps(), sibs[i].id).contains(node.id)
        }
    }
}

impl<D: DataStore<N::Embedding>, N: NLPEngine> NodeSpaceService<D, N> where N::Embedding: Clone {
    /// The contextual embedding of a node. The cache key is `context_hash_for` the node
    /// with its parent, siblings and children as the store gives them (a failing
    /// lookup counts as none); on a miss the embedding of `build_contextual_content_for`
    /// is generated, cached with a fingerprint of the node's relations, and the node is
    /// recorded as depending on its children, siblings and parent. The embedding
    /// returned is held in the contextual cache afterwards.
    pub fn get_cached_contextual_embedding(
        &mut self,
        node: &Node,
        context_strategy: crate::embedding_cache::ContextStrategy,
    ) -> (r: NodeSpaceResult<N::Embedding>)
        requires
            old(self).wf(),
        ensures
            final(self).wf(),
            final(self).state_of() == old(self).state_of(),
            final(self).config_of() == old(self).config_of(),
            r matches Ok(e) ==> holds_embedding(final(self).embedding_cache_of().contextual(), e),
            r is Ok ==> exists|p: Option<crate::model::NodeView>, sibs: Seq<crate::model::NodeView>, kids: Seq<crate::model::NodeView>|
                #[trigger] contextual_outcome(
                    old(self).embedding_cache_of(),
                    final(self).embedding_cache_of(),
                    node@,
                    p,
                    sibs,
                    kids,
                    context_strategy,
                ),
    {
        let parent: Option<Node> = match &node.parent_id {
            Some(pid) => match self.data_store.get_node(pid) {
                Ok(Some(p)) => Some(p),
                _ => None,
            },
            None => None,
        };
        let siblings: Vec<Node> = match &node.parent_id {
            Some(pid) => match self.get_children(pid) {
                Ok(v) => v,
                Err(_) => Vec::new(),
            },
            None => Vec::new(),
        };
        let children: Vec<Node> = match self.get_children(&node.id) {
            Ok(v) => v,
            Err(_) => Vec::new(),
        };
        let context_hash = context_hash_for(node, parent.as_ref(), &siblings, &children, context_strategy);
        let ghost pv: Option<crate::model::NodeView> = match parent {
            Some(n) => Some(n@),
            None => None,
        };
        let ghost sv = crate::hierarchy::node_views(siblings@);
        let ghost kv = crate::hierarchy::node_views(children@);
        proof {
            if node@.parent_id is None {
                assert(sv =~= Seq::<crate::model::NodeView>::empty());
            }
        }
        let ghost before = self.embedding_cache.contextual();
        if let Some(cached) = self.embedding_cache.get_contextual_embedding(&context_hash) {
            proof {
                let after = self.embedding_cache.contextual();
                let i = crate::lru::find_key(before, context_hash@);
                assert(after[after.len() - 1].1.embedding == before[i].1.embedding);
                assert(holds_embedding(after, cached));
                assert(contextual_outcome(
                    old(self).embedding_cache_of(),
                    self.embedding_cache_of(),
                    node@,
                    pv,
                    sv,
                    kv,
                    context_strategy,
                ));
            }
            return Ok(cached);
        }
        let text = self.build_contextual_content_for(node)?;
        let embedding = self.nlp_engine.generate_embedding(text.as_str())?;
        let sibling_ids: Vec<NodeId> = ids_of_nodes(&without_id(copy_nodes(&siblings), &node.id));
        let children_ids: Vec<NodeId> = ids_of_nodes(&children);
        let fingerprint = crate::embedding_cache::RelationshipFingerprint {
            parent_id: crate::model::clone_opt_id(&node.parent_id),
            sibling_ids,
            children_ids,
            mention_ids: Vec::new(),
            last_modified: crate::embedding_cache::utc_now(),
        };
        let copy = embedding.clone();
        self.embedding_cache.cache_contextual_embedding(context_hash, copy, fingerprint);
        let ghost held = self.embedding_cache.contextual();
        proof {
            assert(cloned(embedding, held[held.len() - 1].1.embedding));
            assert(holds_embedding(held, embedding));
        }
        let mut i: usize = 0;
        while i < children.len()
            invariant
                i <= children@.len(),
                self.wf(),
                self.state_of() == old(self).state_of(),
                self.config_of() == old(self).config_of(),
                self.embedding_cache.contextual() == held,
                forall|k: int| 0 <= k < i ==> crate::embedding_cache::dependents_of(self.embedding_cache.deps(), (#[trigger] children@[k])@.id).contains(node@.id),
            decreases children@.len() - i,
        {
            let ghost g = self.embedding_cache.deps();
            proof {
                self.embedding_cache.lemma_deps_keys_unique();
            }
            self.embedding_cache.add_dependency(node.id.clone_id(), children[i].id.clone_id());
            proof {
                assert forall|k: int| 0 <= k < i + 1 implies crate::embedding_cache::dependents_of(self.embedding_cache.deps(), (#[trigger] children@[k])@.id).contains(node@.id) by {
                    crate::embedding_cache::lemma_deps_with_records(g, children@[i as int]@.id, node@.id, children@[k]@.id, node@.id);
                }
            }
            i = i + 1;
        }
        let ghost after_children = self.embedding_cache.deps();
        let mut j: usize = 0;
        while j < siblings.len()
            invariant
                j <= siblings@.len(),
                self.wf(),
                self.state_of() == old(self).state_of(),
                self.config_of() == old(self).config_of(),
                self.embedding_cache.contextual() == held,
                forall|k: int| 0 <= k < children@.len() ==> crate::embedding_cache::dependents_of(self.embedding_cache.deps(), (#[trigger] children@[k])@.id).contains(node@.id),
                forall|k: int| 0 <= k < j && (#[trigger] siblings@[k])@.id != node@.id ==> crate::embedding_cache::dependents_of(self.embedding_cache.deps(), siblings@[k]@.id).contains(node@.id),
            decreases siblings@.len() - j,
        {
            if siblings[j].id != node.id {
                let ghost g = self.embedding_cache.deps();
                proof {
                    self.embedding_cache.lemma_deps_keys_unique();
                }
                self.embedding_cache.add_dependency(node.id.clone_id(), siblings[j].id.clone_id());
                proof {
                    assert forall|k: int| 0 <= k < children@.len() implies crate::embedding_cache::dependents_of(self.embedding_cache.deps(), (#[trigger] children@[k])@.id).contains(node@.id) by {
                        crate::embedding_cache::lemma_deps_with_records(g, siblings@[j as int]@.id, node@.id, children@[k]@.id, node@.id);
                    }
                    assert forall|k: int| 0 <= k < j + 1 && (#[trigger] siblings@[k])@.id != node@.id implies crate::embedding_cache::dependents_of(self.embedding_cache.deps(), siblings@[k]@.id).contains(node@.id) by {
                        crate::embedding_cache::lemma_deps_with_records(g, siblings@[j as int]@.id, node@.id, siblings@[k]@.id, node@.id);
                    }
                }
            }
            j = j + 1;
        }
        if let Some(p) = &node.parent_id {
            let ghost g = self.embedding_cache.deps();
            proof {
                self.embedding_cache.lemma_deps_keys_unique();
            }
            self.embedding_cache.add_dependency(node.id.clone_id(), p.clone_id());
            proof {
                crate::embedding_cache::lemma_deps_with_records(g, p@, node@.id, p@, node@.id);
                assert forall|k: int| 0 <= k < children@.len() implies crate::embedding_cache::dependents_of(self.embedding_cache.deps(), (#[trigger] children@[k])@.id).contains(node@.id) by {
                    crate::embedding_cache::lemma_deps_with_records(g, p@, node@.id, children@[k]@.id, node@.id);
                }
                assert forall|k: int| 0 <= k < siblings@.len() && (#[trigger] siblings@[k])@.id != node@.id implies crate::embedding_cache::dependents_of(self.embedding_cache.deps(), siblings@[k]@.id).contains(node@.id) by {
                    crate::embedding_cache::lemma_deps_with_records(g, p@, node@.id, siblings@[k]@.id, node@.id);
                }
            }
        }
        proof {
            assert(held[held.len() - 1].0 == context_hash@);
            assert(crate::lru::has_key(self.embedding_cache.contextual(), context_hash@));
            assert forall|i: int| 0 <= i < kv.len() implies crate::embedding_cache::dependents_of(self.embedding_cache.deps(), (#[trigger] kv[i]).id).contains(node@.id) by {
                assert(kv[i] == children@[i]@);
            }
            assert forall|i: int| 0 <= i < sv.len() && (#[trigger] sv[i]).id != node@.id implies crate::embedding_cache::dependents_of(self.embedding_cache.deps(), sv[i].id).contains(node@.id) by {
                assert(sv[i] == siblings@[i]@);
            }
            assert(contextual_outcome(
                old(self).embedding_cache_of(),
                self.embedding_cache_of(),
                node@,
                pv,
                sv,
                kv,
                context_strategy,
            ));
        }
        Ok(embedding)
    }
}


/// The first `n` nodes of a list.
pub fn first_nodes(v: &Vec<Node>, n: usize) -> (r: Vec<Node>)
    ensures
        crate::hierarchy::node_views(r@) == crate::context::take_upto(crate::hierarchy::node_views(v@), n as nat),
{
    let mut out: Vec<Node> = Vec::new();
    let mut i: usize = 0;
    while i < v.len() && i < n
        invariant
            i <= v@.len(),
            i <= n,
            out@.len() == i,
            forall|k: int| 0 <= k < i ==> #[trigger] out@[k]@ == v@[k]@,
        decreases v@.len() - i,
    {
        out.push(v[i].dup());
        i = i + 1;
    }
    proof {
        let nv = crate::hierarchy::node_views(v@);
        if (n as nat) < nv.len() {
            assert(crate::hierarchy::node_views(out@) =~= nv.take(n as int));
        } else {
            assert(crate::hierarchy::node_views(out@) =~= nv);
        }
    }
    out
}

impl<D: DataStore<N::Embedding>, N: NLPEngine> NodeSpaceService<D, N> {
    /// The nodes the store finds for an entity text, at most
    /// `DEFAULT_MAX_RESULTS_PER_STRATEGY` of them, in the store's order.
    pub fn search_by_entity(&self, entity: &str) -> (r: NodeSpaceResult<Vec<Node>>)
        ensures
            r matches Ok(v) ==> exists|found: Seq<crate::model::NodeView>|
                crate::hierarchy::node_views(v@) == #[trigger] crate::context::take_upto(
                    found,
                    DEFAULT_MAX_RESULTS_PER_STRATEGY as nat,
                ),
    {
        let all = self.data_store.query_nodes(entity)?;
        Ok(first_nodes(&all, DEFAULT_MAX_RESULTS_PER_STRATEGY))
    }

    /// The nodes matching a temporal reference: an occasion is searched as an entity; a
    /// dated reference gives the first stored nodes created that day (see
    /// `nodes_created_on`); an undated or vague one finds nothing.
    pub fn search_by_temporal_ref(&self, temporal_ref: &crate::temporal::TemporalReference) -> (r: NodeSpaceResult<Vec<Node>>)
        ensures
            temporal_ref.temporal_type is Fuzzy ==> (r matches Ok(v) && v@.len() == 0),
            !(temporal_ref.temporal_type is Event) && temporal_ref.parsed_date is None ==> (r matches Ok(v)
                && v@.len() == 0),
            r matches Ok(v) ==> v@.len() <= DEFAULT_MAX_RESULTS_PER_STRATEGY,
            temporal_ref.temporal_type is Exact || temporal_ref.temporal_type is Relative ==> (
            temporal_ref.parsed_date matches Some(d) ==> (r matches Ok(v) ==> exists|all: Seq<crate::model::NodeView>|
                crate::hierarchy::node_views(v@) == #[trigger] crate::context::take_upto(
                    crate::temporal::nodes_on_day(all, d),
                    DEFAULT_MAX_RESULTS_PER_STRATEGY as nat,
                ))),
    {
        match temporal_ref.temporal_type {
            crate::temporal::TemporalType::Event => {
                let r = self.search_by_entity(temporal_ref.raw_text.as_str());
                proof {
                    if r is Ok {
                        let v = r->Ok_0;
                        let found = choose|found: Seq<crate::model::NodeView>|
                            crate::hierarchy::node_views(v@) == #[trigger] crate::context::take_upto(
                                found,
                                DEFAULT_MAX_RESULTS_PER_STRATEGY as nat,
                            );
                        assert(crate::hierarchy::node_views(v@).len() == v@.len());
                    }
                }
                r
            },
            crate::temporal::TemporalType::Exact | crate::temporal::TemporalType::Relative => {
                match temporal_ref.parsed_date {
                    Some(day) => {
                        let all = self.data_store.query_nodes("")?;
                        let v = crate::temporal::nodes_created_on(&all, &day, DEFAULT_MAX_RESULTS_PER_STRATEGY);
                        proof {
                            assert(crate::hierarchy::node_views(v@).len() == v@.len());
                        }
                        Ok(v)
                    },
                    None => Ok(Vec::new()),
                }
            },
            crate::temporal::TemporalType::Fuzzy => Ok(Vec::new()),
        }
    }

    /// The nodes found for each colour, then for each object of a query's visual
    /// attributes; a failing search contributes nothing.
    pub fn search_by_visual_attributes(&self, visual_refs: &crate::query::VisualAttributes) -> (r: NodeSpaceResult<Vec<Node>>)
        ensures
            r is Ok,
            r matches Ok(v) ==> v@.len() <= (visual_refs.colors@.len() + visual_refs.objects@.len())
                * DEFAULT_MAX_RESULTS_PER_STRATEGY,
    {
        let mut results: Vec<Node> = Vec::new();
        let mut i: usize = 0;
        while i < visual_refs.colors.len()
            invariant
                i <= visual_refs.colors@.len(),
                results@.len() <= i * DEFAULT_MAX_RESULTS_PER_STRATEGY,
            decreases visual_refs.colors@.len() - i,
        {
            if let Ok(mut found) = self.search_by_entity(visual_refs.colors[i].as_str()) {
                proof {
                    assert(crate::hierarchy::node_views(found@).len() == found@.len());
                }
                results.append(&mut found);
            }
            i = i + 1;
        }
        let mut j: usize = 0;
        while j < visual_refs.objects.len()
            invariant
                j <= visual_refs.objects@.len(),
                results@.len() <= (visual_refs.colors@.len() + j) * DEFAULT_MAX_RESULTS_PER_STRATEGY,
            decreases visual_refs.objects@.len() - j,
        {
            if let Ok(mut found) = self.search_by_entity(visual_refs.objects[j].as_str()) {
                proof {
                    assert(crate::hierarchy::node_views(found@).len() == found@.len());
                }
                results.append(&mut found);
            }
            j = j + 1;
        }
        Ok(results)
    }
}


/// Orders positions by the identifier text at them: `a` comes after `b`.
pub open spec fn id_after(ids: Seq<Seq<char>>) -> spec_fn(int, int) -> bool {
    |a: int, b: int| crate::ordering::text_lt(ids[b], ids[a])
}

/// The positions of `s` whose identifier differs from that of the position just before
/// it (the first of each run of equal identifiers).
pub open spec fn first_of_runs(s: Seq<int>, ids: Seq<Seq<char>>) -> Seq<int>
    decreases s.len(),
{
    if s.len() == 0 {
        s
    } else {
        let t = first_of_runs(s.drop_last(), ids);
        if s.len() >= 2 && ids[s[s.len() - 2]] == ids[s.last()] {
            t
        } else {
            t.push(s.last())
        }
    }
}

/// The identifiers of a list of search hits.
pub open spec fn hit_ids<S>(hits: Seq<SearchResult<S>>) -> Seq<Seq<char>> {
    hits.map_values(|h: SearchResult<S>| h.node_id@)
}

/// Positions as integers.
pub open spec fn positions(v: Seq<usize>) -> Seq<int> {
    v.map_values(|p: usize| p as int)
}

/// The hits that survive merging, by position: the hits stably sorted by identifier
/// text, and of the hits sharing an identifier only the first.
pub open spec fn merged_positions<S>(hits: Seq<SearchResult<S>>) -> Seq<int> {
    first_of_runs(
        crate::ordering::stable_sorted(Seq::new(hits.len(), |i: int| i), id_after(hit_ids(hits))),
        hit_ids(hits),
    )
}

/// Positions of the search hits that survive merging (see `merged_positions`).
pub fn merge_positions<S>(results: &Vec<SearchResult<S>>) -> (r: Vec<usize>)
    ensures
        positions(r@) == merged_positions(results@),
{
    let ghost ids = hit_ids(results@);
    let ghost all = Seq::new(results@.len(), |i: int| i);
    let ghost gt = id_after(ids);
    let mut sorted: Vec<usize> = Vec::new();
    let mut i: usize = 0;
    while i < results.len()
        invariant
            i <= results@.len(),
            ids == hit_ids(results@),
            all == Seq::new(results@.len(), |i: int| i),
            gt == id_after(ids),
            positions(sorted@) == crate::ordering::stable_sorted(all.take(i as int), gt),
            forall|k: int| 0 <= k < sorted@.len() ==> #[trigger] sorted@[k] < i,
        decreases results@.len() - i,
    {
        let ghost sv = positions(sorted@);
        let mut j: usize = sorted.len();
        while j > 0 && crate::ordering::text_less(results[i].node_id.as_str(), results[sorted[j - 1]].node_id.as_str())
            invariant
                j <= sorted@.len(),
                i < results@.len(),
                sv == positions(sorted@),
                ids == hit_ids(results@),
                gt == id_after(ids),
                forall|k: int| 0 <= k < sorted@.len() ==> #[trigger] sorted@[k] < i,
                forall|k: int| j <= k < sv.len() ==> gt(#[trigger] sv[k], i as int),
            decreases j,
        {
            proof {
                assert(ids[sorted@[j - 1] as int] == results@[sorted@[j - 1] as int].node_id@);
                assert(ids[i as int] == results@[i as int].node_id@);
                assert(sv[j - 1] == sorted@[j - 1] as int);
            }
            j = j - 1;
        }
        proof {
            if j > 0 {
                assert(ids[sorted@[j - 1] as int] == results@[sorted@[j - 1] as int].node_id@);
                assert(ids[i as int] == results@[i as int].node_id@);
                assert(sv[j - 1] == sorted@[j - 1] as int);
            }
            crate::ordering::lemma_ins_at(sv, i as int, gt, j as int);
            assert(all.take(i + 1).drop_last() =~= all.take(i as int));
            assert(all.take(i + 1).last() == i as int);
        }
        sorted.insert(j, i);
        proof {
            assert(positions(sorted@) =~= sv.insert(j as int, i as int));
        }
        i = i + 1;
    }
    proof {
        assert(all.take(results@.len() as int) =~= all);
    }
    let ghost sv = positions(sorted@);
    let mut out: Vec<usize> = Vec::new();
    let mut k: usize = 0;
    while k < sorted.len()
        invariant
            k <= sorted@.len(),
            sv == positions(sorted@),
            ids == hit_ids(results@),
            forall|m: int| 0 <= m < sorted@.len() ==> #[trigger] sorted@[m] < results@.len(),
            positions(out@) == first_of_runs(sv.take(k as int), ids),
        decreases sorted@.len() - k,
    {
        let ghost before = positions(out@);
        let ghost t = sv.take(k + 1);
        proof {
            assert(t.drop_last() =~= sv.take(k as int));
            assert(t.last() == sv[k as int]);
        }
        let keep = if k == 0 {
            true
        } else {
            !crate::text::str_eq(results[sorted[k - 1]].node_id.as_str(), results[sorted[k]].node_id.as_str())
        };
        proof {
            if k > 0 {
                assert(t[t.len() - 2] == sv[k - 1]);
                assert(ids[sorted@[k - 1] as int] == results@[sorted@[k - 1] as int].node_id@);
                assert(ids[sorted@[k as int] as int] == results@[sorted@[k as int] as int].node_id@);
            }
        }
        if keep {
            out.push(sorted[k]);
            proof {
                assert(positions(out@) =~= before.push(sv[k as int]));
            }
        }
        k = k + 1;
    }
    proof {
        assert(sv.take(sorted@.len() as int) =~= sv);
    }
    out
}


/// The prompt of a free-form question: with no documents, a request to answer from
/// general knowledge; otherwise the documents, separated by blank lines, as context.
pub open spec fn rag_prompt_text(query: Seq<char>, documents: Seq<Seq<char>>) -> Seq<char> {
    if documents.len() == 0 {
        "Answer this question using your knowledge: "@ + query
    } else {
        "Context Information:\n"@ + crate::text::joined(documents, "\n\n"@)
            + "\n\nBased on the context above, answer this question: "@ + query
            + "\n\nProvide a helpful and accurate response:"@
    }
}

/// The line that presents a node's content to the model: `Document: ` and the content's
/// JSON text.
pub fn document_line(content: &JsonValue) -> (r: String)
    ensures
        r@ == "Document: "@ + crate::document::json_text(*content),
{
    let mut line = string_of("Document: ");
    let text = crate::document::render_json(content);
    push_str(&mut line, text.as_str());
    line
}

/// The generation request of a free-form question over documents drawn from the
/// given nodes (up to 2000 tokens, links enabled).
pub fn ai_response_request(query: &str, documents: &Vec<String>, sources: &Vec<NodeId>) -> (r: TextRequest)
    ensures
        r.prompt@ == rag_prompt_text(query@, crate::text::views_of(documents@)),
        r.max_tokens == 2000,
        r.context_window == 8192,
        !r.conversation_mode,
        crate::text::views_of(r.knowledge_sources@) == sources@.map_values(|s: NodeId| "node:"@ + s@),
        r.retrieval_found_context == (documents@.len() > 0),
        r.context_summary@ == (if documents@.len() > 0 {
            "Relevant documents retrieved from knowledge base"@
        } else {
            "General knowledge query"@
        }),
        r.enable_link_generation,
{
    let has_context = documents.len() > 0;
    let mut prompt = String::new();
    if has_context {
        push_str(&mut prompt, "Context Information:\n");
        let context = crate::text::join(documents, "\n\n");
        push_str(&mut prompt, context.as_str());
        push_str(&mut prompt, "\n\nBased on the context above, answer this question: ");
        push_str(&mut prompt, query);
        push_str(&mut prompt, "\n\nProvide a helpful and accurate response:");
    } else {
        push_str(&mut prompt, "Answer this question using your knowledge: ");
        push_str(&mut prompt, query);
    }
    proof {
        assert(crate::text::views_of(documents@).len() == documents@.len());
    }
    TextRequest {
        prompt,
        max_tokens: 2000,
        context_window: 8192,
        conversation_mode: false,
        knowledge_sources: source_refs(sources),
        retrieval_found_context: has_context,
        context_summary: if has_context {
            string_of("Relevant documents retrieved from knowledge base")
        } else {
            string_of("General knowledge query")
        },
        enable_link_generation: true,
    }
}

/// The answer of a free-form question: the generated text, or a model error carrying
/// the back end's error text.
pub fn ai_response_outcome(outcome: Result<String, String>) -> (r: NodeSpaceResult<String>)
    ensures
        match outcome {
            Ok(t) => (r matches Ok(a) && a@ == t@),
            Err(e) => r matches Err(NodeSpaceError::Processing(
                crate::errors::ProcessingError::ModelError { service, model_name, reason, .. },
            )) && service@ == "core-logic"@ && model_name@ == "ai-response-generation"@ && reason@
                == "Real Ollama AI generation failed: "@ + e@,
        },
{
    match outcome {
        Ok(t) => Ok(t),
        Err(e) => {
            let mut reason = string_of("Real Ollama AI generation failed: ");
            push_str(&mut reason, e.as_str());
            Err(NodeSpaceError::Processing(
                crate::errors::ProcessingError::model_error("core-logic", "ai-response-generation", reason),
            ))
        },
    }
}

impl<D: DataStore<N::Embedding>, N: NLPEngine> NodeSpaceService<D, N> {
    /// Answers a free-form question: over the given nodes, or, when none are given,
    /// over the five nodes semantic search finds (none when the search fails). Each
    /// stored node becomes a `document_line`; the request is `ai_response_request` and
    /// the answer `ai_response_outcome`. Refused unless the service is ready.
    pub fn generate_ai_response(&self, query: &str, context_nodes: &Vec<NodeId>) -> (r: NodeSpaceResult<String>)
        ensures
            !(self.state_of() is Ready) ==> (r matches Err(e) && is_internal(
                e,
                "Service not ready for AI response generation"@,
            )),
            self.state_of() is Ready ==> (r matches Err(e) ==> e matches NodeSpaceError::Processing(
                crate::errors::ProcessingError::ModelError { service, model_name, reason, .. },
            ) && service@ == "core-logic"@ && model_name@ == "ai-response-generation"@
                && reason@.len() >= "Real Ollama AI generation failed: "@.len()
                && reason@.subrange(0, "Real Ollama AI generation failed: "@.len() as int)
                == "Real Ollama AI generation failed: "@),
    {
        if !self.is_ready() {
            return Err(internal(string_of("Service not ready for AI response generation")));
        }
        let relevant: Vec<NodeId> = if context_nodes.len() == 0 {
            match self.semantic_search(query, 5) {
                Ok(results) => {
                    let mut ids: Vec<NodeId> = Vec::new();
                    let mut i: usize = 0;
                    while i < results.len()
                        invariant
                            i <= results@.len(),
                        decreases results@.len() - i,
                    {
                        ids.push(results[i].node_id.clone_id());
                        i = i + 1;
                    }
                    ids
                },
                Err(_) => Vec::new(),
            }
        } else {
            crate::embedding_cache::copy_ids(context_nodes)
        };
        let mut documents: Vec<String> = Vec::new();
        let mut j: usize = 0;
        while j < relevant.len()
            invariant
                j <= relevant@.len(),
            decreases relevant@.len() - j,
        {
            if let Ok(Some(node)) = self.data_store.get_node(&relevant[j]) {
                documents.push(document_line(&node.content));
            }
            j = j + 1;
        }
        let request = ai_response_request(query, &documents, &relevant);
        ai_response_outcome(self.nlp_engine.generate_text_enhanced(request))
    }
}


/// What is shown of a source node of an answer: its identifier, text content, number
/// of words, type and last update time.
#[derive(Debug)]
pub struct SourceInfo {
    pub node_id: NodeId,
    pub content: String,
    pub context_tokens: usize,
    pub node_type: String,
    pub updated_at: String,
}

/// The text content of a node, empty when it has none.
pub open spec fn text_or_empty(n: crate::model::NodeView) -> Seq<char> {
    match crate::model::content_text(n) {
        Some(t) => t,
        None => Seq::empty(),
    }
}

/// `s` describes the node of `hit`.
pub open spec fn is_source_of<S>(s: SourceInfo, hit: SearchResult<S>) -> bool {
    &&& s.node_id@ == hit.node@.id
    &&& s.content@ == text_or_empty(hit.node@)
    &&& s.context_tokens == crate::text::spec_words(text_or_empty(hit.node@)).len()
    &&& s.node_type@ == hit.node@.node_type
    &&& s.updated_at@ == hit.node@.updated_at
}

/// The source description of a search hit.
pub fn source_info<S>(hit: &SearchResult<S>) -> (r: SourceInfo)
    ensures
        is_source_of(r, *hit),
{
    let content = match hit.node.content_str() {
        Some(t) => t.clone(),
        None => String::new(),
    };
    let words = crate::text::split_words(content.as_str());
    proof {
        assert(crate::text::views_of(words@).len() == words@.len());
    }
    SourceInfo {
        node_id: hit.node.id.clone_id(),
        content,
        context_tokens: words.len(),
        node_type: hit.node.node_type.clone(),
        updated_at: hit.node.updated_at.clone(),
    }
}

/// One source description per search hit, in order.
pub fn enhanced_sources<S>(results: &Vec<SearchResult<S>>) -> (r: Vec<SourceInfo>)
    ensures
        r@.len() == results@.len(),
        forall|i: int| 0 <= i < r@.len() ==> is_source_of(#[trigger] r@[i], results@[i]),
{
    let mut r: Vec<SourceInfo> = Vec::new();
    let mut i: usize = 0;
    while i < results.len()
        invariant
            i <= results@.len(),
            r@.len() == i,
            forall|k: int| 0 <= k < i ==> is_source_of(#[trigger] r@[k], results@[k]),
        decreases results@.len() - i,
    {
        r.push(source_info(&results[i]));
        i = i + 1;
    }
    r
}

/// The answer of a question for the desktop, with its sources and the search hits
/// they come from (whose scores rate the answer).
#[derive(Debug)]
pub struct EnhancedAnswer<S> {
    pub answer: String,
    pub sources: Vec<SourceInfo>,
    pub hits: Vec<SearchResult<S>>,
}

impl<D: DataStore<N::Embedding>, N: NLPEngine> NodeSpaceService<D, N> {
    /// Answers a question for the desktop: the five nodes semantic search finds are the
    /// sources (`enhanced_sources`) and the answer is generated over them
    /// (`generate_ai_response`). A service that is not ready, or a failed search, gives
    /// the fixed error answer with no sources; a failed generation gives the fixed
    /// generation-error answer with the sources.
    pub fn process_query_enhanced(&self, query: &str) -> (r: NodeSpaceResult<EnhancedAnswer<D::Score>>)
        ensures
            r is Ok,
            !(self.state_of() is Ready) ==> (r matches Ok(a) && a.answer@ == "I encountered an error processing your question."@
                && a.sources@.len() == 0 && a.hits@.len() == 0),
            r matches Ok(a) ==> a.sources@.len() == a.hits@.len() && forall|i: int|
                0 <= i < a.sources@.len() ==> is_source_of(#[trigger] a.sources@[i], a.hits@[i]),
    {
        let failure = string_of("I encountered an error processing your question.");
        if !self.is_ready() {
            return Ok(EnhancedAnswer { answer: failure, sources: Vec::new(), hits: Vec::new() });
        }
        let hits = match self.semantic_search(query, 5) {
            Ok(h) => h,
            Err(_) => return Ok(EnhancedAnswer { answer: failure, sources: Vec::new(), hits: Vec::new() }),
        };
        let sources = enhanced_sources(&hits);
        let mut ids: Vec<NodeId> = Vec::new();
        let mut i: usize = 0;
        while i < hits.len()
            invariant
                i <= hits@.len(),
            decreases hits@.len() - i,
        {
            ids.push(hits[i].node_id.clone_id());
            i = i + 1;
        }
        let answer = match self.generate_ai_response(query, &ids) {
            Ok(a) => a,
            Err(_) => string_of("I encountered an error generating a response. Please try again."),
        };
        Ok(EnhancedAnswer { answer, sources, hits })
    }
}

impl<D: DataStore<N::Embedding>, N: NLPEngine> NodeSpaceService<D, N> {
    /// The temporal references of a query: the model is asked (see
    /// `temporal_extraction_prompt`), but the references are those the pattern fallback
    /// finds relative to today, whatever the model answers.
    pub fn extract_temporal_refs(&self, query: &str) -> (r: NodeSpaceResult<Vec<crate::temporal::TemporalReference>>)
        ensures
            r matches Ok(v) && exists|today: crate::model::CalendarDate|
                crate::temporal::temporal_views(v@) == #[trigger] crate::temporal::temporal_refs_spec(
                    crate::text::spec_lowercase(query@),
                    today,
                    crate::temporal::spec_days_before(today, 1),
                    crate::temporal::spec_days_before(today, 7),
                ),
    {
        let prompt = crate::query::temporal_extraction_prompt(query);
        let _reply = self.nlp_engine.generate_text(prompt.as_str());
        Ok(crate::temporal::extract_temporal_refs_fallback(query))
    }
}


proof fn lemma_id_order(ids: Seq<Seq<char>>)
    ensures
        crate::ordering::weak_order(id_after(ids)),
{
    let gt = id_after(ids);
    assert forall|a: int, b: int| #[trigger] gt(a, b) implies !gt(b, a) by {
        crate::ordering::lemma_text_lt_asym(ids[b], ids[a]);
    }
    assert forall|a: int, b: int, c: int| #![trigger gt(a, b), gt(b, c)] !gt(a, b) && !gt(b, c) implies !gt(a, c) by {
        crate::ordering::lemma_text_lt_split(ids[a], ids[b], ids[c]);
    }
}

proof fn lemma_run_start_is_new(s: Seq<int>, ids: Seq<Seq<char>>)
    requires
        crate::ordering::is_ordered(s, id_after(ids)),
        s.len() >= 2,
        ids[s[s.len() - 2]] != ids[s.last()],
    ensures
        forall|q: int| 0 <= q < s.len() - 1 ==> ids[#[trigger] s[q]] != ids[s.last()],
{
    let n = s.len();
    let gt = id_after(ids);
    assert forall|q: int| 0 <= q < n - 1 implies ids[#[trigger] s[q]] != ids[s.last()] by {
        if q < n - 2 && ids[s[q]] == ids[s[n - 1]] {
            assert(!gt(s[q], s[n - 2]));
            assert(!gt(s[n - 2], s[n - 1]));
            crate::ordering::lemma_text_lt_total(ids[s[n - 2]], ids[s[n - 1]]);
        }
    }
}

#[verifier::spinoff_prover]
#[verifier::rlimit(40)]
proof fn lemma_first_of_runs(s: Seq<int>, ids: Seq<Seq<char>>)
    requires
        crate::ordering::is_ordered(s, id_after(ids)),
    ensures
        forall|i: int, j: int|
            0 <= i < j < first_of_runs(s, ids).len() ==> ids[#[trigger] first_of_runs(s, ids)[i]]
                != ids[#[trigger] first_of_runs(s, ids)[j]],
        forall|i: int| 0 <= i < first_of_runs(s, ids).len() ==> s.contains(#[trigger] first_of_runs(s, ids)[i]),
        forall|k: int|
            #![trigger s[k]]
            0 <= k < s.len() ==> exists|i: int|
                0 <= i < first_of_runs(s, ids).len() && ids[#[trigger] first_of_runs(s, ids)[i]] == ids[s[k]],
        s.len() > 0 ==> first_of_runs(s, ids).len() > 0 && ids[first_of_runs(s, ids).last()] == ids[s.last()],
    decreases s.len(),
{
    if s.len() > 0 {
        let t = s.drop_last();
        let gt = id_after(ids);
        assert(crate::ordering::is_ordered(t, gt)) by {
            assert forall|i: int, j: int| 0 <= i < j < t.len() implies !gt(#[trigger] t[i], #[trigger] t[j]) by {
                assert(t[i] == s[i] && t[j] == s[j]);
            }
        }
        lemma_first_of_runs(t, ids);
        let rt = first_of_runs(t, ids);
        let r = first_of_runs(s, ids);
        let n = s.len();
        let x = s[n - 1];
        if n >= 2 && ids[s[n - 2]] == ids[x] {
            lemma_runs_same(s, ids, t, rt, r);
        } else {
            if n >= 2 {
                lemma_run_start_is_new(s, ids);
            }
            lemma_runs_push(s, ids, t, rt, r);
        }
    }
}

#[verifier::spinoff_prover]
#[verifier::rlimit(40)]
proof fn lemma_runs_same(s: Seq<int>, ids: Seq<Seq<char>>, t: Seq<int>, rt: Seq<int>, r: Seq<int>)
    requires
        s.len() >= 2,
        t == s.drop_last(),
        rt == first_of_runs(t, ids),
        r == first_of_runs(s, ids),
        ids[s[s.len() - 2]] == ids[s.last()],
        forall|i: int, j: int| 0 <= i < j < rt.len() ==> ids[#[trigger] rt[i]] != ids[#[trigger] rt[j]],
        forall|i: int| 0 <= i < rt.len() ==> t.contains(#[trigger] rt[i]),
        forall|k: int|
            #![trigger t[k]]
            0 <= k < t.len() ==> exists|i: int| 0 <= i < rt.len() && ids[#[trigger] rt[i]] == ids[t[k]],
        rt.len() > 0 && ids[rt.last()] == ids[t.last()],
    ensures
        forall|i: int, j: int| 0 <= i < j < r.len() ==> ids[#[trigger] r[i]] != ids[#[trigger] r[j]],
        forall|i: int| 0 <= i < r.len() ==> s.contains(#[trigger] r[i]),
        forall|k: int|
            #![trigger s[k]]
            0 <= k < s.len() ==> exists|i: int| 0 <= i < r.len() && ids[#[trigger] r[i]] == ids[s[k]],
        r.len() > 0 && ids[r.last()] == ids[s.last()],
{
    let n = s.len();
    assert(r == rt);
    assert forall|i: int| 0 <= i < r.len() implies s.contains(#[trigger] r[i]) by {
        let q = choose|q: int| 0 <= q < t.len() && t[q] == r[i];
        assert(s[q] == t[q]);
    }
    assert forall|k: int| #![trigger s[k]] 0 <= k < s.len() implies exists|i: int|
        0 <= i < r.len() && ids[#[trigger] r[i]] == ids[s[k]] by {
        if k < n - 1 {
            assert(t[k] == s[k]);
        } else {
            assert(t[n - 2] == s[n - 2]);
        }
    }
}

#[verifier::spinoff_prover]
#[verifier::rlimit(40)]
proof fn lemma_runs_push(s: Seq<int>, ids: Seq<Seq<char>>, t: Seq<int>, rt: Seq<int>, r: Seq<int>)
    requires
        s.len() >= 1,
        t == s.drop_last(),
        rt == first_of_runs(t, ids),
        r == first_of_runs(s, ids),
        !(s.len() >= 2 && ids[s[s.len() - 2]] == ids[s.last()]),
        s.len() >= 2 ==> forall|q: int| 0 <= q < s.len() - 1 ==> ids[#[trigger] s[q]] != ids[s.last()],
        forall|i: int, j: int| 0 <= i < j < rt.len() ==> ids[#[trigger] rt[i]] != ids[#[trigger] rt[j]],
        forall|i: int| 0 <= i < rt.len() ==> t.contains(#[trigger] rt[i]),
        forall|k: int|
            #![trigger t[k]]
            0 <= k < t.len() ==> exists|i: int| 0 <= i < rt.len() && ids[#[trigger] rt[i]] == ids[t[k]],
    ensures
        forall|i: int, j: int| 0 <= i < j < r.len() ==> ids[#[trigger] r[i]] != ids[#[trigger] r[j]],
        forall|i: int| 0 <= i < r.len() ==> s.contains(#[trigger] r[i]),
        forall|k: int|
            #![trigger s[k]]
            0 <= k < s.len() ==> exists|i: int| 0 <= i < r.len() && ids[#[trigger] r[i]] == ids[s[k]],
        r.len() > 0 && ids[r.last()] == ids[s.last()],
{
    let n = s.len();
    let x = s[n - 1];
    assert(r == rt.push(x));
    assert forall|i: int| 0 <= i < rt.len() implies ids[#[trigger] rt[i]] != ids[x] by {
        let q = choose|q: int| 0 <= q < t.len() && t[q] == rt[i];
        assert(s[q] == t[q]);
    }
    assert forall|i: int, j: int| 0 <= i < j < r.len() implies ids[#[trigger] r[i]] != ids[#[trigger] r[j]] by {
        assert(r[i] == rt[i]);
        if j < rt.len() {
            assert(r[j] == rt[j]);
        } else {
            assert(r[j] == x);
        }
    }
    assert forall|i: int| 0 <= i < r.len() implies s.contains(#[trigger] r[i]) by {
        if i < rt.len() {
            let q = choose|q: int| 0 <= q < t.len() && t[q] == rt[i];
            assert(s[q] == t[q]);
            assert(r[i] == rt[i]);
        } else {
            assert(r[i] == s[n - 1]);
        }
    }
    assert forall|k: int| #![trigger s[k]] 0 <= k < s.len() implies exists|i: int|
        0 <= i < r.len() && ids[#[trigger] r[i]] == ids[s[k]] by {
        if k < n - 1 {
            assert(t[k] == s[k]);
            let i = choose|i: int| 0 <= i < rt.len() && ids[#[trigger] rt[i]] == ids[t[k]];
            assert(r[i] == rt[i]);
        } else {
            assert(r[rt.len() as int] == x);
        }
    }
}

/// Merging search hits keeps exactly one hit per node: the kept positions are
/// positions of the hits, no two kept hits share a node, and every node that was hit
/// keeps one of its hits.
#[verifier::spinoff_prover]
#[verifier::rlimit(40)]
pub proof fn law_merge_keeps_one_hit_per_node<S>(hits: Seq<SearchResult<S>>)
    ensures
        forall|i: int| 0 <= i < merged_positions(hits).len() ==> 0 <= #[trigger] merged_positions(hits)[i] < hits.len(),
        forall|i: int, j: int|
            0 <= i < j < merged_positions(hits).len() ==> hit_ids(hits)[#[trigger] merged_positions(hits)[i]]
                != hit_ids(hits)[#[trigger] merged_positions(hits)[j]],
        forall|k: int|
            #![trigger hit_ids(hits)[k]]
            0 <= k < hits.len() ==> exists|i: int|
                0 <= i < merged_positions(hits).len() && hit_ids(hits)[#[trigger] merged_positions(hits)[i]]
                    == hit_ids(hits)[k],
{
    broadcast use vstd::seq_lib::group_to_multiset_ensures;
    let ids = hit_ids(hits);
    let all = Seq::new(hits.len(), |i: int| i);
    let gt = id_after(ids);
    let sorted = crate::ordering::stable_sorted(all, gt);
    lemma_id_order(ids);
    crate::ordering::law_stable_sort_orders(all, gt);
    crate::ordering::law_stable_sort_permutes(all, gt);
    lemma_first_of_runs(sorted, ids);
    let m = merged_positions(hits);
    assert(m == first_of_runs(sorted, ids));
    assert forall|i: int| 0 <= i < m.len() implies 0 <= #[trigger] m[i] < hits.len() by {
        assert(sorted.contains(m[i]));
        assert(sorted.to_multiset().count(m[i]) > 0);
        assert(all.to_multiset().count(m[i]) > 0);
        assert(all.contains(m[i]));
    }
    assert forall|k: int| #![trigger ids[k]] 0 <= k < hits.len() implies exists|i: int|
        0 <= i < m.len() && ids[#[trigger] m[i]] == ids[k] by {
        assert(all[k] == k);
        assert(all.to_multiset().count(k) > 0);
        assert(sorted.to_multiset().count(k) > 0);
        assert(sorted.contains(k));
        let q = choose|q: int| 0 <= q < sorted.len() && sorted[q] == k;
        assert(ids[sorted[q]] == ids[k]);
    }
}

} // verus!
