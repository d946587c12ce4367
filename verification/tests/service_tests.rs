use std::cell::{Cell, RefCell};

use chrono::Datelike;

use nodespace_core_logic::errors::{DatabaseError, NodeSpaceError, NodeSpaceResult, ProcessingError};
use nodespace_core_logic::model::{CalendarDate, JsonValue, Node, NodeId, NodeType};
use nodespace_core_logic::query::OfflineFallback;
use nodespace_core_logic::service::{
    contextual_answer_request, ready_step, DataStore, NLPEngine, NodeSpaceConfig, NodeSpaceService, ReadyStep,
    ServiceState, TextRequest,
};
use nodespace_core_logic::temporal::{TemporalReference, TemporalType};

struct MockStore {
    nodes: RefCell<Vec<Node>>,
    embedded: RefCell<Vec<String>>,
}

impl MockStore {
    fn new() -> Self {
        MockStore { nodes: RefCell::new(Vec::new()), embedded: RefCell::new(Vec::new()) }
    }

    fn add(&self, node: Node) {
        let mut nodes = self.nodes.borrow_mut();
        nodes.retain(|n| n.id.as_str() != node.id.as_str());
        nodes.push(node);
    }

    fn find(&self, id: &str) -> Option<Node> {
        self.nodes.borrow().iter().find(|n| n.id.as_str() == id).map(|n| n.dup())
    }
}

fn missing(id: &NodeId) -> NodeSpaceError {
    NodeSpaceError::Database(DatabaseError::NotFound {
        entity_type: "node".to_string(),
        id: id.as_str().to_string(),
        suggestions: vec![],
    })
}

impl DataStore<Vec<u32>> for MockStore {
    type Score = u32;

    fn get_node(&self, id: &NodeId) -> NodeSpaceResult<Option<Node>> {
        Ok(self.find(id.as_str()))
    }

    fn update_node(&self, node: Node) -> NodeSpaceResult<()> {
        if self.find(node.id.as_str()).is_none() {
            return Err(missing(&node.id));
        }
        self.add(node);
        Ok(())
    }

    fn delete_node(&self, id: &NodeId) -> NodeSpaceResult<()> {
        self.nodes.borrow_mut().retain(|n| n.id.as_str() != id.as_str());
        Ok(())
    }

    fn query_nodes(&self, query: &str) -> NodeSpaceResult<Vec<Node>> {
        let q = query.to_lowercase();
        Ok(self
            .nodes
            .borrow()
            .iter()
            .filter(|n| q.is_empty() || n.content_str().map(|c| c.to_lowercase().contains(&q)).unwrap_or(false))
            .map(|n| n.dup())
            .collect())
    }

    fn get_nodes_by_root(&self, root_id: &NodeId) -> NodeSpaceResult<Vec<Node>> {
        Ok(self
            .nodes
            .borrow()
            .iter()
            .filter(|n| n.root_id.as_ref().map(|r| r.as_str() == root_id.as_str()).unwrap_or(false))
            .map(|n| n.dup())
            .collect())
    }

    fn store_node_with_embedding(&self, node: Node, _embedding: Vec<u32>) -> NodeSpaceResult<NodeId> {
        let id = node.id.clone_id();
        self.embedded.borrow_mut().push(id.as_str().to_string());
        self.add(node);
        Ok(id)
    }

    fn semantic_search_with_embedding(&self, _embedding: Vec<u32>, limit: usize) -> NodeSpaceResult<Vec<(Node, u32)>> {
        Ok(self.nodes.borrow().iter().take(limit).map(|n| (n.dup(), 1)).collect())
    }

    fn update_node_embedding(&self, id: &NodeId, _embedding: Vec<u32>) -> NodeSpaceResult<()> {
        self.embedded.borrow_mut().push(id.as_str().to_string());
        Ok(())
    }
}

struct MockEngine {
    fail_embedding: bool,
    fail_text: bool,
    prompts: RefCell<Vec<String>>,
    requests: Cell<usize>,
}

impl MockEngine {
    fn new() -> Self {
        MockEngine { fail_embedding: false, fail_text: false, prompts: RefCell::new(Vec::new()), requests: Cell::new(0) }
    }
}

fn engine_error() -> NodeSpaceError {
    NodeSpaceError::Processing(ProcessingError::ModelError {
        service: "mock".to_string(),
        model_name: "mock".to_string(),
        reason: "down".to_string(),
        model_version: None,
        fallback_available: false,
    })
}

impl NLPEngine for MockEngine {
    type Embedding = Vec<u32>;

    fn generate_embedding(&self, text: &str) -> NodeSpaceResult<Vec<u32>> {
        if self.fail_embedding {
            return Err(engine_error());
        }
        Ok(vec![text.len() as u32])
    }

    fn batch_embeddings(&self, texts: &Vec<String>) -> NodeSpaceResult<Vec<Vec<u32>>> {
        Ok(texts.iter().map(|t| vec![t.len() as u32]).collect())
    }

    fn generate_text(&self, prompt: &str) -> NodeSpaceResult<String> {
        self.prompts.borrow_mut().push(prompt.to_string());
        if self.fail_text {
            return Err(engine_error());
        }
        Ok("Mock response".to_string())
    }

    fn generate_text_enhanced(&self, request: TextRequest) -> Result<String, String> {
        self.requests.set(self.requests.get() + 1);
        self.prompts.borrow_mut().push(request.prompt.clone());
        if self.fail_text {
            return Err("engine offline".to_string());
        }
        Ok("Mock enhanced response".to_string())
    }
}

type Service = NodeSpaceService<MockStore, MockEngine>;

fn ready_service() -> Service {
    let mut s = NodeSpaceService::new(MockStore::new(), MockEngine::new());
    s.initialize().unwrap();
    s
}

fn id(s: &str) -> NodeId {
    NodeId::from_string(s.to_string())
}

fn stored(service: &Service, i: &str, parent: Option<&str>, root: Option<&str>, content: &str) {
    let mut n = Node::new("text".to_string(), JsonValue::Str(content.to_string()));
    n.id = id(i);
    n.parent_id = parent.map(id);
    n.root_id = root.map(id);
    service.data_store().add(n);
}

fn hierarchy(service: &Service) {
    stored(service, "root", None, None, "root");
    stored(service, "a", Some("root"), Some("root"), "alpha");
    stored(service, "b", Some("root"), Some("root"), "beta");
    stored(service, "a1", Some("a"), Some("root"), "alpha one");
    stored(service, "a1x", Some("a1"), Some("root"), "alpha one x");
}

fn ids(v: &[Node]) -> Vec<String> {
    v.iter().map(|n| n.id.as_str().to_string()).collect()
}

#[test]
fn test_service_initialization() {
    let mut s = NodeSpaceService::new(MockStore::new(), MockEngine::new());
    assert!(matches!(s.get_state(), ServiceState::Uninitialized));
    assert!(!s.is_ready());
    assert!(s.initialize().is_ok());
    assert!(matches!(s.get_state(), ServiceState::Ready));
    assert!(s.is_ready());
    s.shutdown().unwrap();
    assert!(!s.is_ready());
}

#[test]
fn test_service_initialization_failure() {
    let mut engine = MockEngine::new();
    engine.fail_embedding = true;
    let mut s = NodeSpaceService::new(MockStore::new(), engine);
    assert!(s.initialize().is_err());
    match s.get_state() {
        ServiceState::Failed(_) => {}
        other => panic!("expected failure, got {:?}", other),
    }
}

#[test]
fn offline_mode_tolerates_a_failing_text_generation() {
    let mut engine = MockEngine::new();
    engine.fail_text = true;
    let mut s = NodeSpaceService::new(MockStore::new(), engine);
    assert!(s.initialize().is_ok());
    assert!(s.is_ready());
    let mut engine = MockEngine::new();
    engine.fail_text = true;
    let mut config = NodeSpaceConfig::default_config();
    config.offline_config.enable_offline = false;
    let mut s = NodeSpaceService::with_config(MockStore::new(), engine, config);
    assert!(s.initialize().is_err());
}

#[test]
fn test_create_knowledge_node_success() {
    let mut s = ready_service();
    let node_id = s.create_knowledge_node("Test knowledge content", JsonValue::Object(vec![])).unwrap();
    let node = s.data_store().find(node_id.as_str()).unwrap();
    assert_eq!(node.content_str().map(|c| c.as_str()), Some("Test knowledge content"));
    assert_eq!(node.root_id.as_ref().map(|r| r.as_str()), Some(node_id.as_str()));
    assert_eq!(node.node_type, "text");
}

#[test]
fn test_create_knowledge_node_not_ready() {
    let mut s = NodeSpaceService::new(MockStore::new(), MockEngine::new());
    match s.create_knowledge_node("test", JsonValue::Null) {
        Err(NodeSpaceError::InternalError { message, service }) => {
            assert_eq!(message, "Service not ready: Uninitialized");
            assert_eq!(service, "core-logic");
        }
        other => panic!("unexpected {:?}", other),
    }
}

#[test]
fn test_update_node() {
    let mut s = ready_service();
    let node_id = s.create_knowledge_node("Original content", JsonValue::Null).unwrap();
    s.update_node(&node_id, "Updated content").unwrap();
    let node = s.data_store().find(node_id.as_str()).unwrap();
    assert_eq!(node.content_str().map(|c| c.as_str()), Some("Updated content"));
}

#[test]
fn test_update_nonexistent_node() {
    let mut s = ready_service();
    match s.update_node(&id("nonexistent"), "new content") {
        Err(NodeSpaceError::Database(DatabaseError::NotFound { id, .. })) => assert_eq!(id, "nonexistent"),
        other => panic!("unexpected {:?}", other),
    }
}

#[test]
fn test_get_related_nodes() {
    let s = ready_service();
    stored(&s, "target", None, None, "target");
    let mut m = Node::new("text".to_string(), JsonValue::Str("mentions target".to_string()));
    m.id = id("m");
    m.metadata = Some(JsonValue::Object(vec![(
        "mentions".to_string(),
        JsonValue::Array(vec![JsonValue::Str("target".to_string())]),
    )]));
    s.data_store().add(m);
    let related = s.get_related_nodes(&id("target"), vec![]).unwrap();
    assert_eq!(related.iter().map(|r| r.as_str()).collect::<Vec<_>>(), vec!["m"]);
    let batch = s.get_batch_related_nodes(&vec![id("target")], vec![]).unwrap();
    assert_eq!(batch[0].1.len(), 1);
}

#[test]
fn test_generate_insights() {
    let s = ready_service();
    stored(&s, "n1", None, None, "first note");
    stored(&s, "n2", None, None, "second note");
    let insight = s.generate_insights(vec![id("n1"), id("n2")]).unwrap();
    assert_eq!(insight, "Mock response");
    let prompt = s.nlp_engine().prompts.borrow().last().unwrap().clone();
    assert!(prompt.contains("first note\n\n---\n\nsecond note"));
}

#[test]
fn test_generate_insights_empty_input() {
    let s = ready_service();
    assert_eq!(s.generate_insights(vec![]).unwrap(), "No nodes provided for insight generation.");
    assert_eq!(
        s.generate_insights(vec![id("missing")]).unwrap(),
        "No readable content found in the specified nodes."
    );
}

#[test]
fn test_node_structure_operations() {
    let s = ready_service();
    stored(&s, "parent", None, None, "Parent content");
    stored(&s, "child", None, None, "Child content");
    assert!(s.update_node_structure(&id("child"), "indent", Some(&id("parent")), None).is_ok());
    let child = s.data_store().find("child").unwrap();
    assert!(child.metadata.is_some());
    assert!(matches!(child.metadata.unwrap().get("parent_id"), Some(JsonValue::Str(p)) if p == "parent"));
}

#[test]
fn structure_outdent_and_unknown_operation() {
    let s = ready_service();
    stored(&s, "n", None, None, "node");
    s.update_node_structure(&id("n"), "indent", Some(&id("p")), None).unwrap();
    s.update_node_structure(&id("n"), "outdent", None, None).unwrap();
    assert!(s.data_store().find("n").unwrap().metadata.unwrap().get("parent_id").is_none());
    assert!(s.update_node_structure(&id("n"), "bogus", None, None).is_err());
    assert!(s.update_node_structure(&id("missing"), "indent", None, None).is_err());
}

#[test]
fn test_set_node_parent() {
    let s = ready_service();
    stored(&s, "child", None, None, "Child content");
    s.set_node_parent(&id("child"), Some(&id("parent"))).unwrap();
    let child = s.data_store().find("child").unwrap();
    assert!(matches!(child.metadata.as_ref().unwrap().get("parent_id"), Some(JsonValue::Str(p)) if p == "parent"));
    assert_eq!(child.parent_id.unwrap().as_str(), "parent");
    s.set_node_parent(&id("child"), None).unwrap();
    let child = s.data_store().find("child").unwrap();
    assert!(child.metadata.unwrap().get("parent_id").is_none());
    assert!(child.parent_id.is_none());
}

#[test]
fn test_update_sibling_order() {
    let s = ready_service();
    stored(&s, "node1", None, None, "First node");
    stored(&s, "node2", None, None, "Second node");
    stored(&s, "node3", None, None, "Third node");
    assert!(s.update_sibling_order(&id("node2"), Some(&id("node1")), Some(&id("node3"))).is_ok());
    assert_eq!(s.data_store().find("node2").unwrap().before_sibling.unwrap().as_str(), "node1");
    assert_eq!(s.data_store().find("node3").unwrap().before_sibling.unwrap().as_str(), "node2");
    assert!(s.data_store().find("node1").unwrap().before_sibling.is_none());
}

#[test]
fn test_date_navigation() {
    let mut s = ready_service();
    let day = CalendarDate::from_ymd(2024, 6, 15).unwrap();
    let first = s.create_node_for_date(&day, "first entry", NodeType::Text, None).unwrap();
    let date_node = s.data_store().find("2024-06-15").unwrap();
    assert_eq!(date_node.node_type, "date");
    assert!(matches!(date_node.content, JsonValue::Null));
    assert!(date_node.root_id.is_none() && date_node.parent_id.is_none());
    assert_eq!(s.find_date_node(&day).unwrap().unwrap().as_str(), "2024-06-15");
    let nodes = s.get_nodes_for_date(&day).unwrap();
    assert_eq!(ids(&nodes), vec![first.as_str().to_string()]);
    let other = CalendarDate::from_ymd(2024, 6, 16).unwrap();
    assert!(s.get_nodes_for_date(&other).unwrap().is_empty());
    let h = s.get_hierarchical_nodes_for_date(&day).unwrap();
    assert_eq!(h.total_count, 1);
    assert!(h.has_content);
    let empty = s.get_hierarchical_nodes_for_date(&other).unwrap();
    assert_eq!(empty.total_count, 0);
    assert!(!empty.has_content);
}

#[test]
fn test_offline_fallback_behavior() {
    let mut engine = MockEngine::new();
    engine.fail_text = true;
    let mut config = NodeSpaceConfig::default_config();
    config.offline_config.enable_offline = true;
    config.offline_config.offline_fallback = OfflineFallback::Stub;
    let mut s = NodeSpaceService::with_config(MockStore::new(), engine, config);
    s.initialize().unwrap();
    let response = s.process_query("What is Rust?").unwrap();
    assert!(response.answer.contains("currently unable"));
    assert!(response.confidence.fallback);
}

#[test]
fn test_process_query_with_context() {
    let s = ready_service();
    stored(&s, "1", None, None, "Rust is a systems programming language");
    let response = s.process_query("What is Rust?").unwrap();
    assert_eq!(response.answer, "Mock enhanced response");
    assert_eq!(response.sources.len(), 1);
    assert!(response.confidence.has_context);
    assert_eq!(response.related_queries[0], "What else about Rust??");
    let prompt = s.nlp_engine().prompts.borrow().last().unwrap().clone();
    assert!(prompt.contains("Context:\nRust is a systems programming language"));
}

#[test]
fn test_process_query_no_context() {
    let s = ready_service();
    let response = s.process_query("What is quantum computing?").unwrap();
    assert!(response.sources.is_empty());
    assert!(!response.confidence.has_context);
}

fn setup_hierarchy_test_data(service: &Service) {
    stored(service, "root", None, None, "Root content");
    stored(service, "child1", Some("root"), None, "Child 1 content");
    stored(service, "child2", Some("root"), None, "Child 2 content");
    stored(service, "child3", Some("root"), None, "Child 3 content");
    stored(service, "grandchild1", Some("child1"), None, "Grandchild 1 content");
    stored(service, "grandchild2", Some("child1"), None, "Grandchild 2 content");
    stored(service, "grandchild3", Some("child3"), None, "Grandchild 3 content");
}

#[test]
fn test_get_node_depth() {
    let mut s = ready_service();
    setup_hierarchy_test_data(&s);
    assert_eq!(s.get_node_depth(&id("root")).unwrap(), 0);
    assert_eq!(s.get_node_depth(&id("child1")).unwrap(), 1);
    assert_eq!(s.get_node_depth(&id("grandchild1")).unwrap(), 2);
}

#[test]
fn test_get_node_depth_nonexistent() {
    let mut s = NodeSpaceService::new(MockStore::new(), MockEngine::new());
    assert!(s.get_node_depth(&id("nonexistent")).is_err());
}

#[test]
fn test_get_children() {
    let mut s = ready_service();
    setup_hierarchy_test_data(&s);
    let root_children = ids(&s.get_children(&id("root")).unwrap());
    assert_eq!(root_children.len(), 3);
    assert!(root_children.contains(&"child1".to_string()));
    assert!(root_children.contains(&"child2".to_string()));
    assert!(root_children.contains(&"child3".to_string()));
    let child1_children = ids(&s.get_children(&id("child1")).unwrap());
    assert_eq!(child1_children.len(), 2);
    assert!(child1_children.contains(&"grandchild1".to_string()));
    assert!(child1_children.contains(&"grandchild2".to_string()));
    assert_eq!(s.get_children(&id("grandchild1")).unwrap().len(), 0);
}

#[test]
fn test_get_ancestors() {
    let s = ready_service();
    setup_hierarchy_test_data(&s);
    let ancestors = s.get_ancestors(&id("grandchild1")).unwrap();
    assert_eq!(ancestors.len(), 2);
    assert_eq!(ancestors[0].id.as_str(), "child1");
    assert_eq!(ancestors[1].id.as_str(), "root");
    let child_ancestors = s.get_ancestors(&id("child1")).unwrap();
    assert_eq!(child_ancestors.len(), 1);
    assert_eq!(child_ancestors[0].id.as_str(), "root");
    assert_eq!(s.get_ancestors(&id("root")).unwrap().len(), 0);
}

#[test]
fn ancestors_of_a_missing_node_are_refused() {
    let s = ready_service();
    setup_hierarchy_test_data(&s);
    assert!(s.get_ancestors(&id("nonexistent")).is_err());
}

#[test]
fn test_get_siblings() {
    let mut s = ready_service();
    setup_hierarchy_test_data(&s);
    let child1_siblings = ids(&s.get_siblings(&id("child1")).unwrap());
    assert_eq!(child1_siblings.len(), 2);
    assert!(child1_siblings.contains(&"child2".to_string()));
    assert!(child1_siblings.contains(&"child3".to_string()));
    assert!(!child1_siblings.contains(&"child1".to_string()));
    let grandchild1_siblings = s.get_siblings(&id("grandchild1")).unwrap();
    assert_eq!(grandchild1_siblings.len(), 1);
    assert_eq!(grandchild1_siblings[0].id.as_str(), "grandchild2");
    assert_eq!(s.get_siblings(&id("root")).unwrap().len(), 0);
}

#[test]
fn test_move_node_success() {
    let mut s = ready_service();
    setup_hierarchy_test_data(&s);
    assert!(s.move_node(&id("grandchild1"), &id("child2")).is_ok());
    assert_eq!(s.data_store().find("grandchild1").unwrap().parent_id.unwrap().as_str(), "child2");
    let old_children = ids(&s.get_children(&id("child1")).unwrap());
    assert!(!old_children.contains(&"grandchild1".to_string()));
    let new_children = ids(&s.get_children(&id("child2")).unwrap());
    assert!(new_children.contains(&"grandchild1".to_string()));
}

#[test]
fn test_move_node_cycle_detection() {
    let mut s = ready_service();
    setup_hierarchy_test_data(&s);
    match s.move_node(&id("root"), &id("grandchild1")) {
        Err(NodeSpaceError::Validation(_)) => {}
        other => panic!("expected a validation error, got {:?}", other),
    }
}

#[test]
fn test_move_node_to_descendant() {
    let mut s = ready_service();
    setup_hierarchy_test_data(&s);
    assert!(s.move_node(&id("child1"), &id("grandchild1")).is_err());
}

#[test]
fn test_move_subtree() {
    let mut s = ready_service();
    setup_hierarchy_test_data(&s);
    assert!(s.move_subtree(&id("child1"), &id("child2")).is_ok());
    assert_eq!(s.data_store().find("child1").unwrap().parent_id.unwrap().as_str(), "child2");
    assert_eq!(s.data_store().find("grandchild1").unwrap().parent_id.unwrap().as_str(), "child1");
    assert_eq!(s.get_children(&id("child1")).unwrap().len(), 2);
}

#[test]
fn test_get_tree_nodes() {
    let s = ready_service();
    setup_hierarchy_test_data(&s);
    assert_eq!(s.get_tree_nodes(&id("root")).unwrap().len(), 7);
    assert_eq!(s.get_tree_nodes(&id("child1")).unwrap().len(), 3);
    assert_eq!(s.get_tree_nodes(&id("grandchild1")).unwrap().len(), 1);
}

#[test]
fn test_is_ancestor_of() {
    let s = ready_service();
    setup_hierarchy_test_data(&s);
    assert!(s.is_ancestor_of(&id("root"), &id("child1")).unwrap());
    assert!(s.is_ancestor_of(&id("root"), &id("grandchild1")).unwrap());
    assert!(s.is_ancestor_of(&id("child1"), &id("grandchild1")).unwrap());
    assert!(!s.is_ancestor_of(&id("child1"), &id("child2")).unwrap());
    assert!(!s.is_ancestor_of(&id("child1"), &id("child1")).unwrap());
    assert!(!s.is_ancestor_of(&id("grandchild1"), &id("child1")).unwrap());
}

#[test]
fn test_hierarchy_cache_functionality() {
    let mut s = ready_service();
    setup_hierarchy_test_data(&s);
    assert_eq!(s.get_node_depth(&id("grandchild1")).unwrap(), 2);
    assert_eq!(s.get_node_depth(&id("grandchild1")).unwrap(), 2);
}

#[test]
fn test_hierarchy_cache_invalidation() {
    let mut s = ready_service();
    setup_hierarchy_test_data(&s);
    let _depth = s.get_node_depth(&id("grandchild1")).unwrap();
    assert!(s.get_children(&id("child2")).unwrap().is_empty());
    s.move_node(&id("grandchild1"), &id("child2")).unwrap();
    assert_eq!(ids(&s.get_children(&id("child2")).unwrap()), vec!["grandchild1"]);
}

#[test]
fn children_cache_is_refreshed_on_invalidation() {
    let mut s = ready_service();
    hierarchy(&s);
    assert_eq!(ids(&s.get_children(&id("root")).unwrap()), vec!["a", "b"]);
    stored(&s, "c", Some("root"), Some("root"), "gamma");
    s.invalidate_hierarchy_cache();
    assert_eq!(ids(&s.get_children(&id("root")).unwrap()), vec!["a", "b", "c"]);
}

#[test]
fn subtree_with_depths_is_sorted() {
    let mut s = ready_service();
    hierarchy(&s);
    let sub = s.get_subtree_with_depths(&id("root")).unwrap();
    let depths: Vec<u32> = sub.iter().map(|(_, d)| *d).collect();
    assert_eq!(depths, vec![0, 1, 1, 2, 3]);
}

#[test]
fn delete_with_children_transfer() {
    let s = ready_service();
    hierarchy(&s);
    s.delete_node_with_children_transfer(&id("a"), vec![id("a1")], Some(&id("root"))).unwrap();
    assert!(s.data_store().find("a").is_none());
    assert_eq!(s.data_store().find("a1").unwrap().parent_id.unwrap().as_str(), "root");
}

#[test]
fn upsert_creates_then_updates() {
    let mut s = ready_service();
    let day = CalendarDate::from_ymd(2024, 1, 2).unwrap();
    s.upsert_node(id("u1"), &day, "first".to_string(), None, None, "ai-chat", None).unwrap();
    let created = s.data_store().find("u1").unwrap();
    assert_eq!(created.node_type, "text");
    assert_eq!(created.parent_id.unwrap().as_str(), "2024-01-02");
    s.upsert_node(id("u1"), &day, "second".to_string(), None, None, "text", Some(JsonValue::Bool(true))).unwrap();
    let updated = s.data_store().find("u1").unwrap();
    assert_eq!(updated.content_str().map(|c| c.as_str()), Some("second"));
    assert!(matches!(updated.metadata, Some(JsonValue::Bool(true))));
    assert!(s.upsert_node(id("u2"), &day, "x".to_string(), None, None, "video", None).is_err());
}

#[test]
fn upsert_refused_when_not_ready() {
    let mut s = NodeSpaceService::new(MockStore::new(), MockEngine::new());
    let day = CalendarDate::from_ymd(2024, 1, 2).unwrap();
    match s.upsert_node(id("u"), &day, "x".to_string(), None, None, "text", None) {
        Err(NodeSpaceError::InternalError { message, .. }) => assert_eq!(message, "Service not ready for node upsert"),
        other => panic!("unexpected {:?}", other),
    }
}

#[test]
fn create_for_date_checks_parent_and_sibling() {
    let mut s = ready_service();
    let day = CalendarDate::from_ymd(2024, 1, 3).unwrap();
    let e = s
        .create_node_for_date_with_id(id("n"), &day, "x", NodeType::Text, None, Some(id("ghost")), None)
        .unwrap_err();
    assert_eq!(e.describe(), "parent_node not found: ghost");
    s.create_node_for_date_with_id(id("n"), &day, "x", NodeType::Task, None, None, None).unwrap();
    s.create_node_for_date_with_id(id("m"), &day, "y", NodeType::Text, None, None, Some(id("n"))).unwrap();
    let m = s.data_store().find("m").unwrap();
    assert_eq!(m.before_sibling.unwrap().as_str(), "n");
    assert_eq!(m.root_id.unwrap().as_str(), "2024-01-03");
    let missing = s
        .create_node_for_date_with_id(id("k"), &day, "z", NodeType::Text, None, None, Some(id("ghost")))
        .unwrap_err();
    assert_eq!(missing.describe(), "before_sibling not found: ghost");
}

#[test]
fn batch_creation_embeds_each_content() {
    let s = ready_service();
    let created = s
        .create_knowledge_nodes_batch(vec![
            ("one".to_string(), JsonValue::Null),
            ("two".to_string(), JsonValue::Bool(false)),
        ])
        .unwrap();
    assert_eq!(created.len(), 2);
    assert_eq!(s.data_store().embedded.borrow().len(), 2);
    assert!(s.create_knowledge_nodes_batch(vec![]).unwrap().is_empty());
}

#[test]
fn cached_embedding_is_reused() {
    let mut s = ready_service();
    let e1 = s.get_cached_embedding("hello").unwrap();
    let e2 = s.get_cached_embedding("hello").unwrap();
    assert_eq!(e1, e2);
    assert_eq!(s.embedding_cache_stats().individual_count, 1);
    s.clear_embedding_cache();
    assert_eq!(s.embedding_cache_stats().individual_count, 0);
}

#[test]
fn contextual_embedding_is_cached() {
    let mut s = ready_service();
    hierarchy(&s);
    let node = s.data_store().find("a").unwrap();
    let e = s
        .get_cached_contextual_embedding(&node, nodespace_core_logic::embedding_cache::ContextStrategy::RuleBased)
        .unwrap();
    assert_eq!(s.embedding_cache_stats().contextual_count, 1);
    let again = s
        .get_cached_contextual_embedding(&node, nodespace_core_logic::embedding_cache::ContextStrategy::RuleBased)
        .unwrap();
    assert_eq!(e, again);
    assert!(s.embedding_cache_stats().dependency_count >= 1);
}

#[test]
fn ai_response_over_given_nodes() {
    let s = ready_service();
    stored(&s, "doc", None, None, "Quarterly plan");
    let answer = s.generate_ai_response("What is planned?", &vec![id("doc")]).unwrap();
    assert_eq!(answer, "Mock enhanced response");
    let prompt = s.nlp_engine().prompts.borrow().last().unwrap().clone();
    assert!(prompt.starts_with("Context Information:\nDocument: \"Quarterly plan\"\n\n"));
}

#[test]
fn ai_response_refused_when_not_ready() {
    let s = NodeSpaceService::new(MockStore::new(), MockEngine::new());
    match s.generate_ai_response("x", &vec![]) {
        Err(NodeSpaceError::InternalError { message, .. }) => {
            assert_eq!(message, "Service not ready for AI response generation")
        }
        other => panic!("unexpected {:?}", other),
    }
}

#[test]
fn temporal_search_for_events_and_vague_times() {
    let s = ready_service();
    stored(&s, "bday", None, None, "Birthday party notes");
    let event = TemporalReference {
        raw_text: "birthday".to_string(),
        parsed_date: None,
        date_range: None,
        temporal_type: TemporalType::Event,
    };
    assert_eq!(ids(&s.search_by_temporal_ref(&event).unwrap()), vec!["bday"]);
    let fuzzy = TemporalReference {
        raw_text: "recently".to_string(),
        parsed_date: None,
        date_range: None,
        temporal_type: TemporalType::Fuzzy,
    };
    assert!(s.search_by_temporal_ref(&fuzzy).unwrap().is_empty());
    assert_eq!(ids(&s.search_by_entity("party").unwrap()), vec!["bday"]);
}

#[test]
fn visual_search_collects_colour_and_object_hits() {
    let s = ready_service();
    stored(&s, "r", None, None, "a red car");
    stored(&s, "h", None, None, "a blue hat");
    let attrs = nodespace_core_logic::query::extract_visual_refs("red hat");
    let found = s.search_by_visual_attributes(&attrs).unwrap();
    assert_eq!(ids(&found), vec!["r", "h"]);
}

#[test]
fn temporal_refs_through_the_service() {
    let s = ready_service();
    let refs = s.extract_temporal_refs("what happened yesterday?").unwrap();
    assert_eq!(refs.len(), 1);
    assert_eq!(refs[0].raw_text, "yesterday");
    assert_eq!(refs[0].temporal_type, TemporalType::Relative);
    let before = chrono::Utc::now().date_naive() - chrono::Duration::days(1);
    let parsed = refs[0].parsed_date.unwrap();
    use_date(parsed, before);
}

fn use_date(parsed: CalendarDate, expected: chrono::NaiveDate) {
    let same = parsed.year == expected.year() && parsed.month == expected.month() && parsed.day == expected.day();
    let next = expected + chrono::Duration::days(1);
    let after_midnight = parsed.year == next.year() && parsed.month == next.month() && parsed.day == next.day();
    assert!(same || after_midnight);
}

#[test]
fn hierarchical_content_lists_ancestry_from_the_root() {
    let mut s = ready_service();
    stored(&s, "r", None, None, "r");
    stored(&s, "gp", Some("r"), None, "gp");
    stored(&s, "p", Some("gp"), None, "p");
    let mut n = Node::new("text".to_string(), JsonValue::Str("n".to_string()));
    n.id = id("n");
    n.parent_id = Some(id("p"));
    let text = s.build_hierarchical_content_for(&n).unwrap();
    assert_eq!(text, "Root: r\nLevel 1: gp\nLevel 2: p\nCurrent: n");
}

#[test]
fn upsert_twice_leaves_the_same_links() {
    let mut s = ready_service();
    let day = CalendarDate::from_ymd(2024, 6, 15).unwrap();
    stored(&s, "p", None, None, "parent");
    stored(&s, "sib", Some("p"), None, "sibling");
    stored(&s, "n", Some("p"), None, "node");
    s.upsert_node(id("n"), &day, "c".to_string(), Some(id("p")), Some(id("sib")), "text", None).unwrap();
    let first_n = s.data_store().find("n").unwrap();
    let first_sib = s.data_store().find("sib").unwrap();
    s.upsert_node(id("n"), &day, "c".to_string(), Some(id("p")), Some(id("sib")), "text", None).unwrap();
    let n = s.data_store().find("n").unwrap();
    let sib = s.data_store().find("sib").unwrap();
    assert_eq!(n.parent_id.unwrap().as_str(), "p");
    assert_eq!(n.before_sibling.as_ref().unwrap().as_str(), "sib");
    assert_eq!(first_n.before_sibling.unwrap().as_str(), "sib");
    assert_eq!(sib.before_sibling.is_none(), first_sib.before_sibling.is_none());
}

#[test]
fn ready_service_is_done_even_when_timed_out() {
    assert!(matches!(ready_step(&ServiceState::Ready, true), ReadyStep::Ready));
    assert!(matches!(ready_step(&ServiceState::Ready, false), ReadyStep::Ready));
    assert!(matches!(ready_step(&ServiceState::Initializing, true), ReadyStep::Fail(_)));
    assert!(matches!(ready_step(&ServiceState::Initializing, false), ReadyStep::Wait));
}

#[test]
fn enhanced_query_when_not_ready_and_ready() {
    let s = NodeSpaceService::new(MockStore::new(), MockEngine::new());
    let a = s.process_query_enhanced("anything").unwrap();
    assert_eq!(a.answer, "I encountered an error processing your question.");
    assert!(a.sources.is_empty() && a.hits.is_empty());
    let s = ready_service();
    stored(&s, "k", None, None, "two words");
    let a = s.process_query_enhanced("words").unwrap();
    assert_eq!(a.sources.len(), 1);
    assert_eq!(a.sources[0].node_id.as_str(), "k");
    assert_eq!(a.sources[0].content, "two words");
    assert_eq!(a.sources[0].context_tokens, 2);
    assert_eq!(a.answer, "Mock enhanced response");
}

#[test]
fn date_node_is_found_under_the_day_key() {
    let mut s = ready_service();
    let day = CalendarDate::from_ymd(2024, 6, 15).unwrap();
    assert!(s.find_date_node(&day).unwrap().is_none());
    let made = s.ensure_date_node_exists(&day).unwrap();
    assert_eq!(made.as_str(), "2024-06-15");
    assert_eq!(s.find_date_node(&day).unwrap().unwrap().as_str(), "2024-06-15");
    assert_eq!(s.ensure_date_node_exists(&day).unwrap().as_str(), "2024-06-15");
}

#[test]
fn batch_related_has_one_pair_per_distinct_id() {
    let s = ready_service();
    let batch = s.get_batch_related_nodes(&vec![id("a"), id("b"), id("a")], vec![]).unwrap();
    assert_eq!(batch.len(), 2);
    assert_eq!(batch[0].0.as_str(), "a");
    assert_eq!(batch[1].0.as_str(), "b");
}

#[test]
fn contextual_answer_request_carries_the_sources() {
    let r = contextual_answer_request("prompt", &vec![id("x")]);
    assert_eq!(r.prompt, "prompt");
    assert_eq!(r.max_tokens, 500);
    assert_eq!(r.knowledge_sources, vec!["node:x".to_string()]);
}
