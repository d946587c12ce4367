use nodespace_core_logic::links::{batch_related, links_to, related_node_ids};
use nodespace_core_logic::model::{CalendarDate, JsonValue, Node, NodeId, NodeType};
use nodespace_core_logic::query::{
    build_contextual_prompt, calculate_response_confidence, extract_colors, extract_entities_fallback,
    extract_people_descriptions, extract_scene_types, extract_visual_objects, extract_visual_refs,
    fallback_answer, generate_related_queries, insight_prompt, prompt_fits_boundary, OfflineFallback,
    DEFAULT_CONTEXT_WINDOW,
};
use nodespace_core_logic::service::{
    ai_response_outcome, ai_response_request, answer_or_fallback, apply_structure_operation,
    check_before_sibling, map_node_type, merge_positions, refreshed_node, resolve_placement, source_refs,
    SearchResult,
};
use nodespace_core_logic::temporal::{nodes_created_on, temporal_refs_on, TemporalType};

fn id(s: &str) -> NodeId {
    NodeId::from_string(s.to_string())
}

fn strs(v: &[String]) -> Vec<&str> {
    v.iter().map(|s| s.as_str()).collect()
}

fn text_node(i: &str, content: &str) -> Node {
    let mut n = Node::new("text".to_string(), JsonValue::Str(content.to_string()));
    n.id = id(i);
    n
}

#[test]
fn prompt_without_context_asks_general_question() {
    let p = build_contextual_prompt("What is Rust?", &vec![], DEFAULT_CONTEXT_WINDOW);
    assert_eq!(
        p,
        "Please provide a detailed and helpful answer to this question: What is Rust?\n\nProvide a comprehensive response with explanations and context where appropriate."
    );
}

#[test]
fn prompt_with_context_joins_pieces() {
    let ctx = vec!["first".to_string(), "second".to_string()];
    let p = build_contextual_prompt("Q?", &ctx, DEFAULT_CONTEXT_WINDOW);
    assert!(p.starts_with("Using the context below, provide a helpful answer that's both informative and conversational:\n\nContext:\nfirst\n\nsecond\n\nQuestion: Q?"));
    assert!(p.ends_with("Keep it engaging and professional.\n\nAnswer:"));
}

#[test]
fn prompt_context_is_cut_to_budget() {
    let ctx = vec!["x".repeat(500)];
    let window = 2 + 200 + 100;
    assert!(prompt_fits_boundary("Q?", &ctx, window));
    let p = build_contextual_prompt("Q?", &ctx, window);
    let expected_ctx = format!("{}...", "x".repeat(100));
    assert!(p.contains(&format!("Context:\n{}\n\nQuestion: Q?", expected_ctx)));
}

#[test]
fn prompt_cut_inside_a_character_is_detected() {
    let ctx = vec!["éé".to_string()];
    let window = 2 + 200 + 1;
    assert!(!prompt_fits_boundary("Q?", &ctx, window));
    assert!(prompt_fits_boundary("Q?", &ctx, 2 + 200 + 2));
}

#[test]
fn related_queries_follow_the_words() {
    let r = generate_related_queries("how do rust traits work");
    assert_eq!(strs(&r), vec!["What else about work?", "How does how do rust work?"]);
    let empty = generate_related_queries("   ");
    assert_eq!(strs(&empty), vec!["What else about this topic?", "How does  work?"]);
}

#[test]
fn confidence_notes_context_and_fallback() {
    let c = calculate_response_confidence(&vec!["ctx".to_string()], "Rust is fast");
    assert!(c.has_context && !c.fallback);
    let f = calculate_response_confidence(&vec![], "I am currently unable to help");
    assert!(!f.has_context && f.fallback);
    assert!(calculate_response_confidence(&vec![], "cannot generate").fallback);
}

#[test]
fn fallback_answers_follow_mode() {
    assert_eq!(
        fallback_answer(OfflineFallback::Stub, 3, "down").unwrap(),
        "I apologize, but I'm currently unable to generate a response due to AI system limitations. Please try again later."
    );
    assert_eq!(
        fallback_answer(OfflineFallback::Cache, 0, "down").unwrap(),
        "I found no relevant information to answer your question."
    );
    assert_eq!(
        fallback_answer(OfflineFallback::Cache, 12, "down").unwrap(),
        "I found 12 related documents but cannot generate a detailed response at this time. Please review the source materials directly."
    );
    let e = fallback_answer(OfflineFallback::Error, 1, "down").unwrap_err();
    assert_eq!(e.describe(), "core-logic/text-generation: Text generation failed: down");
    assert_eq!(answer_or_fallback(Ok("fine".to_string()), OfflineFallback::Error, 0).unwrap(), "fine");
}

#[test]
fn insight_prompt_separates_contents() {
    let p = insight_prompt(&vec!["a".to_string(), "b".to_string()]);
    assert_eq!(
        p,
        "Analyze the following content and provide key insights, patterns, and connections:\n\na\n\n---\n\nb\n\nProvide a concise summary with 3-5 key insights:"
    );
}

#[test]
fn entity_fallback_matches_patterns() {
    let e = extract_entities_fallback("Claire's Birthday PARTY photo with John");
    assert_eq!(strs(&e.people), vec!["claire", "john"]);
    assert_eq!(strs(&e.events), vec!["birthday", "party"]);
    assert_eq!(strs(&e.objects), vec!["photo"]);
    assert!(e.locations.is_empty());
}

#[test]
fn visual_attributes_from_query() {
    let q = "Red shirt person smiling outdoor in the Park, wearing a hat";
    assert_eq!(strs(&extract_colors(q)), vec!["red"]);
    assert_eq!(strs(&extract_visual_objects(q)), vec!["shirt", "hat", "person"]);
    assert_eq!(strs(&extract_scene_types(q)), vec!["outdoor", "park"]);
    assert_eq!(strs(&extract_people_descriptions(q)), vec!["wearing clothing", "smiling"]);
    let v = extract_visual_refs(q);
    assert_eq!(v.colors.len(), 1);
    assert_eq!(v.people_descriptions.len(), 2);
}

#[test]
fn temporal_refs_found_in_order() {
    let today = CalendarDate::from_ymd(2024, 3, 10).unwrap();
    let yesterday = CalendarDate::from_ymd(2024, 3, 9).unwrap();
    let week = CalendarDate::from_ymd(2024, 3, 3).unwrap();
    let refs = temporal_refs_on("Last week, yesterday at the BIRTHDAY", today, Some(yesterday), Some(week));
    let kinds: Vec<(&str, TemporalType)> = refs.iter().map(|r| (r.raw_text.as_str(), r.temporal_type)).collect();
    assert_eq!(
        kinds,
        vec![("yesterday", TemporalType::Relative), ("birthday", TemporalType::Event), ("last week", TemporalType::Relative)]
    );
    assert_eq!(refs[0].parsed_date, Some(yesterday));
    assert_eq!(refs[2].date_range, Some((week, today)));
    assert!(temporal_refs_on("nothing here", today, None, None).is_empty());
}

#[test]
fn nodes_created_on_a_day() {
    let mut a = text_node("a", "x");
    a.created_at = "2024-03-09T10:00:00Z".to_string();
    let mut b = text_node("b", "y");
    b.created_at = "2024-03-10T10:00:00Z".to_string();
    let mut c = text_node("c", "z");
    c.created_at = "2024-03-09T23:00:00Z".to_string();
    let nodes = vec![a, b, c];
    let day = CalendarDate::from_ymd(2024, 3, 9).unwrap();
    let found = nodes_created_on(&nodes, &day, 10);
    assert_eq!(found.iter().map(|n| n.id.as_str()).collect::<Vec<_>>(), vec!["a", "c"]);
    assert_eq!(nodes_created_on(&nodes, &day, 1).len(), 1);
}

#[test]
fn structure_indent_records_parent() {
    let mut n = text_node("n", "c");
    n.before_sibling = Some(id("s"));
    apply_structure_operation(&mut n, "indent", Some(&id("p"))).unwrap();
    assert!(n.before_sibling.is_none());
    match n.metadata.as_ref().and_then(|m| m.get("parent_id")) {
        Some(JsonValue::Str(s)) => assert_eq!(s, "p"),
        other => panic!("unexpected {:?}", other),
    }
    apply_structure_operation(&mut n, "outdent", None).unwrap();
    assert!(n.metadata.as_ref().unwrap().get("parent_id").is_none());
}

#[test]
fn structure_rejects_unknown_operation() {
    let mut n = text_node("n", "c");
    let e = apply_structure_operation(&mut n, "explode", None).unwrap_err();
    assert_eq!(
        e.describe(),
        "invalid operation: expected indent|outdent|move_up|move_down|reorder, got explode"
    );
    assert!(apply_structure_operation(&mut n, "move_up", None).is_ok());
    let mut odd = text_node("o", "c");
    odd.metadata = Some(JsonValue::Str("not an object".to_string()));
    assert!(apply_structure_operation(&mut odd, "indent", Some(&id("p"))).is_err());
}

#[test]
fn node_type_names_map_to_kinds() {
    assert_eq!(map_node_type("text").unwrap(), NodeType::Text);
    assert_eq!(map_node_type("ai-chat").unwrap(), NodeType::Text);
    assert_eq!(map_node_type("task").unwrap(), NodeType::Task);
    assert_eq!(map_node_type("image").unwrap(), NodeType::Image);
    assert_eq!(map_node_type("date").unwrap(), NodeType::Date);
    assert_eq!(map_node_type("video").unwrap_err().describe(), "core-logic: Unsupported node type: video");
}

#[test]
fn placement_of_new_nodes() {
    let day = id("2024-03-09");
    let (p, r) = resolve_placement(&day, &day, Some(id("x")), false).unwrap();
    assert!(p.is_none() && r.is_none());
    let (p, r) = resolve_placement(&id("n"), &day, None, true).unwrap();
    assert_eq!(p.unwrap().as_str(), "2024-03-09");
    assert_eq!(r.unwrap().as_str(), "2024-03-09");
    let (p, _) = resolve_placement(&id("n"), &day, Some(id("x")), true).unwrap();
    assert_eq!(p.unwrap().as_str(), "x");
    let e = resolve_placement(&id("n"), &day, Some(id("x")), false).unwrap_err();
    assert_eq!(e.describe(), "parent_node not found: x");
}

#[test]
fn before_sibling_must_share_parent() {
    let mut s = text_node("s", "c");
    s.parent_id = Some(id("p"));
    assert!(check_before_sibling(&id("s"), Some(&s), &Some(id("p"))).is_ok());
    let e = check_before_sibling(&id("s"), Some(&s), &Some(id("q"))).unwrap_err();
    assert_eq!(
        e.describe(),
        "invalid before_sibling_id: expected sibling with parent_id Some(NodeId(\"q\")), got node with parent_id Some(NodeId(\"p\"))"
    );
    let missing = check_before_sibling(&id("s"), None, &None).unwrap_err();
    assert_eq!(missing.describe(), "before_sibling not found: s");
}

#[test]
fn refreshed_node_keeps_unset_fields() {
    let mut n = text_node("n", "old");
    n.metadata = Some(JsonValue::Bool(true));
    n.parent_id = Some(id("p"));
    let r = refreshed_node(n, "new", None, &None);
    assert_eq!(r.content_str().map(|s| s.as_str()), Some("new"));
    assert!(matches!(r.metadata, Some(JsonValue::Bool(true))));
    assert_eq!(r.parent_id.as_ref().unwrap().as_str(), "p");
    let r2 = refreshed_node(r, "newer", Some(JsonValue::Null), &Some(id("q")));
    assert!(matches!(r2.metadata, Some(JsonValue::Null)));
    assert_eq!(r2.parent_id.unwrap().as_str(), "q");
}

#[test]
fn links_through_mentions_and_relationships() {
    let mut a = text_node("a", "x");
    a.metadata = Some(JsonValue::Object(vec![(
        "mentions".to_string(),
        JsonValue::Array(vec![JsonValue::Str("t".to_string())]),
    )]));
    let mut b = text_node("b", "y");
    b.metadata = Some(JsonValue::Object(vec![(
        "relationships".to_string(),
        JsonValue::Object(vec![(
            "cites".to_string(),
            JsonValue::Array(vec![JsonValue::Str("t".to_string()), JsonValue::Str("t".to_string())]),
        )]),
    )]));
    let c = text_node("c", "z");
    let types = vec!["cites".to_string()];
    assert!(links_to(&a, &vec![], &id("t")));
    assert!(!links_to(&b, &vec![], &id("t")));
    assert!(links_to(&b, &types, &id("t")));
    let all = vec![a, b, c];
    let r = related_node_ids(&all, &id("t"), &types);
    assert_eq!(r.iter().map(|i| i.as_str()).collect::<Vec<_>>(), vec!["a", "b"]);
    let batch = batch_related(&all, &vec![id("t"), id("u"), id("t")], &types);
    assert_eq!(batch.len(), 2);
    assert_eq!(batch[0].0.as_str(), "t");
    assert_eq!(batch[0].1.iter().map(|i| i.as_str()).collect::<Vec<_>>(), vec!["a", "b", "b"]);
    assert!(batch[1].1.is_empty());
}

#[test]
fn merge_keeps_first_hit_per_node_sorted_by_id() {
    let hit = |i: &str, s: u32| SearchResult { node_id: id(i), node: text_node(i, "c"), score: s };
    let hits = vec![hit("b", 1), hit("a", 2), hit("b", 3), hit("c", 4), hit("a", 5)];
    assert_eq!(merge_positions(&hits), vec![1, 0, 3]);
    assert!(merge_positions::<u32>(&vec![]).is_empty());
}

#[test]
fn ai_request_with_and_without_documents() {
    let sources = vec![id("n1")];
    let r = ai_response_request("Why?", &vec!["Document: \"a\"".to_string()], &sources);
    assert_eq!(
        r.prompt,
        "Context Information:\nDocument: \"a\"\n\nBased on the context above, answer this question: Why?\n\nProvide a helpful and accurate response:"
    );
    assert_eq!(r.max_tokens, 2000);
    assert!(r.retrieval_found_context && r.enable_link_generation);
    assert_eq!(strs(&r.knowledge_sources), vec!["node:n1"]);
    let g = ai_response_request("Why?", &vec![], &vec![]);
    assert_eq!(g.prompt, "Answer this question using your knowledge: Why?");
    assert_eq!(g.context_summary, "General knowledge query");
    assert_eq!(strs(&source_refs(&vec![id("x"), id("y")])), vec!["node:x", "node:y"]);
}

#[test]
fn ai_outcome_maps_errors() {
    assert_eq!(ai_response_outcome(Ok("hi".to_string())).unwrap(), "hi");
    let e = ai_response_outcome(Err("offline".to_string())).unwrap_err();
    assert_eq!(e.describe(), "core-logic/ai-response-generation: Real Ollama AI generation failed: offline");
}

#[test]
fn extraction_prompts_embed_the_query() {
    let e = nodespace_core_logic::query::entity_extraction_prompt("Who came?");
    assert!(e.starts_with("Extract entities from this query and respond in JSON format:\nQuery: 'Who came?'\n\nExtract:"));
    assert!(e.ends_with("{\"people\": [...], \"events\": [...], \"objects\": [...], \"locations\": [...]}"));
    let t = nodespace_core_logic::query::temporal_extraction_prompt("When?");
    assert!(t.contains("Query: 'When?'"));
    assert!(t.ends_with("determine if it's exact, relative, event-based, or fuzzy."));
}
