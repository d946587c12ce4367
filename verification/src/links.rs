use vstd::prelude::*;

use crate::hierarchy::node_views;
use crate::model::{JsonModel, JsonValue, Node, NodeId, NodeView};
use crate::text::{str_eq, views_of};

verus! {

/// Number of elements of `a` that are the JSON string `k`.
pub open spec fn count_str(a: Seq<JsonModel>, k: Seq<char>) -> nat
    decreases a.len(),
{
    if a.len() == 0 {
        0
    } else {
        count_str(a.drop_last(), k) + if a.last() == JsonModel::Str(k) {
            1nat
        } else {
            0nat
        }
    }
}

/// The elements of the array stored under `name` in an object, if there is one.
pub open spec fn array_member(v: JsonModel, name: Seq<char>) -> Seq<JsonModel> {
    match v {
        JsonModel::Object(m) => if m.contains_key(name) {
            match m[name] {
                JsonModel::Array(a) => a,
                _ => Seq::empty(),
            }
        } else {
            Seq::empty()
        },
        _ => Seq::empty(),
    }
}

/// How many times the relationship lists named in `types` (each name as often as it
/// occurs) list `k`.
pub open spec fn typed_count(rels: JsonModel, types: Seq<Seq<char>>, k: Seq<char>) -> nat
    decreases types.len(),
{
    if types.len() == 0 {
        0
    } else {
        typed_count(rels, types.drop_last(), k) + count_str(array_member(rels, types.last()), k)
    }
}

/// The member `name` of an object, if there is one.
pub open spec fn member(v: JsonModel, name: Seq<char>) -> Option<JsonModel> {
    match v {
        JsonModel::Object(m) => if m.contains_key(name) {
            Some(m[name])
        } else {
            None
        },
        _ => None,
    }
}

/// How many times the relationships of a metadata document, of the given types, list
/// `k` (none when no type is given).
pub open spec fn relationship_count(m: JsonModel, types: Seq<Seq<char>>, k: Seq<char>) -> nat {
    if types.len() == 0 {
        0
    } else {
        match member(m, "relationships"@) {
            Some(rels) => typed_count(rels, types, k),
            None => 0,
        }
    }
}

/// How many times a node's metadata links to `k`: its mentions, and, when relationship
/// types are given, its relationship lists of those types.
pub open spec fn link_count(meta: Option<JsonModel>, types: Seq<Seq<char>>, k: Seq<char>) -> nat {
    match meta {
        None => 0,
        Some(m) => count_str(array_member(m, "mentions"@), k) + relationship_count(m, types, k),
    }
}

/// Counts the elements of an array that are the JSON string `k`.
fn count_str_in(a: &Vec<JsonValue>, k: &str) -> (r: usize)
    ensures
        r == count_str(a@.map_values(|x: JsonValue| x@), k@),
{
    let ghost av = a@.map_values(|x: JsonValue| x@);
    let mut n: usize = 0;
    let mut i: usize = 0;
    while i < a.len()
        invariant
            i <= a@.len(),
            av == a@.map_values(|x: JsonValue| x@),
            n == count_str(av.take(i as int), k@),
            n <= i,
        decreases a@.len() - i,
    {
        proof {
            assert(av.take(i + 1).drop_last() =~= av.take(i as int));
            assert(av.take(i + 1).last() == a@[i as int]@);
        }
        match a[i].as_str() {
            Some(s) => {
                if str_eq(s.as_str(), k) {
                    n = n + 1;
                }
            },
            None => {},
        }
        i = i + 1;
    }
    proof {
        assert(av.take(a@.len() as int) =~= av);
    }
    n
}

/// The elements of the array member `name` of `v`, counted for `k`.
fn count_in_member(v: &JsonValue, name: &str, k: &str) -> (r: usize)
    ensures
        r == count_str(array_member(v@, name@), k@),
{
    match v.get(name) {
        Some(member) => match member.as_array() {
            Some(a) => {
                let r = count_str_in(a, k);
                proof {
                    assert(a@.map_values(|x: JsonValue| x@) =~= array_member(v@, name@));
                }
                r
            },
            None => {
                proof {
                    assert(array_member(v@, name@) =~= Seq::<JsonModel>::empty());
                }
                0
            },
        },
        None => {
            proof {
                assert(array_member(v@, name@) =~= Seq::<JsonModel>::empty());
            }
            0
        },
    }
}

/// Whether the relationship lists of the given types list `target`.
fn typed_links(rels: &JsonValue, types: &Vec<String>, target: &str) -> (r: bool)
    ensures
        r == (typed_count(rels@, views_of(types@), target@) > 0),
{
    let ghost tv = views_of(types@);
    let mut i: usize = 0;
    while i < types.len()
        invariant
            i <= types@.len(),
            tv == views_of(types@),
            typed_count(rels@, tv.take(i as int), target@) == 0,
        decreases types@.len() - i,
    {
        proof {
            assert(tv.take(i + 1).drop_last() =~= tv.take(i as int));
            assert(tv.take(i + 1).last() == types@[i as int]@);
        }
        if count_in_member(rels, types[i].as_str(), target) > 0 {
            proof {
                lemma_typed_count_mono(rels@, tv, i + 1, target@);
            }
            return true;
        }
        i = i + 1;
    }
    proof {
        assert(tv.take(types@.len() as int) =~= tv);
    }
    false
}

/// Whether the relationships of a metadata document link to `target`.
fn relationship_links(meta: &JsonValue, types: &Vec<String>, target: &str) -> (r: bool)
    ensures
        r == (relationship_count(meta@, views_of(types@), target@) > 0),
{
    if types.len() == 0 {
        return false;
    }
    match meta.get("relationships") {
        None => false,
        Some(rels) => typed_links(rels, types, target),
    }
}

/// Whether a node's metadata links to `target` (see `link_count`).
pub fn links_to(node: &Node, types: &Vec<String>, target: &NodeId) -> (r: bool)
    ensures
        r == (link_count(node@.metadata, views_of(types@), target@) > 0),
{
    match &node.metadata {
        None => false,
        Some(meta) => count_in_member(meta, "mentions", target.as_str()) > 0 || relationship_links(
            meta,
            types,
            target.as_str(),
        ),
    }
}

/// A longer prefix of the types never counts fewer links.
proof fn lemma_typed_count_mono(rels: JsonModel, types: Seq<Seq<char>>, k: int, t: Seq<char>)
    requires
        0 <= k <= types.len(),
    ensures
        typed_count(rels, types.take(k), t) <= typed_count(rels, types, t),
    decreases types.len(),
{
    if k < types.len() {
        assert(types.drop_last().take(k) =~= types.take(k));
        lemma_typed_count_mono(rels, types.drop_last(), k, t);
    } else {
        assert(types.take(k) =~= types);
    }
}

/// Whether a node's metadata links to `target`.
pub open spec fn links_pred(types: Seq<Seq<char>>, target: Seq<char>) -> spec_fn(NodeView) -> bool {
    |n: NodeView| link_count(n.metadata, types, target) > 0
}

/// The identifiers of the nodes whose metadata links to `target`, in order.
pub open spec fn linking_ids(nodes: Seq<NodeView>, types: Seq<Seq<char>>, target: Seq<char>) -> Seq<Seq<char>> {
    crate::hierarchy::ids_of(crate::lru::kept(nodes, links_pred(types, target)))
}

/// The identifiers of the nodes of `all_nodes` whose metadata links to `target`.
pub fn related_node_ids(all_nodes: &Vec<Node>, target: &NodeId, types: &Vec<String>) -> (r: Vec<NodeId>)
    ensures
        crate::embedding_cache::id_views(r@) == linking_ids(node_views(all_nodes@), views_of(types@), target@),
{
    let ghost nv = node_views(all_nodes@);
    let ghost keep = links_pred(views_of(types@), target@);
    let mut r: Vec<NodeId> = Vec::new();
    let mut i: usize = 0;
    proof {
        assert(crate::embedding_cache::id_views(r@) =~= crate::hierarchy::ids_of(crate::lru::kept(nv.take(0), keep)));
    }
    while i < all_nodes.len()
        invariant
            i <= all_nodes@.len(),
            nv == node_views(all_nodes@),
            keep == links_pred(views_of(types@), target@),
            crate::embedding_cache::id_views(r@) == crate::hierarchy::ids_of(crate::lru::kept(nv.take(i as int), keep)),
        decreases all_nodes@.len() - i,
    {
        proof {
            crate::lru::lemma_kept_take(nv, keep, i as int);
        }
        let ghost before = r@;
        let ghost prev = crate::lru::kept(nv.take(i as int), keep);
        if links_to(&all_nodes[i], types, target) {
            r.push(all_nodes[i].id.clone_id());
            proof {
                assert(crate::embedding_cache::id_views(r@) =~= crate::embedding_cache::id_views(before).push(nv[i as int].id));
                assert(crate::hierarchy::ids_of(prev.push(nv[i as int])) =~= crate::hierarchy::ids_of(prev).push(nv[i as int].id));
            }
        }
        i = i + 1;
    }
    proof {
        assert(nv.take(all_nodes@.len() as int) =~= nv);
    }
    r
}

} // verus!

verus! {

/// `n` copies of an identifier.
pub open spec fn repeat_id(id: Seq<char>, n: nat) -> Seq<Seq<char>> {
    Seq::new(n, |i: int| id)
}

proof fn lemma_repeat_add(id: Seq<char>, a: nat, b: nat)
    ensures
        repeat_id(id, a) + repeat_id(id, b) == repeat_id(id, a + b),
{
    assert(repeat_id(id, a) + repeat_id(id, b) =~= repeat_id(id, a + b));
}

/// For each node in order, its identifier once per link from its metadata to `k`.
pub open spec fn links_into(nodes: Seq<NodeView>, types: Seq<Seq<char>>, k: Seq<char>) -> Seq<Seq<char>>
    decreases nodes.len(),
{
    if nodes.len() == 0 {
        Seq::empty()
    } else {
        links_into(nodes.drop_last(), types, k) + repeat_id(
            nodes.last().id,
            link_count(nodes.last().metadata, types, k),
        )
    }
}

/// Appends `id` once per element of `a` that is the JSON string `k`.
fn push_matches(out: &mut Vec<NodeId>, a: &Vec<JsonValue>, k: &str, id: &NodeId)
    ensures
        crate::embedding_cache::id_views(final(out)@) == crate::embedding_cache::id_views(old(out)@)
            + repeat_id(id@, count_str(a@.map_values(|x: JsonValue| x@), k@)),
{
    let ghost av = a@.map_values(|x: JsonValue| x@);
    let ghost start = crate::embedding_cache::id_views(out@);
    let mut i: usize = 0;
    proof {
        assert(start =~= start + repeat_id(id@, 0));
    }
    while i < a.len()
        invariant
            i <= a@.len(),
            av == a@.map_values(|x: JsonValue| x@),
            crate::embedding_cache::id_views(out@) == start + repeat_id(id@, count_str(av.take(i as int), k@)),
        decreases a@.len() - i,
    {
        proof {
            assert(av.take(i + 1).drop_last() =~= av.take(i as int));
            assert(av.take(i + 1).last() == a@[i as int]@);
        }
        let ghost before = out@;
        let ghost c = count_str(av.take(i as int), k@);
        let hit = match a[i].as_str() {
            Some(s) => str_eq(s.as_str(), k),
            None => false,
        };
        if hit {
            out.push(id.clone_id());
            proof {
                assert(crate::embedding_cache::id_views(out@) =~= crate::embedding_cache::id_views(before).push(id@));
                assert(repeat_id(id@, c).push(id@) =~= repeat_id(id@, c + 1));
                assert(crate::embedding_cache::id_views(out@) =~= start + repeat_id(id@, c + 1));
            }
        }
        i = i + 1;
    }
    proof {
        assert(av.take(a@.len() as int) =~= av);
    }
}

/// Appends `id` once per element of the array member `name` of `v` that is `k`.
fn push_member_matches(out: &mut Vec<NodeId>, v: &JsonValue, name: &str, k: &str, id: &NodeId)
    ensures
        crate::embedding_cache::id_views(final(out)@) == crate::embedding_cache::id_views(old(out)@)
            + repeat_id(id@, count_str(array_member(v@, name@), k@)),
{
    match v.get(name) {
        Some(m) => match m.as_array() {
            Some(a) => {
                proof {
                    assert(a@.map_values(|x: JsonValue| x@) =~= array_member(v@, name@));
                }
                push_matches(out, a, k, id);
            },
            None => {
                proof {
                    assert(array_member(v@, name@) =~= Seq::<JsonModel>::empty());
                    assert(crate::embedding_cache::id_views(out@) =~= crate::embedding_cache::id_views(out@) + repeat_id(id@, 0));
                }
            },
        },
        None => {
            proof {
                assert(array_member(v@, name@) =~= Seq::<JsonModel>::empty());
                assert(crate::embedding_cache::id_views(out@) =~= crate::embedding_cache::id_views(out@) + repeat_id(id@, 0));
            }
        },
    }
}

/// Appends `id` once per relationship link to `k` of the given types.
fn push_relationship_links(out: &mut Vec<NodeId>, meta: &JsonValue, types: &Vec<String>, k: &str, id: &NodeId)
    ensures
        crate::embedding_cache::id_views(final(out)@) == crate::embedding_cache::id_views(old(out)@)
            + repeat_id(id@, relationship_count(meta@, views_of(types@), k@)),
{
    let ghost start = crate::embedding_cache::id_views(out@);
    let ghost tv = views_of(types@);
    if types.len() == 0 {
        proof {
            assert(start =~= start + repeat_id(id@, 0));
        }
        return;
    }
    match meta.get("relationships") {
        None => {
            proof {
                assert(start =~= start + repeat_id(id@, 0));
            }
        },
        Some(rels) => {
            let mut i: usize = 0;
            proof {
                assert(tv.take(0) =~= Seq::<Seq<char>>::empty());
                assert(start =~= start + repeat_id(id@, 0));
            }
            while i < types.len()
                invariant
                    i <= types@.len(),
                    tv == views_of(types@),
                    crate::embedding_cache::id_views(out@) == start + repeat_id(
                        id@,
                        typed_count(rels@, tv.take(i as int), k@),
                    ),
                decreases types@.len() - i,
            {
                proof {
                    assert(tv.take(i + 1).drop_last() =~= tv.take(i as int));
                    assert(tv.take(i + 1).last() == types@[i as int]@);
                    lemma_repeat_add(
                        id@,
                        typed_count(rels@, tv.take(i as int), k@),
                        count_str(array_member(rels@, types@[i as int]@), k@),
                    );
                }
                push_member_matches(out, rels, types[i].as_str(), k, id);
                i = i + 1;
            }
            proof {
                assert(tv.take(types@.len() as int) =~= tv);
            }
        },
    }
}

/// Appends the identifier of `node` once per link from its metadata to `k`.
fn push_links(out: &mut Vec<NodeId>, node: &Node, types: &Vec<String>, k: &str)
    ensures
        crate::embedding_cache::id_views(final(out)@) == crate::embedding_cache::id_views(old(out)@)
            + repeat_id(node@.id, link_count(node@.metadata, views_of(types@), k@)),
{
    let ghost start = crate::embedding_cache::id_views(out@);
    match &node.metadata {
        None => {
            proof {
                assert(start =~= start + repeat_id(node.id@, 0));
            }
        },
        Some(meta) => {
            push_member_matches(out, meta, "mentions", k, &node.id);
            push_relationship_links(out, meta, types, k, &node.id);
            proof {
                lemma_repeat_add(
                    node.id@,
                    count_str(array_member(meta@, "mentions"@), k@),
                    relationship_count(meta@, views_of(types@), k@),
                );
            }
        },
    }
}

/// For each node, its identifier once per link from its metadata to `target`.
#[verifier::rlimit(40)]
pub fn links_into_target(all_nodes: &Vec<Node>, types: &Vec<String>, target: &NodeId) -> (r: Vec<NodeId>)
    ensures
        crate::embedding_cache::id_views(r@) == links_into(node_views(all_nodes@), views_of(types@), target@),
{
    let ghost nv = node_views(all_nodes@);
    let mut out: Vec<NodeId> = Vec::new();
    let mut i: usize = 0;
    proof {
        assert(crate::embedding_cache::id_views(out@) =~= Seq::<Seq<char>>::empty());
    }
    while i < all_nodes.len()
        invariant
            i <= all_nodes@.len(),
            nv == node_views(all_nodes@),
            crate::embedding_cache::id_views(out@) == links_into(nv.take(i as int), views_of(types@), target@),
        decreases all_nodes@.len() - i,
    {
        let ghost prev = links_into(nv.take(i as int), views_of(types@), target@);
        let ghost node_v = nv[i as int];
        proof {
            assert(nv.take(i + 1).drop_last() =~= nv.take(i as int));
            assert(nv.take(i + 1).last() == node_v);
            assert(links_into(nv.take(i + 1), views_of(types@), target@) == prev + repeat_id(
                node_v.id,
                link_count(node_v.metadata, views_of(types@), target@),
            ));
        }
        push_links(&mut out, &all_nodes[i], types, target.as_str());
        i = i + 1;
    }
    proof {
        assert(nv.take(all_nodes@.len() as int) =~= nv);
    }
    out
}

/// The requested identifiers without repetitions, in order of first request.
pub open spec fn first_occurrences(ids: Seq<Seq<char>>) -> Seq<Seq<char>>
    decreases ids.len(),
{
    if ids.len() == 0 {
        ids
    } else {
        let prev = first_occurrences(ids.drop_last());
        if prev.contains(ids.last()) {
            prev
        } else {
            prev.push(ids.last())
        }
    }
}

/// For each requested identifier (once each, in order of first request), the
/// identifiers of the nodes linking to it, once per link, in node order.
pub fn batch_related(all_nodes: &Vec<Node>, node_ids: &Vec<NodeId>, types: &Vec<String>) -> (r: Vec<(NodeId, Vec<NodeId>)>)
    ensures
        r@.len() == first_occurrences(crate::embedding_cache::id_views(node_ids@)).len(),
        forall|i: int|
            0 <= i < r@.len() ==> (#[trigger] r@[i]).0@ == first_occurrences(
                crate::embedding_cache::id_views(node_ids@),
            )[i] && crate::embedding_cache::id_views(r@[i].1@) == links_into(
                node_views(all_nodes@),
                views_of(types@),
                r@[i].0@,
            ),
{
    let ghost iv = crate::embedding_cache::id_views(node_ids@);
    let mut keys: Vec<NodeId> = Vec::new();
    let mut i: usize = 0;
    proof {
        assert(crate::embedding_cache::id_views(keys@) =~= first_occurrences(iv.take(0)));
    }
    while i < node_ids.len()
        invariant
            i <= node_ids@.len(),
            iv == crate::embedding_cache::id_views(node_ids@),
            crate::embedding_cache::id_views(keys@) == first_occurrences(iv.take(i as int)),
        decreases node_ids@.len() - i,
    {
        proof {
            assert(iv.take(i + 1).drop_last() =~= iv.take(i as int));
            assert(iv.take(i + 1).last() == node_ids@[i as int]@);
        }
        let ghost before = keys@;
        if !crate::embedding_cache::contains_id(&keys, &node_ids[i]) {
            keys.push(node_ids[i].clone_id());
            proof {
                assert(crate::embedding_cache::id_views(keys@) =~= crate::embedding_cache::id_views(before).push(node_ids@[i as int]@));
            }
        }
        i = i + 1;
    }
    proof {
        assert(iv.take(node_ids@.len() as int) =~= iv);
    }
    let ghost kv = crate::embedding_cache::id_views(keys@);
    let mut r: Vec<(NodeId, Vec<NodeId>)> = Vec::new();
    let mut j: usize = 0;
    while j < keys.len()
        invariant
            j <= keys@.len(),
            kv == crate::embedding_cache::id_views(keys@),
            kv == first_occurrences(iv),
            r@.len() == j,
            forall|t: int|
                0 <= t < j ==> (#[trigger] r@[t]).0@ == kv[t] && crate::embedding_cache::id_views(
                    r@[t].1@,
                ) == links_into(node_views(all_nodes@), views_of(types@), r@[t].0@),
        decreases keys@.len() - j,
    {
        let list = links_into_target(all_nodes, types, &keys[j]);
        r.push((keys[j].clone_id(), list));
        j = j + 1;
    }
    r
}


/// An array that holds the string `k` counts it at least once.
proof fn lemma_count_str_pos(a: Seq<JsonModel>, k: Seq<char>)
    requires
        a.contains(JsonModel::Str(k)),
    ensures
        count_str(a, k) > 0,
    decreases a.len(),
{
    if a.last() != JsonModel::Str(k) {
        let j = choose|j: int| 0 <= j < a.len() && a[j] == JsonModel::Str(k);
        assert(a.drop_last()[j] == a[j]);
        lemma_count_str_pos(a.drop_last(), k);
    }
}

/// The count over several relationship types is at least the count of any one of them.
proof fn lemma_typed_count_ge(rels: JsonModel, types: Seq<Seq<char>>, k: Seq<char>, j: int)
    requires
        0 <= j < types.len(),
    ensures
        typed_count(rels, types, k) >= count_str(array_member(rels, types[j]), k),
    decreases types.len(),
{
    if j < types.len() - 1 {
        assert(types.drop_last()[j] == types[j]);
        lemma_typed_count_ge(rels, types.drop_last(), k, j);
    }
}

/// A node with a link is listed in `links_into` under its identifier.
proof fn lemma_links_into_contains(nodes: Seq<NodeView>, types: Seq<Seq<char>>, k: Seq<char>, i: int)
    requires
        0 <= i < nodes.len(),
        link_count(nodes[i].metadata, types, k) > 0,
    ensures
        links_into(nodes, types, k).contains(nodes[i].id),
    decreases nodes.len(),
{
    let prev = links_into(nodes.drop_last(), types, k);
    let tail = repeat_id(nodes.last().id, link_count(nodes.last().metadata, types, k));
    assert(links_into(nodes, types, k) == prev + tail);
    if i == nodes.len() - 1 {
        assert((prev + tail)[prev.len() as int] == tail[0]);
    } else {
        assert(nodes.drop_last()[i] == nodes[i]);
        lemma_links_into_contains(nodes.drop_last(), types, k, i);
        let p = choose|p: int| 0 <= p < prev.len() && prev[p] == nodes[i].id;
        assert((prev + tail)[p] == prev[p]);
    }
}

/// A node whose metadata relationships list the target under any one of the given
/// relationship types is related to the target: both the related-node lookup and the
/// batch lookup list it.
pub proof fn law_any_relationship_type_relates(
    nodes: Seq<NodeView>,
    types: Seq<Seq<char>>,
    target: Seq<char>,
    i: int,
    j: int,
    rels: Map<Seq<char>, JsonModel>,
    list: Seq<JsonModel>,
)
    requires
        0 <= i < nodes.len(),
        0 <= j < types.len(),
        nodes[i].metadata matches Some(JsonModel::Object(m)) && m.contains_key("relationships"@) && m["relationships"@]
            == JsonModel::Object(rels),
        rels.contains_key(types[j]),
        rels[types[j]] == JsonModel::Array(list),
        list.contains(JsonModel::Str(target)),
    ensures
        linking_ids(nodes, types, target).contains(nodes[i].id),
        links_into(nodes, types, target).contains(nodes[i].id),
{
    let r = JsonModel::Object(rels);
    assert(array_member(r, types[j]) == list);
    lemma_count_str_pos(list, target);
    lemma_typed_count_ge(r, types, target, j);
    let m = nodes[i].metadata->0;
    assert(member(m, "relationships"@) == Some(r));
    assert(link_count(nodes[i].metadata, types, target) > 0);
    lemma_links_into_contains(nodes, types, target, i);
    crate::lru::lemma_kept_contains(nodes, links_pred(types, target), i);
    let kk = crate::lru::kept(nodes, links_pred(types, target));
    let p = choose|p: int| 0 <= p < kk.len() && kk[p] == nodes[i];
    assert(crate::hierarchy::ids_of(kk)[p] == nodes[i].id);
}

} // verus!
