use vstd::prelude::*;

use crate::embedding_cache::{contains_id, id_views};
use crate::lru::{find_key, has_key, kept, lookup};
use crate::model::{Node, NodeId, NodeView, opt_is};
use crate::ordering::{ins_sorted, lemma_ins_at, stable_sorted, text_less, text_lt};

verus! {

/// The values of a list of nodes.
pub open spec fn node_views(v: Seq<Node>) -> Seq<NodeView> {
    v.map_values(|n: Node| n@)
}

/// Whether `n` names `parent` as its parent.
pub open spec fn is_child_of(n: NodeView, parent: Seq<char>) -> bool {
    n.parent_id == Some(parent)
}

/// The nodes of `nodes` whose parent is `parent`, in their order.
pub open spec fn children_in(nodes: Seq<NodeView>, parent: Seq<char>) -> Seq<NodeView> {
    kept(nodes, |n: NodeView| is_child_of(n, parent))
}

/// The descendants of `u` as a depth-first walk with an explicit stack finds them: the
/// children of `u` in order, then the descendants of its children, last child first.
/// A node already on the current path `path` is listed but not expanded again.
pub open spec fn descendants(
    ch: spec_fn(Seq<char>) -> Seq<NodeView>,
    univ: Set<Seq<char>>,
    u: Seq<char>,
    path: Set<Seq<char>>,
) -> Seq<NodeView>
    decreases univ.difference(path).len(), 0int, 0int,
{
    if !univ.finite() || path.contains(u) || !univ.contains(u) {
        ch(u)
    } else {
        proof {
            lemma_measure_shrinks(univ, path, u);
        }
        ch(u) + descendants_rev(ch, univ, ch(u), ch(u).len() as int, path.insert(u))
    }
}

/// The descendants of `cs[k - 1]`, then of `cs[k - 2]`, down to `cs[0]`, skipping
/// nodes on the path.
pub open spec fn descendants_rev(
    ch: spec_fn(Seq<char>) -> Seq<NodeView>,
    univ: Set<Seq<char>>,
    cs: Seq<NodeView>,
    k: int,
    path: Set<Seq<char>>,
) -> Seq<NodeView>
    decreases univ.difference(path).len(), 1int, k,
{
    if k <= 0 || k > cs.len() {
        Seq::empty()
    } else {
        let c = cs[k - 1].id;
        let here = if path.contains(c) {
            Seq::empty()
        } else {
            descendants(ch, univ, c, path)
        };
        here + descendants_rev(ch, univ, cs, k - 1, path)
    }
}

/// Entering a member of a finite set that is off the path shrinks what is off the path.
pub proof fn lemma_measure_shrinks(univ: Set<Seq<char>>, path: Set<Seq<char>>, u: Seq<char>)
    requires
        univ.finite(),
        univ.contains(u),
        !path.contains(u),
    ensures
        univ.difference(path.insert(u)).len() < univ.difference(path).len(),
{
    let a = univ.difference(path);
    assert(univ.difference(path.insert(u)) =~= a.remove(u));
    vstd::set::axiom_set_difference_finite(univ, path);
    vstd::set::axiom_set_remove_len(a, u);
}

/// Every identifier and every parent identifier that occurs in `nodes`.
pub open spec fn scan_universe(nodes: Seq<NodeView>) -> Set<Seq<char>>
    decreases nodes.len(),
{
    if nodes.len() == 0 {
        Set::empty()
    } else {
        let rest = scan_universe(nodes.drop_last()).insert(nodes.last().id);
        match nodes.last().parent_id {
            Some(p) => rest.insert(p),
            None => rest,
        }
    }
}

proof fn lemma_scan_universe(nodes: Seq<NodeView>)
    ensures
        scan_universe(nodes).finite(),
        forall|i: int| 0 <= i < nodes.len() ==> scan_universe(nodes).contains(#[trigger] nodes[i].id),
        forall|i: int|
            0 <= i < nodes.len() && #[trigger] nodes[i].parent_id is Some ==> scan_universe(
                nodes,
            ).contains(nodes[i].parent_id->0),
    decreases nodes.len(),
{
    if nodes.len() > 0 {
        let t = nodes.drop_last();
        lemma_scan_universe(t);
        assert forall|i: int| 0 <= i < nodes.len() implies scan_universe(nodes).contains(
            #[trigger] nodes[i].id,
        ) by {
            if i < t.len() {
                assert(t[i] == nodes[i]);
            }
        }
        assert forall|i: int|
            0 <= i < nodes.len() && #[trigger] nodes[i].parent_id is Some implies scan_universe(
                nodes,
            ).contains(nodes[i].parent_id->0) by {
            if i < t.len() {
                assert(t[i] == nodes[i]);
            }
        }
    }
}

/// Copies of the nodes of `all_nodes` whose parent is `parent_id`, in their order.
pub fn children_of(all_nodes: &[Node], parent_id: &NodeId) -> (r: Vec<Node>)
    ensures
        node_views(r@) == children_in(node_views(all_nodes@), parent_id@),
{
    let ghost all = node_views(all_nodes@);
    let mut r: Vec<Node> = Vec::new();
    let mut i: usize = 0;
    while i < all_nodes.len()
        invariant
            i <= all_nodes@.len(),
            all == node_views(all_nodes@),
            node_views(r@) == children_in(all.take(i as int), parent_id@),
        decreases all_nodes@.len() - i,
    {
        let ghost before = node_views(r@);
        proof {
            assert(all.take(i + 1).drop_last() =~= all.take(i as int));
            assert(all.take(i + 1).last() == all_nodes@[i as int]@);
        }
        if crate::model::opt_id_is(&all_nodes[i].parent_id, parent_id) {
            r.push(all_nodes[i].dup());
            proof {
                assert(node_views(r@) =~= before.push(all_nodes@[i as int]@));
            }
        }
        i = i + 1;
    }
    proof {
        assert(all.take(all_nodes@.len() as int) =~= all);
    }
    r
}

/// The descendants of `parent_id` among `all_nodes`, found by scanning the whole list
/// for the children of each node taken from the work stack.
pub fn get_all_descendants(all_nodes: &[Node], parent_id: &NodeId) -> (r: Vec<Node>)
    ensures
        node_views(r@) == descendants(
            |u: Seq<char>| children_in(node_views(all_nodes@), u),
            scan_universe(node_views(all_nodes@)),
            parent_id@,
            Set::empty(),
        ),
{
    let mut out: Vec<Node> = Vec::new();
    let mut stack: Vec<NodeId> = Vec::new();
    proof {
        assert(id_views(stack@).to_set() =~= Set::<Seq<char>>::empty());
        lemma_scan_universe(node_views(all_nodes@));
    }
    collect_scanned(all_nodes, parent_id, &mut stack, &mut out, Ghost(Set::empty()));
    proof {
        assert(node_views(out@) =~= Seq::<NodeView>::empty() + descendants(
            |u: Seq<char>| children_in(node_views(all_nodes@), u),
            scan_universe(node_views(all_nodes@)),
            parent_id@,
            Set::empty(),
        ));
    }
    out
}

/// Appends the descendants of `u` (see `descendants`) to `out`.
fn collect_scanned(
    all_nodes: &[Node],
    u: &NodeId,
    stack: &mut Vec<NodeId>,
    out: &mut Vec<Node>,
    Ghost(path): Ghost<Set<Seq<char>>>,
)
    requires
        id_views(old(stack)@).to_set() == path,
        !path.contains(u@),
        scan_universe(node_views(all_nodes@)).finite(),
    ensures
        id_views(final(stack)@) == id_views(old(stack)@),
        node_views(final(out)@) == node_views(old(out)@) + descendants(
            |v: Seq<char>| children_in(node_views(all_nodes@), v),
            scan_universe(node_views(all_nodes@)),
            u@,
            path,
        ),
    decreases scan_universe(node_views(all_nodes@)).difference(path).len(),
{
    let ghost ch = |v: Seq<char>| children_in(node_views(all_nodes@), v);
    let ghost univ = scan_universe(node_views(all_nodes@));
    let cs = children_of(all_nodes, u);
    let ghost csv = node_views(cs@);
    let ghost start = node_views(out@);
    let mut i: usize = 0;
    while i < cs.len()
        invariant
            i <= cs@.len(),
            csv == node_views(cs@),
            node_views(out@) == start + csv.take(i as int),
        decreases cs@.len() - i,
    {
        let ghost before = node_views(out@);
        out.push(cs[i].dup());
        proof {
            assert(node_views(out@) =~= before.push(cs@[i as int]@));
            assert(csv.take(i + 1) =~= csv.take(i as int).push(cs@[i as int]@));
            assert(node_views(out@) =~= start + csv.take(i + 1));
        }
        i = i + 1;
    }
    proof {
        assert(csv.take(cs@.len() as int) =~= csv);
        assert(csv == ch(u@));
    }
    proof {
        lemma_children_in_universe(node_views(all_nodes@), u@);
    }
    let ghost old_stack = id_views(stack@);
    let ghost old_vec = stack@;
    stack.push(u.clone_id());
    let ghost path2 = path.insert(u@);
    proof {
        assert(stack@.drop_last() =~= old_vec);
        lemma_push_ids(stack@, old_stack, u@, path);
    }
    let ghost mid = node_views(out@);
    let mut k: usize = cs.len();
    while k > 0
        invariant
            k <= cs@.len(),
            csv == node_views(cs@),
            csv == ch(u@),
            ch == (|v: Seq<char>| children_in(node_views(all_nodes@), v)),
            univ == scan_universe(node_views(all_nodes@)),
            univ.finite(),
            csv.len() > 0 ==> univ.contains(u@),
            !path.contains(u@),
            path2 == path.insert(u@),
            id_views(stack@) == old_stack.push(u@),
            id_views(stack@).to_set() == path2,
            node_views(out@) == mid + desc_between(ch, univ, csv, k as int, csv.len() as int, path2),
        decreases k,
    {
        k = k - 1;
        let ghost before = node_views(out@);
        proof {
            lemma_ids_contains(stack@, cs@[k as int].id@);
        }
        if !contains_id(stack, &cs[k].id) {
            proof {
                lemma_measure_shrinks(univ, path, u@);
            }
            collect_scanned(all_nodes, &cs[k].id, stack, out, Ghost(path2));
        }
        proof {
            assert(csv[k as int].id == cs@[k as int].id@);
            assert(node_views(out@) =~= mid + desc_between(ch, univ, csv, k as int, csv.len() as int, path2));
        }
    }
    let ghost pushed = stack@;
    let _ = stack.pop();
    proof {
        lemma_pop_ids(pushed, stack@, old_stack, u@);
        lemma_desc_between_full(ch, univ, csv, csv.len() as int, path2);
        if csv.len() == 0 {
            assert(desc_between(ch, univ, csv, 0, 0, path2) =~= Seq::<NodeView>::empty());
            assert(descendants_rev(ch, univ, csv, 0, path2) =~= Seq::<NodeView>::empty());
        }
        assert(node_views(out@) =~= start + descendants(ch, univ, u@, path));
    }
}

/// The expansions of `cs[i]` for `k <= i < n`, the highest index first.
pub open spec fn desc_between(
    ch: spec_fn(Seq<char>) -> Seq<NodeView>,
    univ: Set<Seq<char>>,
    cs: Seq<NodeView>,
    k: int,
    n: int,
    path: Set<Seq<char>>,
) -> Seq<NodeView>
    decreases n - k,
{
    if k >= n || k < 0 || n > cs.len() {
        Seq::empty()
    } else {
        desc_between(ch, univ, cs, k + 1, n, path) + expansion(ch, univ, cs[k].id, path)
    }
}

/// The descendants of `c`, or nothing when `c` is on the path.
pub open spec fn expansion(
    ch: spec_fn(Seq<char>) -> Seq<NodeView>,
    univ: Set<Seq<char>>,
    c: Seq<char>,
    path: Set<Seq<char>>,
) -> Seq<NodeView> {
    if path.contains(c) {
        Seq::empty()
    } else {
        descendants(ch, univ, c, path)
    }
}

proof fn lemma_desc_between_top(
    ch: spec_fn(Seq<char>) -> Seq<NodeView>,
    univ: Set<Seq<char>>,
    cs: Seq<NodeView>,
    k: int,
    n: int,
    path: Set<Seq<char>>,
)
    requires
        0 <= k < n <= cs.len(),
    ensures
        desc_between(ch, univ, cs, k, n, path) == expansion(ch, univ, cs[n - 1].id, path)
            + desc_between(ch, univ, cs, k, n - 1, path),
    decreases n - k,
{
    if k + 1 < n {
        lemma_desc_between_top(ch, univ, cs, k + 1, n, path);
        assert(desc_between(ch, univ, cs, k, n, path) =~= expansion(ch, univ, cs[n - 1].id, path)
            + desc_between(ch, univ, cs, k, n - 1, path));
    } else {
        assert(desc_between(ch, univ, cs, k + 1, n, path) =~= Seq::<NodeView>::empty());
        assert(desc_between(ch, univ, cs, k, n - 1, path) =~= Seq::<NodeView>::empty());
        assert(desc_between(ch, univ, cs, k, n, path) =~= expansion(ch, univ, cs[n - 1].id, path)
            + desc_between(ch, univ, cs, k, n - 1, path));
    }
}

/// Expanding all of `cs[..n]` from the highest index is the reversed walk.
proof fn lemma_desc_between_full(
    ch: spec_fn(Seq<char>) -> Seq<NodeView>,
    univ: Set<Seq<char>>,
    cs: Seq<NodeView>,
    n: int,
    path: Set<Seq<char>>,
)
    requires
        0 <= n <= cs.len(),
    ensures
        desc_between(ch, univ, cs, 0, n, path) == descendants_rev(ch, univ, cs, n, path),
    decreases n,
{
    if n > 0 {
        lemma_desc_between_full(ch, univ, cs, n - 1, path);
        lemma_desc_between_top(ch, univ, cs, 0, n, path);
    }
}

/// A node that is not mentioned has no children.
proof fn lemma_children_in_universe(nodes: Seq<NodeView>, u: Seq<char>)
    ensures
        !scan_universe(nodes).contains(u) ==> children_in(nodes, u).len() == 0,
{
    lemma_scan_universe(nodes);
    let f = |n: NodeView| is_child_of(n, u);
    crate::lru::lemma_kept_sub(nodes, f);
    if children_in(nodes, u).len() > 0 {
        let c = children_in(nodes, u)[0];
        assert(nodes.contains(c));
        let j = choose|j: int| 0 <= j < nodes.len() && nodes[j] == c;
        assert(nodes[j].parent_id is Some);
    }
}

/// Membership in the identifier set of a list of identifiers.
pub proof fn lemma_ids_contains(ids: Seq<NodeId>, id: Seq<char>)
    ensures
        id_views(ids).to_set().contains(id) == id_views(ids).contains(id),
{
}

/// Pushing `u` onto a stack of identifiers adds `u` to its set.
pub proof fn lemma_push_ids(stack: Seq<NodeId>, old_stack: Seq<Seq<char>>, u: Seq<char>, path: Set<Seq<char>>)
    requires
        stack.len() > 0,
        stack.last()@ == u,
        id_views(stack.drop_last()) == old_stack,
        old_stack.to_set() == path,
    ensures
        id_views(stack) == old_stack.push(u),
        id_views(stack).to_set() == path.insert(u),
{
    assert(id_views(stack) =~= old_stack.push(u));
    let s = id_views(stack);
    assert forall|x: Seq<char>| #[trigger] s.to_set().contains(x) == path.insert(u).contains(x) by {
        if x != u {
            if old_stack.contains(x) {
                let j = choose|j: int| 0 <= j < old_stack.len() && old_stack[j] == x;
                assert(s[j] == x);
            }
            if s.contains(x) {
                let j = choose|j: int| 0 <= j < s.len() && s[j] == x;
                assert(old_stack[j] == x);
            }
        } else {
            assert(s[old_stack.len() as int] == x);
        }
    }
    assert(s.to_set() =~= path.insert(u));
}

/// Popping restores the identifiers the stack held before the push.
pub proof fn lemma_pop_ids(pushed: Seq<NodeId>, popped: Seq<NodeId>, old_stack: Seq<Seq<char>>, u: Seq<char>)
    requires
        id_views(pushed) == old_stack.push(u),
        popped == pushed.drop_last(),
    ensures
        id_views(popped) == old_stack,
{
    assert(id_views(pushed).len() == pushed.len());
    assert(old_stack.push(u).len() == old_stack.len() + 1);
    assert(pushed.len() == old_stack.len() + 1);
    assert forall|j: int| 0 <= j < popped.len() implies (#[trigger] id_views(popped)[j]) == old_stack[j] by {
        assert(popped[j] == pushed[j]);
        assert(id_views(pushed)[j] == pushed[j]@);
        assert(id_views(pushed)[j] == old_stack.push(u)[j]);
    }
    assert(id_views(popped) =~= old_stack);
}

/// The value of a parent-to-children index.
pub open spec fn index_view(idx: Seq<(NodeId, Vec<Node>)>) -> Seq<(Seq<char>, Seq<NodeView>)> {
    idx.map_values(|e: (NodeId, Vec<Node>)| (e.0@, node_views(e.1@)))
}

/// The index from each parent to its children, parents in order of first appearance,
/// children in their order.
pub open spec fn parent_index(nodes: Seq<NodeView>) -> Seq<(Seq<char>, Seq<NodeView>)>
    decreases nodes.len(),
{
    if nodes.len() == 0 {
        Seq::empty()
    } else {
        let idx = parent_index(nodes.drop_last());
        let n = nodes.last();
        match n.parent_id {
            None => idx,
            Some(p) => if has_key(idx, p) {
                let i = find_key(idx, p);
                idx.update(i, (p, idx[i].1.push(n)))
            } else {
                idx.push((p, seq![n]))
            },
        }
    }
}

/// The children an index lists for `u`.
pub open spec fn index_children(idx: Seq<(Seq<char>, Seq<NodeView>)>, u: Seq<char>) -> Seq<NodeView> {
    match lookup(idx, u) {
        Some(v) => v,
        None => Seq::empty(),
    }
}

/// Every parent and child identifier of an index.
pub open spec fn index_universe(idx: Seq<(Seq<char>, Seq<NodeView>)>) -> Set<Seq<char>>
    decreases idx.len(),
{
    if idx.len() == 0 {
        Set::empty()
    } else {
        index_universe(idx.drop_last()).insert(idx.last().0).union(
            idx.last().1.map_values(|n: NodeView| n.id).to_set(),
        )
    }
}

proof fn lemma_index_universe(idx: Seq<(Seq<char>, Seq<NodeView>)>)
    ensures
        index_universe(idx).finite(),
        forall|i: int| 0 <= i < idx.len() ==> index_universe(idx).contains(#[trigger] idx[i].0),
        forall|i: int, j: int|
            0 <= i < idx.len() && 0 <= j < idx[i].1.len() ==> index_universe(idx).contains(
                #[trigger] idx[i].1[j].id,
            ),
    decreases idx.len(),
{
    broadcast use vstd::seq_lib::seq_to_set_is_finite;
    if idx.len() > 0 {
        let t = idx.drop_last();
        lemma_index_universe(t);
        assert forall|i: int| 0 <= i < idx.len() implies index_universe(idx).contains(#[trigger] idx[i].0) by {
            if i < t.len() {
                assert(t[i] == idx[i]);
            }
        }
        assert forall|i: int, j: int|
            0 <= i < idx.len() && 0 <= j < idx[i].1.len() implies index_universe(idx).contains(
                #[trigger] idx[i].1[j].id,
            ) by {
            if i < t.len() {
                assert(t[i] == idx[i]);
            } else {
                let ids = idx.last().1.map_values(|n: NodeView| n.id);
                assert(ids[j] == idx[i].1[j].id);
                assert(ids.to_set().contains(ids[j]));
            }
        }
    }
}

/// The index has one entry per parent and lists exactly the children of each parent.
pub proof fn law_parent_index_lists_children(nodes: Seq<NodeView>, p: Seq<char>)
    ensures
        crate::lru::keys_unique(parent_index(nodes)),
        index_children(parent_index(nodes), p) == children_in(nodes, p),
    decreases nodes.len(),
{
    if nodes.len() > 0 {
        let t = nodes.drop_last();
        law_parent_index_lists_children(t, p);
        let idx = parent_index(t);
        let n = nodes.last();
        match n.parent_id {
            None => {},
            Some(q) => {
                if has_key(idx, q) {
                    let i = find_key(idx, q);
                    crate::lru::lemma_find_key_unique(idx, i);
                    let nidx = parent_index(nodes);
                    assert(nidx == idx.update(i, (q, idx[i].1.push(n))));
                    assert forall|a: int, b: int|
                        0 <= a < nidx.len() && 0 <= b < nidx.len() && a != b implies nidx[a].0 != nidx[b].0 by {
                        assert(nidx[a].0 == idx[a].0);
                        assert(nidx[b].0 == idx[b].0);
                    }
                    crate::lru::lemma_find_key_unique(nidx, i);
                    if p != q {
                        if has_key(idx, p) {
                            let k = find_key(idx, p);
                            crate::lru::lemma_find_key_unique(idx, k);
                            assert(nidx[k] == idx[k]);
                            crate::lru::lemma_find_key_unique(nidx, k);
                        } else {
                            assert(!has_key(nidx, p)) by {
                                if has_key(nidx, p) {
                                    let k = find_key(nidx, p);
                                    assert(nidx[k].0 == idx[k].0);
                                }
                            }
                        }
                    }
                } else {
                    let nidx = parent_index(nodes);
                    assert(nidx == idx.push((q, seq![n])));
                    assert forall|a: int, b: int|
                        0 <= a < nidx.len() && 0 <= b < nidx.len() && a != b implies nidx[a].0 != nidx[b].0 by {
                        if a < idx.len() {
                            assert(nidx[a] == idx[a]);
                        }
                        if b < idx.len() {
                            assert(nidx[b] == idx[b]);
                        }
                    }
                    crate::lru::lemma_find_key_unique(nidx, idx.len() as int);
                    if p != q {
                        if has_key(idx, p) {
                            let k = find_key(idx, p);
                            crate::lru::lemma_find_key_unique(idx, k);
                            assert(nidx[k] == idx[k]);
                            crate::lru::lemma_find_key_unique(nidx, k);
                        } else {
                            assert(!has_key(nidx, p)) by {
                                if has_key(nidx, p) {
                                    let k = find_key(nidx, p);
                                    if k < idx.len() {
                                        assert(nidx[k] == idx[k]);
                                    }
                                }
                            }
                        }
                    } else {
                        assert(children_in(t, p).len() == 0) by {
                            assert(index_children(idx, p) =~= Seq::<NodeView>::empty());
                        }
                        assert(children_in(t, p) =~= Seq::<NodeView>::empty());
                    }
                }
            },
        }
    }
}

/// Position of the entry for `id` in an index.
fn index_position(idx: &Vec<(NodeId, Vec<Node>)>, id: &NodeId) -> (r: Option<usize>)
    ensures
        match r {
            Some(i) => i < idx@.len() && idx@[i as int].0@ == id@ && forall|j: int|
                0 <= j < i ==> (#[trigger] idx@[j]).0@ != id@,
            None => forall|j: int| 0 <= j < idx@.len() ==> (#[trigger] idx@[j]).0@ != id@,
        },
{
    let mut i: usize = 0;
    while i < idx.len()
        invariant
            i <= idx@.len(),
            forall|j: int| 0 <= j < i ==> (#[trigger] idx@[j]).0@ != id@,
        decreases idx@.len() - i,
    {
        if idx[i].0 == *id {
            return Some(i);
        }
        i = i + 1;
    }
    None
}

/// Groups the nodes by parent: for each parent, in order of first appearance, the
/// copies of its children in their order. Nodes without a parent are left out.
pub fn build_parent_children_index(all_nodes: &[Node]) -> (r: Vec<(NodeId, Vec<Node>)>)
    ensures
        index_view(r@) == parent_index(node_views(all_nodes@)),
{
    let ghost all = node_views(all_nodes@);
    let mut idx: Vec<(NodeId, Vec<Node>)> = Vec::new();
    let mut i: usize = 0;
    proof {
        assert(index_view(idx@) =~= parent_index(all.take(0)));
    }
    while i < all_nodes.len()
        invariant
            i <= all_nodes@.len(),
            all == node_views(all_nodes@),
            index_view(idx@) == parent_index(all.take(i as int)),
        decreases all_nodes@.len() - i,
    {
        let ghost before = index_view(idx@);
        proof {
            assert(all.take(i + 1).drop_last() =~= all.take(i as int));
            assert(all.take(i + 1).last() == all_nodes@[i as int]@);
            law_parent_index_lists_children(all.take(i as int), Seq::empty());
        }
        match &all_nodes[i].parent_id {
            None => {},
            Some(p) => {
                match index_position(&idx, p) {
                    Some(k) => {
                        proof {
                            assert(before[k as int].0 == p@);
                            crate::lru::lemma_find_key_unique(before, k as int);
                        }
                        let (key, mut list) = idx.remove(k);
                        list.push(all_nodes[i].dup());
                        idx.insert(k, (key, list));
                        proof {
                            assert(node_views(list@) =~= before[k as int].1.push(all_nodes@[i as int]@));
                            assert(index_view(idx@) =~= before.update(
                                k as int,
                                (p@, before[k as int].1.push(all_nodes@[i as int]@)),
                            ));
                        }
                    },
                    None => {
                        proof {
                            assert(!has_key(before, p@)) by {
                                if has_key(before, p@) {
                                    let k = find_key(before, p@);
                                    assert(idx@[k].0@ == p@);
                                }
                            }
                        }
                        let mut list: Vec<Node> = Vec::new();
                        list.push(all_nodes[i].dup());
                        idx.push((p.clone_id(), list));
                        proof {
                            assert(node_views(list@) =~= seq![all_nodes@[i as int]@]);
                            assert(index_view(idx@) =~= before.push((p@, seq![all_nodes@[i as int]@])));
                        }
                    },
                }
            },
        }
        i = i + 1;
    }
    proof {
        assert(all.take(all_nodes@.len() as int) =~= all);
    }
    idx
}

/// Copies of the children an index lists for `u`.
fn indexed_children(idx: &Vec<(NodeId, Vec<Node>)>, u: &NodeId) -> (r: Vec<Node>)
    requires
        crate::lru::keys_unique(index_view(idx@)),
    ensures
        node_views(r@) == index_children(index_view(idx@), u@),
{
    match index_position(idx, u) {
        Some(k) => {
            proof {
                crate::lru::lemma_find_key_unique(index_view(idx@), k as int);
            }
            let src = &idx[k].1;
            let mut r: Vec<Node> = Vec::new();
            let mut i: usize = 0;
            while i < src.len()
                invariant
                    i <= src@.len(),
                    node_views(r@) == node_views(src@).take(i as int),
                decreases src@.len() - i,
            {
                let ghost before = node_views(r@);
                r.push(src[i].dup());
                proof {
                    assert(node_views(r@) =~= before.push(src@[i as int]@));
                    assert(node_views(src@).take(i + 1) =~= node_views(src@).take(i as int).push(src@[i as int]@));
                }
                i = i + 1;
            }
            proof {
                assert(node_views(src@).take(src@.len() as int) =~= node_views(src@));
            }
            r
        },
        None => {
            proof {
                assert(!has_key(index_view(idx@), u@)) by {
                    if has_key(index_view(idx@), u@) {
                        let k = find_key(index_view(idx@), u@);
                        assert(idx@[k].0@ == u@);
                    }
                }
            }
            let r: Vec<Node> = Vec::new();
            proof {
                assert(node_views(r@) =~= Seq::<NodeView>::empty());
            }
            r
        },
    }
}

/// The descendants of `parent_id` found through a parent-to-children index, in the
/// order of a depth-first walk with an explicit stack.
pub fn get_all_descendants_optimized(
    parent_to_children: &Vec<(NodeId, Vec<Node>)>,
    parent_id: &NodeId,
) -> (r: Vec<Node>)
    requires
        crate::lru::keys_unique(index_view(parent_to_children@)),
    ensures
        node_views(r@) == descendants(
            |u: Seq<char>| index_children(index_view(parent_to_children@), u),
            index_universe(index_view(parent_to_children@)),
            parent_id@,
            Set::empty(),
        ),
{
    let mut out: Vec<Node> = Vec::new();
    let mut stack: Vec<NodeId> = Vec::new();
    proof {
        assert(id_views(stack@).to_set() =~= Set::<Seq<char>>::empty());
        lemma_index_universe(index_view(parent_to_children@));
    }
    collect_indexed(parent_to_children, parent_id, &mut stack, &mut out, Ghost(Set::empty()));
    proof {
        assert(node_views(out@) =~= Seq::<NodeView>::empty() + descendants(
            |u: Seq<char>| index_children(index_view(parent_to_children@), u),
            index_universe(index_view(parent_to_children@)),
            parent_id@,
            Set::empty(),
        ));
    }
    out
}

/// A node without an index entry has no children, and children are in the universe.
proof fn lemma_index_children_in_universe(idx: Seq<(Seq<char>, Seq<NodeView>)>, u: Seq<char>)
    ensures
        index_children(idx, u).len() > 0 ==> index_universe(idx).contains(u),
{
    lemma_index_universe(idx);
    if has_key(idx, u) {
        let k = find_key(idx, u);
        assert(idx[k].0 == u);
    }
}

/// Appends the descendants of `u` found through the index to `out`.
fn collect_indexed(
    idx: &Vec<(NodeId, Vec<Node>)>,
    u: &NodeId,
    stack: &mut Vec<NodeId>,
    out: &mut Vec<Node>,
    Ghost(path): Ghost<Set<Seq<char>>>,
)
    requires
        crate::lru::keys_unique(index_view(idx@)),
        id_views(old(stack)@).to_set() == path,
        !path.contains(u@),
        index_universe(index_view(idx@)).finite(),
    ensures
        id_views(final(stack)@) == id_views(old(stack)@),
        node_views(final(out)@) == node_views(old(out)@) + descendants(
            |v: Seq<char>| index_children(index_view(idx@), v),
            index_universe(index_view(idx@)),
            u@,
            path,
        ),
    decreases index_universe(index_view(idx@)).difference(path).len(),
{
    let ghost ch = |v: Seq<char>| index_children(index_view(idx@), v);
    let ghost univ = index_universe(index_view(idx@));
    let cs = indexed_children(idx, u);
    let ghost csv = node_views(cs@);
    let ghost start = node_views(out@);
    let mut i: usize = 0;
    while i < cs.len()
        invariant
            i <= cs@.len(),
            csv == node_views(cs@),
            node_views(out@) == start + csv.take(i as int),
        decreases cs@.len() - i,
    {
        let ghost before = node_views(out@);
        out.push(cs[i].dup());
        proof {
            assert(node_views(out@) =~= before.push(cs@[i as int]@));
            assert(csv.take(i + 1) =~= csv.take(i as int).push(cs@[i as int]@));
            assert(node_views(out@) =~= start + csv.take(i + 1));
        }
        i = i + 1;
    }
    proof {
        assert(csv.take(cs@.len() as int) =~= csv);
        assert(csv == ch(u@));
        lemma_index_children_in_universe(index_view(idx@), u@);
    }
    let ghost old_stack = id_views(stack@);
    let ghost old_vec = stack@;
    stack.push(u.clone_id());
    let ghost path2 = path.insert(u@);
    proof {
        assert(stack@.drop_last() =~= old_vec);
        lemma_push_ids(stack@, old_stack, u@, path);
    }
    let ghost mid = node_views(out@);
    let mut k: usize = cs.len();
    while k > 0
        invariant
            k <= cs@.len(),
            csv == node_views(cs@),
            csv == ch(u@),
            ch == (|v: Seq<char>| index_children(index_view(idx@), v)),
            univ == index_universe(index_view(idx@)),
            univ.finite(),
            crate::lru::keys_unique(index_view(idx@)),
            csv.len() > 0 ==> univ.contains(u@),
            !path.contains(u@),
            path2 == path.insert(u@),
            id_views(stack@) == old_stack.push(u@),
            id_views(stack@).to_set() == path2,
            node_views(out@) == mid + desc_between(ch, univ, csv, k as int, csv.len() as int, path2),
        decreases k,
    {
        k = k - 1;
        proof {
            lemma_ids_contains(stack@, cs@[k as int].id@);
        }
        if !contains_id(stack, &cs[k].id) {
            proof {
                lemma_measure_shrinks(univ, path, u@);
            }
            collect_indexed(idx, &cs[k].id, stack, out, Ghost(path2));
        }
        proof {
            assert(csv[k as int].id == cs@[k as int].id@);
            assert(node_views(out@) =~= mid + desc_between(ch, univ, csv, k as int, csv.len() as int, path2));
        }
    }
    let ghost pushed = stack@;
    let _ = stack.pop();
    proof {
        lemma_pop_ids(pushed, stack@, old_stack, u@);
        lemma_desc_between_full(ch, univ, csv, csv.len() as int, path2);
        if csv.len() == 0 {
            assert(desc_between(ch, univ, csv, 0, 0, path2) =~= Seq::<NodeView>::empty());
            assert(descendants_rev(ch, univ, csv, 0, path2) =~= Seq::<NodeView>::empty());
        }
        assert(node_views(out@) =~= start + descendants(ch, univ, u@, path));
    }
}

/// Whether `a` was created strictly later than `b` (comparing the timestamp texts).
pub open spec fn created_gt() -> spec_fn(NodeView, NodeView) -> bool {
    |a: NodeView, b: NodeView| text_lt(b.created_at, a.created_at)
}

/// Sorts nodes by creation time, keeping the order of nodes created at the same time.
pub fn sort_by_created(v: &Vec<Node>) -> (r: Vec<Node>)
    ensures
        node_views(r@) == stable_sorted(node_views(v@), created_gt()),
{
    let ghost vv = node_views(v@);
    let mut out: Vec<Node> = Vec::new();
    let mut i: usize = 0;
    while i < v.len()
        invariant
            i <= v@.len(),
            vv == node_views(v@),
            node_views(out@) == stable_sorted(vv.take(i as int), created_gt()),
        decreases v@.len() - i,
    {
        let ghost s = node_views(out@);
        let x = &v[i];
        let mut j: usize = out.len();
        while j > 0 && text_less(x.created_at.as_str(), out[j - 1].created_at.as_str())
            invariant
                j <= out@.len(),
                s == node_views(out@),
                i < v@.len(),
                forall|k: int| j <= k < s.len() ==> created_gt()(#[trigger] s[k], x@),
            decreases j,
        {
            j = j - 1;
        }
        proof {
            if j > 0 {
                assert(!created_gt()(s[j - 1], x@));
            }
            lemma_ins_at(s, x@, created_gt(), j as int);
            assert(vv.take(i + 1).drop_last() =~= vv.take(i as int));
            assert(vv.take(i + 1).last() == x@);
        }
        out.insert(j, x.dup());
        proof {
            assert(node_views(out@) =~= s.insert(j as int, x@));
        }
        i = i + 1;
    }
    proof {
        assert(vv.take(v@.len() as int) =~= vv);
    }
    out
}

/// The first node of `s` that `p` holds of.
pub open spec fn first_where(s: Seq<NodeView>, p: spec_fn(NodeView) -> bool) -> Option<NodeView>
    decreases s.len(),
{
    if s.len() == 0 {
        None
    } else if p(s[0]) {
        Some(s[0])
    } else {
        first_where(s.drop_first(), p)
    }
}

proof fn lemma_first_where(s: Seq<NodeView>, p: spec_fn(NodeView) -> bool, i: int)
    requires
        0 <= i <= s.len(),
        forall|k: int| 0 <= k < i ==> !p(#[trigger] s[k]),
    ensures
        i < s.len() && p(s[i]) ==> first_where(s, p) == Some(s[i]),
        i == s.len() ==> first_where(s, p) is None,
    decreases i,
{
    if i > 0 {
        let t = s.drop_first();
        assert forall|k: int| 0 <= k < i - 1 implies !p(#[trigger] t[k]) by {
            assert(t[k] == s[k + 1]);
        }
        assert(!p(s[0]));
        lemma_first_where(t, p, i - 1);
        if i < s.len() {
            assert(t[i - 1] == s[i]);
        }
    }
}

/// The sibling that names `id` as the sibling it comes after.
pub open spec fn follows(id: Seq<char>) -> spec_fn(NodeView) -> bool {
    |n: NodeView| n.before_sibling == Some(id)
}

/// A sibling that names no sibling before it.
pub open spec fn heads() -> spec_fn(NodeView) -> bool {
    |n: NodeView| n.before_sibling is None
}

/// The chain that starts at `cur` and follows, `fuel` more times at most, the first
/// sibling naming the current one as its predecessor.
pub open spec fn chain_from(sibs: Seq<NodeView>, cur: NodeView, fuel: nat) -> Seq<NodeView>
    decreases fuel,
{
    if fuel == 0 {
        seq![cur]
    } else {
        match first_where(sibs, follows(cur.id)) {
            Some(n) => seq![cur] + chain_from(sibs, n, (fuel - 1) as nat),
            None => seq![cur],
        }
    }
}

/// `o` followed by the nodes of `rest`, in order, whose identifier is not already listed.
pub open spec fn append_missing(o: Seq<NodeView>, rest: Seq<NodeView>) -> Seq<NodeView>
    decreases rest.len(),
{
    if rest.len() == 0 {
        o
    } else {
        let a = append_missing(o, rest.drop_last());
        if a.map_values(|n: NodeView| n.id).contains(rest.last().id) {
            a
        } else {
            a.push(rest.last())
        }
    }
}

/// Sibling order: starting from the first sibling that names no predecessor, follow
/// the chain of siblings naming the previous one (at most one step per sibling), then
/// add the siblings the chain missed in their order. Without such a first sibling, the
/// siblings are sorted by creation time.
pub open spec fn chain_order(sibs: Seq<NodeView>) -> Seq<NodeView> {
    if sibs.len() == 0 {
        sibs
    } else {
        match first_where(sibs, heads()) {
            Some(f) => append_missing(chain_from(sibs, f, sibs.len()), sibs),
            None => stable_sorted(sibs, created_gt()),
        }
    }
}

/// Index of the first sibling that names no predecessor.
fn find_head(sibs: &Vec<Node>) -> (r: Option<usize>)
    ensures
        match r {
            Some(i) => i < sibs@.len() && first_where(node_views(sibs@), heads()) == Some(sibs@[i as int]@),
            None => first_where(node_views(sibs@), heads()) is None,
        },
{
    let ghost sv = node_views(sibs@);
    let mut i: usize = 0;
    while i < sibs.len()
        invariant
            i <= sibs@.len(),
            sv == node_views(sibs@),
            forall|k: int| 0 <= k < i ==> !heads()(#[trigger] sv[k]),
        decreases sibs@.len() - i,
    {
        if sibs[i].before_sibling.is_none() {
            proof {
                lemma_first_where(sv, heads(), i as int);
            }
            return Some(i);
        }
        i = i + 1;
    }
    proof {
        lemma_first_where(sv, heads(), i as int);
    }
    None
}

/// Index of the first sibling that names `id` as its predecessor.
fn find_first_following(sibs: &Vec<Node>, id: &NodeId) -> (r: Option<usize>)
    ensures
        match r {
            Some(i) => i < sibs@.len() && first_where(node_views(sibs@), follows(id@)) == Some(sibs@[i as int]@),
            None => first_where(node_views(sibs@), follows(id@)) is None,
        },
{
    let ghost sv = node_views(sibs@);
    let mut i: usize = 0;
    while i < sibs.len()
        invariant
            i <= sibs@.len(),
            sv == node_views(sibs@),
            forall|k: int| 0 <= k < i ==> !follows(id@)(#[trigger] sv[k]),
        decreases sibs@.len() - i,
    {
        if crate::model::opt_id_is(&sibs[i].before_sibling, id) {
            proof {
                lemma_first_where(sv, follows(id@), i as int);
            }
            return Some(i);
        }
        i = i + 1;
    }
    proof {
        lemma_first_where(sv, follows(id@), i as int);
    }
    None
}

/// Orders siblings by their predecessor links (see `chain_order`).
pub fn sort_siblings_by_chain(siblings: Vec<Node>) -> (r: Vec<Node>)
    ensures
        node_views(r@) == chain_order(node_views(siblings@)),
{
    let ghost sv = node_views(siblings@);
    if siblings.len() == 0 {
        return siblings;
    }
    let first = find_head(&siblings);
    match first {
        None => sort_by_created(&siblings),
        Some(f) => {
            let ghost head = sv[f as int];
            let ghost n = sv.len();
            let mut ordered: Vec<Node> = Vec::new();
            let mut cur: usize = f;
            let mut fuel: usize = siblings.len();
            loop
                invariant_except_break
                    cur < siblings@.len(),
                    fuel <= siblings@.len(),
                    node_views(ordered@) + chain_from(sv, sv[cur as int], fuel as nat) == chain_from(sv, head, n as nat),
                invariant
                    sv == node_views(siblings@),
                    n == sv.len(),
                ensures
                    node_views(ordered@) == chain_from(sv, head, n as nat),
                decreases fuel,
            {
                let ghost before = node_views(ordered@);
                ordered.push(siblings[cur].dup());
                proof {
                    assert(node_views(ordered@) =~= before.push(sv[cur as int]));
                }
                if fuel == 0 {
                    proof {
                        assert(node_views(ordered@) =~= before + chain_from(sv, sv[cur as int], 0));
                    }
                    break;
                }
                match find_first_following(&siblings, &siblings[cur].id) {
                    Some(nx) => {
                        proof {
                            assert(chain_from(sv, sv[cur as int], fuel as nat) == seq![sv[cur as int]] + chain_from(sv, sv[nx as int], (fuel - 1) as nat));
                            assert(node_views(ordered@) + chain_from(sv, sv[nx as int], (fuel - 1) as nat) =~= before + chain_from(sv, sv[cur as int], fuel as nat));
                        }
                        cur = nx;
                        fuel = fuel - 1;
                    },
                    None => {
                        proof {
                            assert(node_views(ordered@) =~= before + chain_from(sv, sv[cur as int], fuel as nat));
                        }
                        break;
                    },
                }
            }
            let ghost chain = chain_from(sv, head, n as nat);
            proof {
                assert(node_views(ordered@) == chain);
            }
            let mut k: usize = 0;
            while k < siblings.len()
                invariant
                    k <= siblings@.len(),
                    sv == node_views(siblings@),
                    node_views(ordered@) == append_missing(chain, sv.take(k as int)),
                decreases siblings@.len() - k,
            {
                let ghost a = node_views(ordered@);
                proof {
                    assert(sv.take(k + 1).drop_last() =~= sv.take(k as int));
                    assert(sv.take(k + 1).last() == sv[k as int]);
                }
                let mut present = false;
                let mut t: usize = 0;
                while t < ordered.len()
                    invariant
                        t <= ordered@.len(),
                        a == node_views(ordered@),
                        k < siblings@.len(),
                        present == exists|q: int| 0 <= q < t && (#[trigger] ordered@[q]).id@ == siblings@[k as int].id@,
                    decreases ordered@.len() - t,
                {
                    if ordered[t].id == siblings[k].id {
                        present = true;
                    }
                    t = t + 1;
                }
                proof {
                    let ids = a.map_values(|n: NodeView| n.id);
                    if present {
                        let q = choose|q: int| 0 <= q < t && (#[trigger] ordered@[q]).id@ == siblings@[k as int].id@;
                        assert(ids[q] == sv[k as int].id);
                    }
                    if ids.contains(sv[k as int].id) {
                        let q = choose|q: int| 0 <= q < ids.len() && ids[q] == sv[k as int].id;
                        assert(ordered@[q].id@ == siblings@[k as int].id@);
                    }
                }
                if !present {
                    ordered.push(siblings[k].dup());
                    proof {
                        assert(node_views(ordered@) =~= a.push(sv[k as int]));
                    }
                }
                k = k + 1;
            }
            proof {
                assert(sv.take(sv.len() as int) =~= sv);
            }
            ordered
        },
    }
}

/// A node with its ordered children, as handed to the front end.
#[derive(Debug)]
pub struct HierarchicalNode {
    pub node: Node,
    pub children: Vec<HierarchicalNode>,
    pub depth: u32,
    pub sibling_index: u32,
    pub parent_id: Option<NodeId>,
}

/// The value of a hierarchical node.
pub struct HierarchicalNodeView {
    pub node: NodeView,
    pub children: Seq<HierarchicalNodeView>,
    pub depth: u32,
    pub sibling_index: u32,
    pub parent_id: Option<Seq<char>>,
}

/// The value of a hierarchical node.
pub open spec fn hview(h: HierarchicalNode) -> HierarchicalNodeView
    decreases h,
{
    HierarchicalNodeView {
        node: h.node@,
        children: Seq::new(
            h.children@.len(),
            |i: int|
                if 0 <= i < h.children@.len() {
                    hview(h.children@[i])
                } else {
                    HierarchicalNodeView {
                        node: h.node@,
                        children: Seq::empty(),
                        depth: 0,
                        sibling_index: 0,
                        parent_id: None,
                    }
                },
        ),
        depth: h.depth,
        sibling_index: h.sibling_index,
        parent_id: crate::model::opt_id_view(h.parent_id),
    }
}

/// The values of a list of hierarchical nodes.
pub open spec fn hviews(v: Seq<HierarchicalNode>) -> Seq<HierarchicalNodeView> {
    v.map_values(|h: HierarchicalNode| hview(h))
}

/// Deepest level at which the tree builder still lists children.
pub const MAX_TREE_DEPTH: u32 = 100;

/// The subtree below `p`: for each child in the order `cm` gives, the child with its
/// own subtree, its depth and its position. Nothing is listed below a node already on
/// the path `path` or deeper than `MAX_TREE_DEPTH`.
pub open spec fn subtree(
    cm: spec_fn(Seq<char>) -> Seq<NodeView>,
    p: Seq<char>,
    depth: u32,
    path: Set<Seq<char>>,
) -> Seq<HierarchicalNodeView>
    decreases 101 - depth,
{
    if path.contains(p) || depth > MAX_TREE_DEPTH {
        Seq::empty()
    } else {
        let cs = cm(p);
        Seq::new(
            cs.len(),
            |i: int|
                HierarchicalNodeView {
                    node: cs[i],
                    children: subtree(cm, cs[i].id, (depth + 1) as u32, path.insert(p)),
                    depth,
                    sibling_index: i as u32,
                    parent_id: Some(p),
                },
        )
    }
}

/// Total number of nodes in a forest of hierarchical nodes.
pub open spec fn forest_count(v: Seq<HierarchicalNodeView>) -> nat
    decreases v,
{
    if v.len() == 0 {
        0
    } else {
        forest_count(v.drop_last()) + 1 + forest_count(v.last().children)
    }
}

/// Counts the nodes of a forest, children included.
pub fn count_hierarchical_nodes(nodes: &[HierarchicalNode]) -> (r: usize)
    requires
        forest_count(hviews(nodes@)) <= usize::MAX,
    ensures
        r == forest_count(hviews(nodes@)),
    decreases nodes@,
{
    let ghost hv = hviews(nodes@);
    let mut count: usize = 0;
    let mut i: usize = 0;
    while i < nodes.len()
        invariant
            i <= nodes@.len(),
            hv == hviews(nodes@),
            forest_count(hv) <= usize::MAX,
            count == forest_count(hv.take(i as int)),
        decreases nodes@.len() - i,
    {
        proof {
            assert(hv.take(i + 1).drop_last() =~= hv.take(i as int));
            assert(hv.take(i + 1).last() == hview(nodes@[i as int]));
            lemma_forest_count_prefix(hv, i + 1);
            assert(hviews(nodes@[i as int].children@) =~= hview(nodes@[i as int]).children);
            assert(decreases_to!(nodes@ => nodes@[i as int]));
        }
        let sub = count_hierarchical_nodes(nodes[i].children.as_slice());
        count = count + 1 + sub;
        i = i + 1;
    }
    proof {
        assert(hv.take(nodes@.len() as int) =~= hv);
    }
    count
}

/// `n`, or the largest `usize` when `n` is larger.
pub open spec fn clamp_usize(n: nat) -> usize {
    if n <= usize::MAX {
        n as usize
    } else {
        usize::MAX
    }
}

/// Counts the nodes of a forest, stopping at the largest `usize`.
pub fn count_hierarchical_nodes_saturating(nodes: &[HierarchicalNode]) -> (r: usize)
    ensures
        r == clamp_usize(forest_count(hviews(nodes@))),
    decreases nodes@,
{
    let ghost hv = hviews(nodes@);
    let mut count: usize = 0;
    let mut i: usize = 0;
    while i < nodes.len()
        invariant
            i <= nodes@.len(),
            hv == hviews(nodes@),
            count == clamp_usize(forest_count(hv.take(i as int))),
        decreases nodes@.len() - i,
    {
        proof {
            assert(hv.take(i + 1).drop_last() =~= hv.take(i as int));
            assert(hv.take(i + 1).last() == hview(nodes@[i as int]));
            assert(hviews(nodes@[i as int].children@) =~= hview(nodes@[i as int]).children);
            assert(decreases_to!(nodes@ => nodes@[i as int]));
        }
        let sub = count_hierarchical_nodes_saturating(nodes[i].children.as_slice());
        count = count.saturating_add(1).saturating_add(sub);
        i = i + 1;
    }
    proof {
        assert(hv.take(nodes@.len() as int) =~= hv);
    }
    count
}

/// A prefix of a forest has no more nodes than the forest.
proof fn lemma_forest_count_prefix(v: Seq<HierarchicalNodeView>, k: int)
    requires
        0 <= k <= v.len(),
    ensures
        forest_count(v.take(k)) <= forest_count(v),
    decreases v.len(),
{
    if k < v.len() {
        assert(v.drop_last().take(k) =~= v.take(k));
        lemma_forest_count_prefix(v.drop_last(), k);
    } else {
        assert(v.take(k) =~= v);
    }
}

/// The identifiers of a list of node values.
pub open spec fn ids_of(s: Seq<NodeView>) -> Seq<Seq<char>> {
    s.map_values(|n: NodeView| n.id)
}

/// The nodes left when a later node with the same identifier replaces an earlier one
/// (each identifier kept at its last position).
pub open spec fn last_wins(s: Seq<NodeView>) -> Seq<NodeView>
    decreases s.len(),
{
    if s.len() == 0 {
        s
    } else {
        let rest = last_wins(s.drop_first());
        if ids_of(s.drop_first()).contains(s[0].id) {
            rest
        } else {
            seq![s[0]] + rest
        }
    }
}

/// Copies of the nodes, each identifier kept only at its last occurrence.
pub fn unique_by_id(nodes: &Vec<Node>) -> (r: Vec<Node>)
    ensures
        node_views(r@) == last_wins(node_views(nodes@)),
{
    let ghost nv = node_views(nodes@);
    let mut out: Vec<Node> = Vec::new();
    let mut i: usize = nodes.len();
    proof {
        assert(nv.subrange(i as int, nv.len() as int) =~= Seq::<NodeView>::empty());
    }
    while i > 0
        invariant
            i <= nodes@.len(),
            nv == node_views(nodes@),
            node_views(out@) == last_wins(nv.subrange(i as int, nv.len() as int)),
        decreases i,
    {
        i = i - 1;
        let ghost tail = nv.subrange(i + 1, nv.len() as int);
        let mut later = false;
        let mut j: usize = i + 1;
        while j < nodes.len()
            invariant
                i < j <= nodes@.len(),
                nv == node_views(nodes@),
                tail == nv.subrange(i + 1, nv.len() as int),
                later == exists|k: int| i + 1 <= k < j && (#[trigger] nodes@[k]).id@ == nodes@[i as int].id@,
            decreases nodes@.len() - j,
        {
            if nodes[j].id == nodes[i].id {
                later = true;
            }
            j = j + 1;
        }
        let ghost sub = nv.subrange(i as int, nv.len() as int);
        proof {
            assert(sub.drop_first() =~= tail);
            assert(sub[0] == nodes@[i as int]@);
            if later {
                let k = choose|k: int| i + 1 <= k < j && (#[trigger] nodes@[k]).id@ == nodes@[i as int].id@;
                assert(ids_of(tail)[k - i - 1] == nodes@[i as int].id@);
            }
            if ids_of(tail).contains(nodes@[i as int].id@) {
                let q = choose|q: int| 0 <= q < ids_of(tail).len() && ids_of(tail)[q] == nodes@[i as int].id@;
                assert(nodes@[i + 1 + q].id@ == nodes@[i as int].id@);
            }
        }
        if !later {
            let ghost before = node_views(out@);
            out.insert(0, nodes[i].dup());
            proof {
                assert(node_views(out@) =~= seq![nodes@[i as int]@] + before);
            }
        }
    }
    proof {
        assert(nv.subrange(0, nv.len() as int) =~= nv);
    }
    out
}

/// The children of `p` among `nodes`, in sibling order.
pub open spec fn ordered_children(nodes: Seq<NodeView>, p: Seq<char>) -> Seq<NodeView> {
    chain_order(children_in(nodes, p))
}

/// The parent-to-children index of `nodes` with each list in sibling order.
pub open spec fn ordered_index(nodes: Seq<NodeView>) -> Seq<(Seq<char>, Seq<NodeView>)> {
    parent_index(nodes).map_values(|e: (Seq<char>, Seq<NodeView>)| (e.0, chain_order(e.1)))
}

/// Builds the parent-to-children index of `nodes` with each list in sibling order.
fn build_ordered_index(nodes: &Vec<Node>) -> (r: Vec<(NodeId, Vec<Node>)>)
    ensures
        index_view(r@) == ordered_index(node_views(nodes@)),
        crate::lru::keys_unique(index_view(r@)),
{
    let mut idx = build_parent_children_index(nodes.as_slice());
    let ghost base = index_view(idx@);
    proof {
        law_parent_index_lists_children(node_views(nodes@), Seq::empty());
    }
    let mut out: Vec<(NodeId, Vec<Node>)> = Vec::new();
    let mut i: usize = 0;
    let n = idx.len();
    while i < n
        invariant
            n == base.len(),
            i <= n,
            idx@.len() == n - i,
            forall|k: int| 0 <= k < n - i ==> (#[trigger] index_view(idx@)[k]) == base[k + i],
            index_view(out@) == base.take(i as int).map_values(
                |e: (Seq<char>, Seq<NodeView>)| (e.0, chain_order(e.1)),
            ),
        decreases n - i,
    {
        let ghost entry = base[i as int];
        let ghost rest = idx@;
        proof {
            assert(index_view(idx@)[0] == entry);
        }
        let (key, list) = idx.remove(0);
        proof {
            assert(node_views(list@) == entry.1);
            assert forall|k: int| 0 <= k < n - i - 1 implies (#[trigger] index_view(idx@)[k]) == base[k + i + 1] by {
                assert(idx@[k] == rest[k + 1]);
                assert(index_view(rest)[k + 1] == base[k + 1 + i]);
            }
        }
        let sorted = sort_siblings_by_chain(list);
        let ghost before = index_view(out@);
        out.push((key, sorted));
        proof {
            assert(index_view(out@) =~= before.push((entry.0, chain_order(entry.1))));
            assert(base.take(i + 1).map_values(|e: (Seq<char>, Seq<NodeView>)| (e.0, chain_order(e.1)))
                =~= before.push((entry.0, chain_order(entry.1))));
        }
        i = i + 1;
    }
    proof {
        assert(base.take(n as int) =~= base);
        let ov = index_view(out@);
        assert forall|a: int, b: int| 0 <= a < ov.len() && 0 <= b < ov.len() && a != b implies ov[a].0 != ov[b].0 by {
            assert(ov[a].0 == base[a].0);
            assert(ov[b].0 == base[b].0);
        }
    }
    out
}

/// The ordered index lists, for each parent, its children in sibling order.
pub proof fn law_ordered_index_children(nodes: Seq<NodeView>, p: Seq<char>)
    ensures
        crate::lru::keys_unique(ordered_index(nodes)),
        index_children(ordered_index(nodes), p) == ordered_children(nodes, p),
{
    law_parent_index_lists_children(nodes, p);
    let b = parent_index(nodes);
    let o = ordered_index(nodes);
    assert forall|a: int, c: int| 0 <= a < o.len() && 0 <= c < o.len() && a != c implies o[a].0 != o[c].0 by {
        assert(o[a].0 == b[a].0);
        assert(o[c].0 == b[c].0);
    }
    if has_key(b, p) {
        let k = find_key(b, p);
        crate::lru::lemma_find_key_unique(b, k);
        assert(o[k].0 == p);
        crate::lru::lemma_find_key_unique(o, k);
    } else {
        assert(!has_key(o, p)) by {
            if has_key(o, p) {
                let k = find_key(o, p);
                assert(b[k].0 == o[k].0);
            }
        }
        assert(children_in(nodes, p) =~= Seq::<NodeView>::empty());
        assert(chain_order(Seq::<NodeView>::empty()) =~= Seq::<NodeView>::empty());
    }
}

/// Builds the subtree below `p` from an ordered index (see `subtree`).
fn build_subtree(
    cmap: &Vec<(NodeId, Vec<Node>)>,
    p: &NodeId,
    depth: u32,
    stack: &mut Vec<NodeId>,
    Ghost(path): Ghost<Set<Seq<char>>>,
) -> (r: Vec<HierarchicalNode>)
    requires
        crate::lru::keys_unique(index_view(cmap@)),
        id_views(old(stack)@).to_set() == path,
    ensures
        id_views(final(stack)@) == id_views(old(stack)@),
        hviews(r@) == subtree(|q: Seq<char>| index_children(index_view(cmap@), q), p@, depth, path),
    decreases 101 - depth,
{
    let ghost cm = |q: Seq<char>| index_children(index_view(cmap@), q);
    proof {
        lemma_ids_contains(stack@, p@);
    }
    if contains_id(stack, p) || depth > MAX_TREE_DEPTH {
        let r: Vec<HierarchicalNode> = Vec::new();
        proof {
            assert(hviews(r@) =~= subtree(cm, p@, depth, path));
        }
        return r;
    }
    let children = indexed_children(cmap, p);
    let ghost cs = node_views(children@);
    let ghost old_stack = id_views(stack@);
    let ghost old_vec = stack@;
    stack.push(p.clone_id());
    let ghost path2 = path.insert(p@);
    proof {
        assert(stack@.drop_last() =~= old_vec);
        lemma_push_ids(stack@, old_stack, p@, path);
    }
    let mut out: Vec<HierarchicalNode> = Vec::new();
    let mut i: usize = 0;
    while i < children.len()
        invariant
            i <= children@.len(),
            cs == node_views(children@),
            cs == cm(p@),
            cm == (|q: Seq<char>| index_children(index_view(cmap@), q)),
            crate::lru::keys_unique(index_view(cmap@)),
            depth <= MAX_TREE_DEPTH,
            path2 == path.insert(p@),
            id_views(stack@) == old_stack.push(p@),
            id_views(stack@).to_set() == path2,
            out@.len() == i,
            forall|k: int| 0 <= k < i ==> #[trigger] hview(out@[k]) == (HierarchicalNodeView {
                node: cs[k],
                children: subtree(cm, cs[k].id, (depth + 1) as u32, path2),
                depth,
                sibling_index: k as u32,
                parent_id: Some(p@),
            }),
        decreases children@.len() - i,
    {
        let grand = build_subtree(cmap, &children[i].id, depth + 1, stack, Ghost(path2));
        let h = HierarchicalNode {
            node: children[i].dup(),
            children: grand,
            depth,
            sibling_index: i as u32,
            parent_id: Some(p.clone_id()),
        };
        proof {
            assert(hview(h).children =~= hviews(grand@));
        }
        out.push(h);
        i = i + 1;
    }
    let ghost pushed = stack@;
    let _ = stack.pop();
    proof {
        lemma_pop_ids(pushed, stack@, old_stack, p@);
        assert(hviews(out@) =~= subtree(cm, p@, depth, path));
    }
    out
}

/// Builds the ordered subtrees below `parent_id` from a flat list of nodes: a later
/// node replaces an earlier one with the same identifier, children are ordered by their
/// sibling links, and depths count from `start_depth`.
pub fn build_hierarchical_tree_from_flat_list(
    flat_nodes: Vec<Node>,
    parent_id: &NodeId,
    start_depth: u32,
) -> (r: Vec<HierarchicalNode>)
    ensures
        hviews(r@) == subtree(
            |q: Seq<char>| ordered_children(last_wins(node_views(flat_nodes@)), q),
            parent_id@,
            start_depth,
            Set::empty(),
        ),
{
    let unique = unique_by_id(&flat_nodes);
    let cmap = build_ordered_index(&unique);
    let mut stack: Vec<NodeId> = Vec::new();
    proof {
        assert(id_views(stack@).to_set() =~= Set::<Seq<char>>::empty());
    }
    let r = build_subtree(&cmap, parent_id, start_depth, &mut stack, Ghost(Set::empty()));
    proof {
        let u = node_views(unique@);
        let f1 = |q: Seq<char>| index_children(index_view(cmap@), q);
        let f2 = |q: Seq<char>| ordered_children(u, q);
        assert forall|q: Seq<char>| #[trigger] f1(q) == f2(q) by {
            law_ordered_index_children(u, q);
        }
        assert(f1 =~= f2);
    }
    r
}

/// The direct children of `root_id` among `flat_nodes`, a later node replacing an
/// earlier one with the same identifier, in sibling order.
pub fn build_logical_hierarchy_for_root(flat_nodes: Vec<Node>, root_id: &NodeId) -> (r: Vec<Node>)
    ensures
        node_views(r@) == ordered_children(last_wins(node_views(flat_nodes@)), root_id@),
{
    let unique = unique_by_id(&flat_nodes);
    let children = children_of(unique.as_slice(), root_id);
    sort_siblings_by_chain(children)
}

/// The direct children of `parent_id` among `tree_nodes`, in sibling order.
pub fn ordered_children_of(tree_nodes: &Vec<Node>, parent_id: &NodeId) -> (r: Vec<Node>)
    ensures
        node_views(r@) == ordered_children(node_views(tree_nodes@), parent_id@),
{
    let children = children_of(tree_nodes.as_slice(), parent_id);
    sort_siblings_by_chain(children)
}

/// The association list after setting the value for `k` to `v` (replacing an earlier
/// value).
pub open spec fn assoc_set<V>(s: Seq<(Seq<char>, V)>, k: Seq<char>, v: V) -> Seq<(Seq<char>, V)> {
    if has_key(s, k) {
        s.update(find_key(s, k), (k, v))
    } else {
        s.push((k, v))
    }
}

/// After a value is set for a key, the key maps to that value, and keys stay unique.
pub proof fn law_assoc_set_then_lookup<V>(s: Seq<(Seq<char>, V)>, k: Seq<char>, v: V)
    requires
        crate::lru::keys_unique(s),
    ensures
        crate::lru::keys_unique(assoc_set(s, k, v)),
        lookup(assoc_set(s, k, v), k) == Some(v),
{
    let t = assoc_set(s, k, v);
    if has_key(s, k) {
        let i = find_key(s, k);
        crate::lru::lemma_find_key_unique(s, i);
        assert forall|a: int, b: int| 0 <= a < t.len() && 0 <= b < t.len() && a != b implies t[a].0 != t[b].0 by {
            assert(t[a].0 == s[a].0);
            assert(t[b].0 == s[b].0);
        }
        crate::lru::lemma_find_key_unique(t, i);
    } else {
        assert forall|a: int, b: int| 0 <= a < t.len() && 0 <= b < t.len() && a != b implies t[a].0 != t[b].0 by {
            if a < s.len() {
                assert(t[a] == s[a]);
            }
            if b < s.len() {
                assert(t[b] == s[b]);
            }
        }
        crate::lru::lemma_find_key_unique(t, s.len() as int);
    }
}

/// Number of seconds after which the hierarchy cache expires.
pub const HIERARCHY_CACHE_TTL_SECS: u64 = 300;

/// Cache of node depths and child lists, valid for a few minutes after the last write.
#[derive(Debug)]
pub struct HierarchyCache {
    depth_cache: Vec<(NodeId, u32)>,
    children_cache: Vec<(NodeId, Vec<NodeId>)>,
    last_updated: Option<std::time::Instant>,
    cache_ttl_secs: u64,
}

impl HierarchyCache {
    /// The cached depths.
    pub closed spec fn depths(&self) -> Seq<(Seq<char>, u32)> {
        self.depth_cache@.map_values(|e: (NodeId, u32)| (e.0@, e.1))
    }

    /// The cached child lists.
    pub closed spec fn child_lists(&self) -> Seq<(Seq<char>, Seq<Seq<char>>)> {
        self.children_cache@.map_values(|e: (NodeId, Vec<NodeId>)| (e.0@, id_views(e.1@)))
    }

    /// Whether anything has been written since the last invalidation.
    pub closed spec fn written(&self) -> bool {
        self.last_updated is Some
    }

    /// Number of seconds after the last write at which the cache expires.
    pub closed spec fn ttl_secs(&self) -> u64 {
        self.cache_ttl_secs
    }

    /// One entry per node in each table.
    pub closed spec fn wf(&self) -> bool {
        crate::lru::keys_unique(self.depths()) && crate::lru::keys_unique(self.child_lists())
    }

    /// A valid cache holds one entry per node in each table.
    pub proof fn lemma_keys_unique(&self)
        requires
            self.wf(),
        ensures
            crate::lru::keys_unique(self.depths()),
            crate::lru::keys_unique(self.child_lists()),
    {
    }

    /// An empty cache.
    pub fn new() -> (r: HierarchyCache)
        ensures
            r.wf(),
            r.depths().len() == 0,
            r.child_lists().len() == 0,
            !r.written(),
            r.ttl_secs() == HIERARCHY_CACHE_TTL_SECS,
    {
        let r = HierarchyCache {
            depth_cache: Vec::new(),
            children_cache: Vec::new(),
            last_updated: None,
            cache_ttl_secs: HIERARCHY_CACHE_TTL_SECS,
        };
        proof {
            assert(r.depths() =~= Seq::<(Seq<char>, u32)>::empty());
            assert(r.child_lists() =~= Seq::<(Seq<char>, Seq<Seq<char>>)>::empty());
        }
        r
    }

    /// Whether the cache has expired: it has never been written since the last
    /// invalidation, or the last write is older than the expiry time.
    pub fn is_expired(&self) -> (r: bool)
        ensures
            !self.written() ==> r,
    {
        match &self.last_updated {
            Some(t) => crate::embedding_cache::expired_since(crate::embedding_cache::elapsed_nanos(t), self.cache_ttl_secs),
            None => true,
        }
    }

    /// Empties the cache.
    pub fn invalidate(&mut self)
        ensures
            final(self).wf(),
            final(self).depths().len() == 0,
            final(self).child_lists().len() == 0,
            !final(self).written(),
            final(self).ttl_secs() == old(self).ttl_secs(),
    {
        self.depth_cache.clear();
        self.children_cache.clear();
        self.last_updated = None;
        proof {
            assert(self.depths() =~= Seq::<(Seq<char>, u32)>::empty());
            assert(self.child_lists() =~= Seq::<(Seq<char>, Seq<Seq<char>>)>::empty());
        }
    }

    /// The cached depth of a node; nothing once the cache has expired.
    pub fn get_depth(&self, node_id: &NodeId) -> (r: Option<u32>)
        requires
            self.wf(),
        ensures
            r is None || r == lookup(self.depths(), node_id@),
            lookup(self.depths(), node_id@) is None ==> r is None,
            !self.written() ==> r is None,
    {
        if self.is_expired() {
            return None;
        }
        match crate::embedding_cache::position_of(&self.depth_cache, node_id) {
            Some(i) => {
                proof {
                    assert(self.depths()[i as int].0 == node_id@);
                    crate::lru::lemma_find_key_unique(self.depths(), i as int);
                }
                Some(self.depth_cache[i].1)
            },
            None => {
                proof {
                    assert(!has_key(self.depths(), node_id@)) by {
                        if has_key(self.depths(), node_id@) {
                            let k = find_key(self.depths(), node_id@);
                            assert(self.depth_cache@[k].0@ == node_id@);
                        }
                    }
                }
                None
            },
        }
    }

    /// Records the depth of a node and marks the cache as written now.
    pub fn cache_depth(&mut self, node_id: NodeId, depth: u32)
        requires
            old(self).wf(),
        ensures
            final(self).wf(),
            final(self).depths() == assoc_set(old(self).depths(), node_id@, depth),
            lookup(final(self).depths(), node_id@) == Some(depth),
            final(self).child_lists() == old(self).child_lists(),
            final(self).written(),
            final(self).ttl_secs() == old(self).ttl_secs(),
    {
        let ghost s = self.depths();
        let ghost k = node_id@;
        proof {
            law_assoc_set_then_lookup(s, k, depth);
        }
        match crate::embedding_cache::position_of(&self.depth_cache, &node_id) {
            Some(i) => {
                proof {
                    assert(s[i as int].0 == k);
                    crate::lru::lemma_find_key_unique(s, i as int);
                }
                self.depth_cache.set(i, (node_id, depth));
                proof {
                    assert(self.depths() =~= s.update(i as int, (k, depth)));
                }
            },
            None => {
                proof {
                    assert(!has_key(s, k)) by {
                        if has_key(s, k) {
                            let j = find_key(s, k);
                            assert(self.depth_cache@[j].0@ == k);
                        }
                    }
                }
                self.depth_cache.push((node_id, depth));
                proof {
                    assert(self.depths() =~= s.push((k, depth)));
                }
            },
        }
        self.last_updated = Some(crate::embedding_cache::instant_now());
    }

    /// The cached children of a node; nothing once the cache has expired.
    pub fn get_children(&self, parent_id: &NodeId) -> (r: Option<&Vec<NodeId>>)
        requires
            self.wf(),
        ensures
            r matches Some(v) ==> lookup(self.child_lists(), parent_id@) == Some(id_views(v@)),
            lookup(self.child_lists(), parent_id@) is None ==> r is None,
            !self.written() ==> r is None,
    {
        if self.is_expired() {
            return None;
        }
        match crate::embedding_cache::position_of(&self.children_cache, parent_id) {
            Some(i) => {
                proof {
                    assert(self.child_lists()[i as int].0 == parent_id@);
                    crate::lru::lemma_find_key_unique(self.child_lists(), i as int);
                }
                Some(&self.children_cache[i].1)
            },
            None => None,
        }
    }

    /// Records the children of a node and marks the cache as written now.
    pub fn cache_children(&mut self, parent_id: NodeId, children: Vec<NodeId>)
        requires
            old(self).wf(),
        ensures
            final(self).wf(),
            final(self).child_lists() == assoc_set(old(self).child_lists(), parent_id@, id_views(children@)),
            lookup(final(self).child_lists(), parent_id@) == Some(id_views(children@)),
            final(self).depths() == old(self).depths(),
            final(self).written(),
            final(self).ttl_secs() == old(self).ttl_secs(),
    {
        let ghost s = self.child_lists();
        let ghost k = parent_id@;
        let ghost cv = id_views(children@);
        proof {
            law_assoc_set_then_lookup(s, k, cv);
        }
        match crate::embedding_cache::position_of(&self.children_cache, &parent_id) {
            Some(i) => {
                proof {
                    assert(s[i as int].0 == k);
                    crate::lru::lemma_find_key_unique(s, i as int);
                }
                self.children_cache.set(i, (parent_id, children));
                proof {
                    assert(self.child_lists() =~= s.update(i as int, (k, cv)));
                }
            },
            None => {
                proof {
                    assert(!has_key(s, k)) by {
                        if has_key(s, k) {
                            let j = find_key(s, k);
                            assert(self.children_cache@[j].0@ == k);
                        }
                    }
                }
                self.children_cache.push((parent_id, children));
                proof {
                    assert(self.child_lists() =~= s.push((k, cv)));
                }
            },
        }
        self.last_updated = Some(crate::embedding_cache::instant_now());
    }
}


/// Every identifier with children is in both universes, which are finite.
pub open spec fn universes_cover(
    ch: spec_fn(Seq<char>) -> Seq<NodeView>,
    u1: Set<Seq<char>>,
    u2: Set<Seq<char>>,
) -> bool {
    &&& u1.finite()
    &&& u2.finite()
    &&& forall|x: Seq<char>| #[trigger] ch(x).len() > 0 ==> u1.contains(x) && u2.contains(x)
}

proof fn lemma_descendants_universe(
    ch: spec_fn(Seq<char>) -> Seq<NodeView>,
    u1: Set<Seq<char>>,
    u2: Set<Seq<char>>,
    u: Seq<char>,
    path: Set<Seq<char>>,
)
    requires
        universes_cover(ch, u1, u2),
    ensures
        descendants(ch, u1, u, path) == descendants(ch, u2, u, path),
    decreases u1.difference(path).len() + u2.difference(path).len(), 0int, 0int,
{
    let in1 = !path.contains(u) && u1.contains(u);
    let in2 = !path.contains(u) && u2.contains(u);
    if in1 && in2 {
        lemma_measure_shrinks(u1, path, u);
        lemma_measure_shrinks(u2, path, u);
        lemma_descendants_rev_universe(ch, u1, u2, ch(u), ch(u).len() as int, path.insert(u));
    } else if in1 || in2 {
        assert(ch(u).len() == 0);
        assert(descendants_rev(ch, u1, ch(u), 0, path.insert(u)) == Seq::<NodeView>::empty());
        assert(descendants_rev(ch, u2, ch(u), 0, path.insert(u)) == Seq::<NodeView>::empty());
        assert(ch(u) + Seq::<NodeView>::empty() =~= ch(u));
    }
}

proof fn lemma_descendants_rev_universe(
    ch: spec_fn(Seq<char>) -> Seq<NodeView>,
    u1: Set<Seq<char>>,
    u2: Set<Seq<char>>,
    cs: Seq<NodeView>,
    k: int,
    path: Set<Seq<char>>,
)
    requires
        universes_cover(ch, u1, u2),
    ensures
        descendants_rev(ch, u1, cs, k, path) == descendants_rev(ch, u2, cs, k, path),
    decreases u1.difference(path).len() + u2.difference(path).len(), 1int, k,
{
    if 0 < k <= cs.len() {
        let c = cs[k - 1].id;
        if !path.contains(c) {
            lemma_descendants_universe(ch, u1, u2, c, path);
        }
        lemma_descendants_rev_universe(ch, u1, u2, cs, k - 1, path);
    }
}

/// The walk through a parent-to-children index finds the same descendants, in the
/// same order, as the walk that scans the whole node list.
pub proof fn law_indexed_descendants_match_scan(nodes: Seq<NodeView>, root: Seq<char>)
    ensures
        descendants(
            |u: Seq<char>| index_children(parent_index(nodes), u),
            index_universe(parent_index(nodes)),
            root,
            Set::empty(),
        ) == descendants(
            |u: Seq<char>| children_in(nodes, u),
            scan_universe(nodes),
            root,
            Set::empty(),
        ),
{
    let idx = parent_index(nodes);
    let ch_scan = |u: Seq<char>| children_in(nodes, u);
    let ch_idx = |u: Seq<char>| index_children(idx, u);
    assert forall|x: Seq<char>| #[trigger] ch_idx(x) == ch_scan(x) by {
        law_parent_index_lists_children(nodes, x);
    }
    assert(ch_idx =~= ch_scan);
    lemma_scan_universe(nodes);
    lemma_index_universe(idx);
    assert forall|x: Seq<char>| #[trigger] ch_scan(x).len() > 0 implies scan_universe(nodes).contains(x)
        && index_universe(idx).contains(x) by {
        lemma_children_in_universe(nodes, x);
        law_parent_index_lists_children(nodes, x);
        lemma_index_children_in_universe(idx, x);
    }
    lemma_descendants_universe(ch_scan, index_universe(idx), scan_universe(nodes), root, Set::empty());
}


proof fn lemma_first_where_in(s: Seq<NodeView>, p: spec_fn(NodeView) -> bool)
    ensures
        first_where(s, p) matches Some(n) ==> s.contains(n) && p(n),
    decreases s.len(),
{
    if s.len() > 0 && !p(s[0]) {
        let t = s.drop_first();
        lemma_first_where_in(t, p);
        if let Some(n) = first_where(t, p) {
            let k = choose|k: int| 0 <= k < t.len() && t[k] == n;
            assert(s[k + 1] == n);
        }
    }
}

proof fn lemma_chain_from_in(sibs: Seq<NodeView>, cur: NodeView, fuel: nat)
    requires
        sibs.contains(cur),
    ensures
        forall|k: int| 0 <= k < chain_from(sibs, cur, fuel).len() ==> sibs.contains(
            #[trigger] chain_from(sibs, cur, fuel)[k],
        ),
    decreases fuel,
{
    if fuel > 0 {
        lemma_first_where_in(sibs, follows(cur.id));
        if let Some(n) = first_where(sibs, follows(cur.id)) {
            lemma_chain_from_in(sibs, n, (fuel - 1) as nat);
            let c = chain_from(sibs, cur, fuel);
            let tail = chain_from(sibs, n, (fuel - 1) as nat);
            assert forall|k: int| 0 <= k < c.len() implies sibs.contains(#[trigger] c[k]) by {
                if k > 0 {
                    assert(c[k] == tail[k - 1]);
                }
            }
        }
    }
}

/// Appending the missing nodes keeps the nodes already listed, in place.
proof fn lemma_append_missing_prefix(o: Seq<NodeView>, rest: Seq<NodeView>)
    ensures
        append_missing(o, rest).len() >= o.len(),
        forall|i: int| 0 <= i < o.len() ==> #[trigger] append_missing(o, rest)[i] == o[i],
    decreases rest.len(),
{
    if rest.len() > 0 {
        let t = rest.drop_last();
        lemma_append_missing_prefix(o, t);
        let a = append_missing(o, t);
        let r = append_missing(o, rest);
        assert forall|i: int| 0 <= i < o.len() implies #[trigger] r[i] == o[i] by {
            assert(a[i] == o[i]);
            if r != a {
                assert(r == a.push(rest.last()));
            }
        }
    }
}

/// Along a chain with fuel left, the node after the `j`-th is the first sibling naming
/// the `j`-th as its predecessor.
proof fn lemma_chain_next(sibs: Seq<NodeView>, cur: NodeView, fuel: nat, j: int)
    requires
        0 <= j < fuel,
        j < chain_from(sibs, cur, fuel).len(),
        first_where(sibs, follows(chain_from(sibs, cur, fuel)[j].id)) is Some,
    ensures
        j + 1 < chain_from(sibs, cur, fuel).len(),
        chain_from(sibs, cur, fuel)[j + 1] == first_where(sibs, follows(chain_from(sibs, cur, fuel)[j].id))->0,
    decreases j,
{
    let c = chain_from(sibs, cur, fuel);
    assert(c[0] == cur);
    if first_where(sibs, follows(cur.id)) is None {
        assert(c == seq![cur]);
    }
    let n = first_where(sibs, follows(cur.id))->0;
    let c2 = chain_from(sibs, n, (fuel - 1) as nat);
    assert(c == seq![cur] + c2);
    if (fuel - 1) as nat == 0 {
        assert(c2 == seq![n]);
    } else {
        assert(c2[0] == n) by {
            if first_where(sibs, follows(n.id)) is Some {
                assert(c2 == seq![n] + chain_from(sibs, first_where(sibs, follows(n.id))->0, (fuel - 2) as nat));
            }
        }
    }
    if j == 0 {
        assert(c[1] == c2[0]);
    } else {
        assert(c[j] == c2[j - 1]);
        lemma_chain_next(sibs, n, (fuel - 1) as nat, j - 1);
        assert(c[j + 1] == c2[j]);
    }
}

/// The first `k + 1` siblings of an ordering each have a sibling naming them as
/// predecessor.
pub open spec fn chain_walkable(sibs: Seq<NodeView>, o: Seq<NodeView>, k: int) -> bool {
    forall|j: int| 0 <= j <= k ==> j < o.len() && (#[trigger] first_where(sibs, follows(o[j].id))) is Some
}

proof fn lemma_order_follows_chain(sibs: Seq<NodeView>, k: int)
    requires
        first_where(sibs, heads()) is Some,
        0 <= k < sibs.len(),
        chain_walkable(sibs, chain_order(sibs), k),
    ensures
        k + 1 < chain_order(sibs).len(),
        k + 1 < chain_from(sibs, first_where(sibs, heads())->0, sibs.len()).len(),
        chain_order(sibs)[k] == chain_from(sibs, first_where(sibs, heads())->0, sibs.len())[k],
        chain_order(sibs)[k + 1] == first_where(sibs, follows(chain_order(sibs)[k].id))->0,
    decreases k,
{
    let f = first_where(sibs, heads())->0;
    let c = chain_from(sibs, f, sibs.len());
    let o = chain_order(sibs);
    assert(o == append_missing(c, sibs));
    lemma_append_missing_prefix(c, sibs);
    if k > 0 {
        assert(chain_walkable(sibs, o, k - 1)) by {
            assert forall|j: int| 0 <= j <= k - 1 implies j < o.len() && (#[trigger] first_where(sibs, follows(o[j].id))) is Some by {
                assert(0 <= j <= k);
            }
        }
        lemma_order_follows_chain(sibs, k - 1);
    } else {
        assert(c.len() >= 1);
    }
    assert(k < c.len());
    assert(o[k] == c[k]);
    assert(first_where(sibs, follows(o[k].id)) is Some);
    lemma_chain_next(sibs, f, sibs.len(), k);
    assert(o[k + 1] == c[k + 1]);
}

/// Ordering siblings by their chain starts at the first sibling that names no
/// predecessor and follows the whole chain: as long as each sibling listed so far has a
/// sibling naming it as its predecessor, the next one listed is the first such sibling.
pub proof fn law_sibling_chain_is_followed(sibs: Seq<NodeView>)
    requires
        first_where(sibs, heads()) is Some,
    ensures
        chain_order(sibs).len() >= 1,
        chain_order(sibs)[0] == first_where(sibs, heads())->0,
        forall|k: int|
            0 <= k < sibs.len() && #[trigger] chain_walkable(sibs, chain_order(sibs), k) ==> k + 1
                < chain_order(sibs).len() && chain_order(sibs)[k + 1] == first_where(
                sibs,
                follows(chain_order(sibs)[k].id),
            )->0,
{
    let f = first_where(sibs, heads())->0;
    let c = chain_from(sibs, f, sibs.len());
    lemma_append_missing_prefix(c, sibs);
    lemma_first_where_in(sibs, heads());
    assert(sibs.len() > 0);
    assert(chain_order(sibs) == append_missing(c, sibs));
    assert(c[0] == f);
    assert forall|k: int|
        0 <= k < sibs.len() && #[trigger] chain_walkable(sibs, chain_order(sibs), k) implies k + 1
            < chain_order(sibs).len() && chain_order(sibs)[k + 1] == first_where(
            sibs,
            follows(chain_order(sibs)[k].id),
        )->0 by {
        lemma_order_follows_chain(sibs, k);
    }
}

proof fn lemma_append_missing(o: Seq<NodeView>, rest: Seq<NodeView>)
    ensures
        forall|i: int| 0 <= i < rest.len() ==> ids_of(append_missing(o, rest)).contains(#[trigger] rest[i].id),
        forall|k: int|
            0 <= k < append_missing(o, rest).len() ==> o.contains(#[trigger] append_missing(o, rest)[k])
                || rest.contains(append_missing(o, rest)[k]),
    decreases rest.len(),
{
    if rest.len() > 0 {
        let t = rest.drop_last();
        lemma_append_missing(o, t);
        let a = append_missing(o, t);
        let r = append_missing(o, rest);
        assert(ids_of(a) == a.map_values(|n: NodeView| n.id));
        assert forall|i: int| 0 <= i < rest.len() implies ids_of(r).contains(#[trigger] rest[i].id) by {
            if i < t.len() {
                assert(t[i] == rest[i]);
                let j = choose|j: int| 0 <= j < ids_of(a).len() && ids_of(a)[j] == t[i].id;
                if r != a {
                    assert(r == a.push(rest.last()));
                    assert(ids_of(r)[j] == ids_of(a)[j]);
                }
            } else if r != a {
                assert(r == a.push(rest.last()));
                assert(ids_of(r)[a.len() as int] == rest.last().id);
            }
        }
        assert forall|k: int| 0 <= k < r.len() implies o.contains(#[trigger] r[k]) || rest.contains(r[k]) by {
            if k < a.len() {
                assert(r[k] == a[k]);
                if t.contains(a[k]) {
                    let j = choose|j: int| 0 <= j < t.len() && t[j] == a[k];
                    assert(rest[j] == t[j]);
                }
            } else {
                assert(r[k] == rest[rest.len() - 1]);
            }
        }
    }
}

/// Ordering siblings by their chain loses none of them and adds none: every sibling's
/// identifier occurs in the order, and every node of the order is one of the siblings.
pub proof fn law_sibling_order_keeps_siblings(sibs: Seq<NodeView>)
    ensures
        forall|i: int| 0 <= i < sibs.len() ==> ids_of(chain_order(sibs)).contains(#[trigger] sibs[i].id),
        forall|k: int| 0 <= k < chain_order(sibs).len() ==> sibs.contains(#[trigger] chain_order(sibs)[k]),
{
    broadcast use vstd::seq_lib::group_to_multiset_ensures;
    let r = chain_order(sibs);
    if sibs.len() > 0 {
        lemma_first_where_in(sibs, heads());
        match first_where(sibs, heads()) {
            Some(f) => {
                let c = chain_from(sibs, f, sibs.len());
                lemma_chain_from_in(sibs, f, sibs.len());
                lemma_append_missing(c, sibs);
            },
            None => {
                crate::ordering::law_stable_sort_permutes(sibs, created_gt());
                assert forall|i: int| 0 <= i < sibs.len() implies ids_of(r).contains(#[trigger] sibs[i].id) by {
                    assert(sibs.to_multiset().count(sibs[i]) > 0);
                    assert(r.contains(sibs[i]));
                    let j = choose|j: int| 0 <= j < r.len() && r[j] == sibs[i];
                    assert(ids_of(r)[j] == sibs[i].id);
                }
                assert forall|k: int| 0 <= k < r.len() implies sibs.contains(#[trigger] r[k]) by {
                    assert(r.to_multiset().count(r[k]) > 0);
                }
            },
        }
    }
}


/// Sorting by creation time puts the nodes in order of their creation stamps (compared
/// as texts), keeping every node.
pub proof fn law_creation_sort_is_ordered(nodes: Seq<NodeView>)
    ensures
        crate::ordering::is_ordered(stable_sorted(nodes, created_gt()), created_gt()),
        stable_sorted(nodes, created_gt()).to_multiset() == nodes.to_multiset(),
{
    let gt = created_gt();
    assert forall|a: NodeView, b: NodeView| #[trigger] gt(a, b) implies !gt(b, a) by {
        crate::ordering::lemma_text_lt_asym(b.created_at, a.created_at);
    }
    assert forall|a: NodeView, b: NodeView, c: NodeView| #![trigger gt(a, b), gt(b, c)] !gt(a, b) && !gt(b, c) implies !gt(a, c) by {
        crate::ordering::lemma_text_lt_split(a.created_at, b.created_at, c.created_at);
    }
    crate::ordering::law_stable_sort_orders(nodes, gt);
    crate::ordering::law_stable_sort_permutes(nodes, gt);
}


/// The nodes with every node named `n` placed under `p`.
pub open spec fn reparented(nodes: Seq<NodeView>, n: Seq<char>, p: Seq<char>) -> Seq<NodeView> {
    nodes.map_values(|x: NodeView| if x.id == n { NodeView { parent_id: Some(p), ..x } } else { x })
}

/// The descendants of `u` found by scanning `nodes` (see `get_all_descendants`).
pub open spec fn scan_walk(nodes: Seq<NodeView>, u: Seq<char>) -> Seq<NodeView> {
    descendants(|v: Seq<char>| children_in(nodes, v), scan_universe(nodes), u, Set::empty())
}

/// Every node of `xs` has its identifier among those of `s`.
pub open spec fn covers(s: Seq<NodeView>, xs: Seq<NodeView>) -> bool {
    forall|j: int| 0 <= j < xs.len() ==> ids_of(s).contains(#[trigger] xs[j].id)
}

proof fn lemma_covers_concat(a: Seq<NodeView>, b: Seq<NodeView>, xs: Seq<NodeView>)
    ensures
        covers(a, xs) ==> covers(a + b, xs),
        covers(b, xs) ==> covers(a + b, xs),
{
    if covers(a, xs) {
        assert forall|j: int| 0 <= j < xs.len() implies ids_of(a + b).contains(#[trigger] xs[j].id) by {
            let q = choose|q: int| 0 <= q < ids_of(a).len() && ids_of(a)[q] == xs[j].id;
            assert(ids_of(a + b)[q] == ids_of(a)[q]);
        }
    }
    if covers(b, xs) {
        assert forall|j: int| 0 <= j < xs.len() implies ids_of(a + b).contains(#[trigger] xs[j].id) by {
            let q = choose|q: int| 0 <= q < ids_of(b).len() && ids_of(b)[q] == xs[j].id;
            assert(ids_of(a + b)[a.len() + q] == ids_of(b)[q]);
        }
    }
}

/// A node listed by a walk from `u` that is neither `u` nor on the path `path` has all
/// its children listed too.
proof fn lemma_walk_closed(
    ch: spec_fn(Seq<char>) -> Seq<NodeView>,
    univ: Set<Seq<char>>,
    u: Seq<char>,
    path: Set<Seq<char>>,
)
    requires
        univ.finite(),
        forall|x: Seq<char>| #[trigger] ch(x).len() > 0 ==> univ.contains(x),
        !path.contains(u),
    ensures
        forall|i: int|
            0 <= i < descendants(ch, univ, u, path).len() ==> path.contains(
                #[trigger] descendants(ch, univ, u, path)[i].id,
            ) || descendants(ch, univ, u, path)[i].id == u || covers(
                descendants(ch, univ, u, path),
                ch(descendants(ch, univ, u, path)[i].id),
            ),
        univ.contains(u) ==> covers(descendants(ch, univ, u, path), ch(u)),
    decreases univ.difference(path).len(), 0int, 0int,
{
    let d = descendants(ch, univ, u, path);
    if univ.contains(u) {
        lemma_measure_shrinks(univ, path, u);
        let cs = ch(u);
        let q = path.insert(u);
        lemma_walk_rev_closed(ch, univ, cs, cs.len() as int, q);
        let r = descendants_rev(ch, univ, cs, cs.len() as int, q);
        assert(d == cs + r);
        assert(cs.take(cs.len() as int) =~= cs);
        assert(covers(d, cs)) by {
            assert forall|j: int| 0 <= j < cs.len() implies ids_of(d).contains(#[trigger] cs[j].id) by {
                assert(ids_of(d)[j] == cs[j].id);
            }
        }
        assert forall|i: int|
            0 <= i < d.len() implies path.contains(#[trigger] d[i].id) || d[i].id == u || covers(d, ch(d[i].id)) by {
            let x = d[i];
            if i < cs.len() {
                assert(x == cs[i]);
                if !q.contains(x.id) {
                    assert(covers(r, ch(x.id)));
                    lemma_covers_concat(cs, r, ch(x.id));
                }
            } else {
                assert(x == r[i - cs.len()]);
                if !q.contains(x.id) {
                    if !covers(r, ch(x.id)) {
                        assert(ids_of(cs).contains(x.id));
                        let j = choose|j: int| 0 <= j < ids_of(cs).len() && ids_of(cs)[j] == x.id;
                        assert(cs[j].id == x.id);
                    }
                    lemma_covers_concat(cs, r, ch(x.id));
                }
            }
        }
    } else {
        assert(ch(u).len() == 0);
        assert(d == ch(u));
    }
}

proof fn lemma_walk_rev_closed(
    ch: spec_fn(Seq<char>) -> Seq<NodeView>,
    univ: Set<Seq<char>>,
    cs: Seq<NodeView>,
    k: int,
    path: Set<Seq<char>>,
)
    requires
        univ.finite(),
        forall|x: Seq<char>| #[trigger] ch(x).len() > 0 ==> univ.contains(x),
        0 <= k <= cs.len(),
    ensures
        forall|i: int|
            0 <= i < descendants_rev(ch, univ, cs, k, path).len() ==> path.contains(
                #[trigger] descendants_rev(ch, univ, cs, k, path)[i].id,
            ) || ids_of(cs.take(k)).contains(descendants_rev(ch, univ, cs, k, path)[i].id) || covers(
                descendants_rev(ch, univ, cs, k, path),
                ch(descendants_rev(ch, univ, cs, k, path)[i].id),
            ),
        forall|j: int|
            0 <= j < k ==> path.contains(#[trigger] cs[j].id) || covers(
                descendants_rev(ch, univ, cs, k, path),
                ch(cs[j].id),
            ),
    decreases univ.difference(path).len(), 1int, k,
{
    if k > 0 {
        let c = cs[k - 1].id;
        let here = if path.contains(c) {
            Seq::<NodeView>::empty()
        } else {
            descendants(ch, univ, c, path)
        };
        lemma_walk_rev_closed(ch, univ, cs, k - 1, path);
        let rest = descendants_rev(ch, univ, cs, k - 1, path);
        let r = descendants_rev(ch, univ, cs, k, path);
        assert(r == here + rest);
        if !path.contains(c) {
            lemma_walk_closed(ch, univ, c, path);
        }
        assert forall|j: int| 0 <= j < ids_of(cs.take(k - 1)).len() implies ids_of(cs.take(k)).contains(
            #[trigger] ids_of(cs.take(k - 1))[j],
        ) by {
            assert(ids_of(cs.take(k))[j] == ids_of(cs.take(k - 1))[j]);
        }
        assert(ids_of(cs.take(k))[k - 1] == c);
        assert forall|i: int|
            0 <= i < r.len() implies path.contains(#[trigger] r[i].id) || ids_of(cs.take(k)).contains(r[i].id)
                || covers(r, ch(r[i].id)) by {
            let x = r[i];
            if i < here.len() {
                assert(x == here[i]);
                if !path.contains(x.id) && x.id != c {
                    lemma_covers_concat(here, rest, ch(x.id));
                }
            } else {
                assert(x == rest[i - here.len()]);
                if !path.contains(x.id) && !ids_of(cs.take(k - 1)).contains(x.id) {
                    lemma_covers_concat(here, rest, ch(x.id));
                }
            }
        }
        assert forall|j: int| 0 <= j < k implies path.contains(#[trigger] cs[j].id) || covers(r, ch(cs[j].id)) by {
            if !path.contains(cs[j].id) {
                if j < k - 1 {
                    lemma_covers_concat(here, rest, ch(cs[j].id));
                } else if univ.contains(c) {
                    lemma_covers_concat(here, rest, ch(c));
                } else {
                    assert(ch(c).len() == 0);
                }
            }
        }
    }
}


proof fn lemma_children_reparented(nodes: Seq<NodeView>, n: Seq<char>, p: Seq<char>, x: Seq<char>)
    requires
        x != p,
        forall|i: int| 0 <= i < nodes.len() && #[trigger] nodes[i].id == n ==> nodes[i].parent_id != Some(x),
    ensures
        children_in(reparented(nodes, n, p), x) == children_in(nodes, x),
    decreases nodes.len(),
{
    if nodes.len() > 0 {
        let t = nodes.drop_last();
        assert forall|i: int| 0 <= i < t.len() && #[trigger] t[i].id == n implies t[i].parent_id != Some(x) by {
            assert(t[i] == nodes[i]);
        }
        lemma_children_reparented(t, n, p, x);
        assert(reparented(nodes, n, p).drop_last() =~= reparented(t, n, p));
        let last = nodes.last();
        assert(nodes[nodes.len() - 1] == last);
        assert(reparented(nodes, n, p).last() == (if last.id == n {
            NodeView { parent_id: Some(p), ..last }
        } else {
            last
        }));
    }
}

/// Two walks agree at `x`: the same children, and `x` in both universes when it has
/// children.
pub open spec fn walks_agree_at(
    ch1: spec_fn(Seq<char>) -> Seq<NodeView>,
    ch2: spec_fn(Seq<char>) -> Seq<NodeView>,
    u1: Set<Seq<char>>,
    u2: Set<Seq<char>>,
    x: Seq<char>,
) -> bool {
    &&& ch1(x) == ch2(x)
    &&& ch1(x).len() > 0 ==> u1.contains(x) && u2.contains(x)
}

proof fn lemma_walk_congruence(
    ch1: spec_fn(Seq<char>) -> Seq<NodeView>,
    ch2: spec_fn(Seq<char>) -> Seq<NodeView>,
    u1: Set<Seq<char>>,
    u2: Set<Seq<char>>,
    u: Seq<char>,
    path: Set<Seq<char>>,
)
    requires
        u1.finite(),
        u2.finite(),
        walks_agree_at(ch1, ch2, u1, u2, u),
        forall|i: int|
            0 <= i < descendants(ch1, u1, u, path).len() ==> walks_agree_at(
                ch1,
                ch2,
                u1,
                u2,
                #[trigger] descendants(ch1, u1, u, path)[i].id,
            ),
    ensures
        descendants(ch1, u1, u, path) == descendants(ch2, u2, u, path),
    decreases u1.difference(path).len() + u2.difference(path).len(), 0int, 0int,
{
    let in1 = !path.contains(u) && u1.contains(u);
    let in2 = !path.contains(u) && u2.contains(u);
    if in1 && in2 {
        lemma_measure_shrinks(u1, path, u);
        lemma_measure_shrinks(u2, path, u);
        let cs = ch1(u);
        let d1 = descendants(ch1, u1, u, path);
        let r1 = descendants_rev(ch1, u1, cs, cs.len() as int, path.insert(u));
        assert(d1 == cs + r1);
        assert forall|j: int| 0 <= j < cs.len() implies walks_agree_at(ch1, ch2, u1, u2, #[trigger] cs[j].id) by {
            assert(d1[j] == cs[j]);
        }
        assert forall|i: int| 0 <= i < r1.len() implies walks_agree_at(ch1, ch2, u1, u2, #[trigger] r1[i].id) by {
            assert(d1[cs.len() + i] == r1[i]);
        }
        lemma_walk_rev_congruence(ch1, ch2, u1, u2, cs, cs.len() as int, path.insert(u));
    } else if in1 || in2 {
        assert(ch1(u).len() == 0);
        assert(descendants_rev(ch1, u1, ch1(u), 0, path.insert(u)) == Seq::<NodeView>::empty());
        assert(descendants_rev(ch2, u2, ch2(u), 0, path.insert(u)) == Seq::<NodeView>::empty());
        assert(ch1(u) + Seq::<NodeView>::empty() =~= ch1(u));
    }
}

proof fn lemma_walk_rev_congruence(
    ch1: spec_fn(Seq<char>) -> Seq<NodeView>,
    ch2: spec_fn(Seq<char>) -> Seq<NodeView>,
    u1: Set<Seq<char>>,
    u2: Set<Seq<char>>,
    cs: Seq<NodeView>,
    k: int,
    path: Set<Seq<char>>,
)
    requires
        u1.finite(),
        u2.finite(),
        0 <= k <= cs.len(),
        forall|j: int| 0 <= j < k ==> walks_agree_at(ch1, ch2, u1, u2, #[trigger] cs[j].id),
        forall|i: int|
            0 <= i < descendants_rev(ch1, u1, cs, k, path).len() ==> walks_agree_at(
                ch1,
                ch2,
                u1,
                u2,
                #[trigger] descendants_rev(ch1, u1, cs, k, path)[i].id,
            ),
    ensures
        descendants_rev(ch1, u1, cs, k, path) == descendants_rev(ch2, u2, cs, k, path),
    decreases u1.difference(path).len() + u2.difference(path).len(), 1int, k,
{
    if k > 0 {
        let c = cs[k - 1].id;
        let r1 = descendants_rev(ch1, u1, cs, k, path);
        let rest1 = descendants_rev(ch1, u1, cs, k - 1, path);
        if !path.contains(c) {
            let h1 = descendants(ch1, u1, c, path);
            assert(r1 == h1 + rest1);
            assert forall|i: int| 0 <= i < h1.len() implies walks_agree_at(ch1, ch2, u1, u2, #[trigger] h1[i].id) by {
                assert(r1[i] == h1[i]);
            }
            assert forall|i: int| 0 <= i < rest1.len() implies walks_agree_at(ch1, ch2, u1, u2, #[trigger] rest1[i].id) by {
                assert(r1[h1.len() + i] == rest1[i]);
            }
            lemma_walk_congruence(ch1, ch2, u1, u2, c, path);
        } else {
            assert(r1 == Seq::<NodeView>::empty() + rest1);
            assert(Seq::<NodeView>::empty() + rest1 =~= rest1);
        }
        lemma_walk_rev_congruence(ch1, ch2, u1, u2, cs, k - 1, path);
    }
}

/// A move that passes the check (the new parent is neither the node nor one of its
/// descendants) leaves the node's descendants as they were, when the node was not its
/// own descendant: the new parent is still not among them, and no cycle through the
/// node arises.
pub proof fn law_checked_move_keeps_subtree(nodes: Seq<NodeView>, n: Seq<char>, p: Seq<char>)
    requires
        p != n,
        !ids_of(scan_walk(nodes, n)).contains(p),
        !ids_of(scan_walk(nodes, n)).contains(n),
    ensures
        scan_walk(reparented(nodes, n, p), n) == scan_walk(nodes, n),
        !ids_of(scan_walk(reparented(nodes, n, p), n)).contains(n),
        !ids_of(scan_walk(reparented(nodes, n, p), n)).contains(p),
{
    let moved = reparented(nodes, n, p);
    let ch1 = |v: Seq<char>| children_in(nodes, v);
    let ch2 = |v: Seq<char>| children_in(moved, v);
    let u1 = scan_universe(nodes);
    let u2 = scan_universe(moved);
    let w = scan_walk(nodes, n);
    lemma_scan_universe(nodes);
    lemma_scan_universe(moved);
    assert forall|x: Seq<char>| #[trigger] ch1(x).len() > 0 implies u1.contains(x) by {
        lemma_children_in_universe(nodes, x);
    }
    lemma_walk_closed(ch1, u1, n, Set::empty());
    assert(ids_of(w) == w.map_values(|v: NodeView| v.id));
    // A listed node, or the node itself, never has the moved node as a child.
    assert forall|x: Seq<char>| #![trigger walks_agree_at(ch1, ch2, u1, u2, x)] (x == n || ids_of(w).contains(x)) implies walks_agree_at(ch1, ch2, u1, u2, x) by {
        assert(x != p);
        assert forall|i: int| 0 <= i < nodes.len() && #[trigger] nodes[i].id == n implies nodes[i].parent_id != Some(x) by {
            if nodes[i].parent_id == Some(x) {
                let f = |m: NodeView| is_child_of(m, x);
                crate::lru::lemma_kept_contains(nodes, f, i);
                let c = ch1(x);
                let j = choose|j: int| 0 <= j < c.len() && c[j] == nodes[i];
                if x == n {
                    if u1.contains(n) {
                        assert(covers(w, ch1(n)));
                        assert(ids_of(w).contains(c[j].id));
                    } else {
                        assert(c.len() == 0);
                    }
                } else {
                    let q = choose|q: int| 0 <= q < ids_of(w).len() && ids_of(w)[q] == x;
                    assert(w[q].id == x);
                    assert(covers(w, ch1(w[q].id)));
                    assert(ids_of(w).contains(c[j].id));
                }
            }
        }
        lemma_children_reparented(nodes, n, p, x);
        assert(ch1(x) == ch2(x));
        if ch1(x).len() > 0 {
            lemma_children_in_universe(moved, x);
        }
    }
    assert forall|i: int| 0 <= i < w.len() implies walks_agree_at(ch1, ch2, u1, u2, #[trigger] w[i].id) by {
        assert(ids_of(w)[i] == w[i].id);
        assert(ids_of(w).contains(w[i].id));
    }
    assert(walks_agree_at(ch1, ch2, u1, u2, n));
    lemma_walk_congruence(ch1, ch2, u1, u2, n, Set::empty());
}

} // verus!
