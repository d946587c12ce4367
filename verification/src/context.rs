use vstd::prelude::*;

use crate::hierarchy::node_views;
use crate::model::{Node, NodeView, content_text, decimal, push_decimal};
use crate::text::{join, joined, push_str, views_of};

verus! {

/// At most the first `n` elements.
pub open spec fn take_upto<A>(s: Seq<A>, n: nat) -> Seq<A> {
    if n < s.len() {
        s.take(n as int)
    } else {
        s
    }
}

/// For each node with text content, in order, `label: text`.
pub open spec fn labelled(nodes: Seq<NodeView>, label: Seq<char>) -> Seq<Seq<char>>
    decreases nodes.len(),
{
    if nodes.len() == 0 {
        Seq::empty()
    } else {
        let prev = labelled(nodes.drop_last(), label);
        match content_text(nodes.last()) {
            Some(t) => prev.push(label + ": "@ + t),
            None => prev,
        }
    }
}

/// The siblings of `node` other than itself, at most `max` of them.
pub open spec fn other_siblings(node: NodeView, siblings: Seq<NodeView>, max: nat) -> Seq<NodeView> {
    take_upto(crate::lru::kept(siblings, |s: NodeView| s.id != node.id), max)
}

/// The lines about a node's siblings (only when it has a parent) and children.
pub open spec fn family_lines(
    node: NodeView,
    siblings: Seq<NodeView>,
    children: Seq<NodeView>,
    max_siblings: nat,
    max_children: nat,
) -> Seq<Seq<char>> {
    (if node.parent_id is Some {
        labelled(other_siblings(node, siblings, max_siblings), "Sibling"@)
    } else {
        Seq::empty()
    }) + labelled(take_upto(children, max_children), "Child"@)
}

/// The lines of the contextual text of a node: its content, its parent's content, and
/// its family.
pub open spec fn contextual_lines(
    node: NodeView,
    parent: Option<NodeView>,
    siblings: Seq<NodeView>,
    children: Seq<NodeView>,
    max_siblings: nat,
    max_children: nat,
) -> Seq<Seq<char>> {
    labelled(seq![node], "Content"@) + (match parent {
        Some(p) => labelled(seq![p], "Parent"@),
        None => Seq::empty(),
    }) + family_lines(node, siblings, children, max_siblings, max_children)
}

/// The label of an ancestor at the given level (0 for the root).
pub open spec fn level_label(level: nat) -> Seq<char> {
    if level == 0 {
        "Root"@
    } else {
        "Level "@ + decimal(level)
    }
}

/// For each ancestor with text content, root first, its level label and content.
pub open spec fn ancestor_lines(ancestors: Seq<NodeView>) -> Seq<Seq<char>>
    decreases ancestors.len(),
{
    if ancestors.len() == 0 {
        Seq::empty()
    } else {
        let prev = ancestor_lines(ancestors.drop_last());
        match content_text(ancestors.last()) {
            Some(t) => prev.push(level_label((ancestors.len() - 1) as nat) + ": "@ + t),
            None => prev,
        }
    }
}

/// The lines of the hierarchical text of a node: its ancestry, its own content, and its
/// family.
pub open spec fn hierarchical_lines(
    node: NodeView,
    ancestors: Seq<NodeView>,
    siblings: Seq<NodeView>,
    children: Seq<NodeView>,
    max_siblings: nat,
    max_children: nat,
) -> Seq<Seq<char>> {
    ancestor_lines(ancestors) + labelled(seq![node], "Current"@) + family_lines(
        node,
        siblings,
        children,
        max_siblings,
        max_children,
    )
}

/// Appends `label: text` for each of the nodes with text content.
fn push_labelled(lines: &mut Vec<String>, nodes: &Vec<Node>, label: &str)
    ensures
        views_of(final(lines)@) == views_of(old(lines)@) + labelled(node_views(nodes@), label@),
{
    let ghost start = views_of(lines@);
    let ghost nv = node_views(nodes@);
    let mut i: usize = 0;
    proof {
        assert(start =~= start + labelled(nv.take(0), label@));
    }
    while i < nodes.len()
        invariant
            i <= nodes@.len(),
            nv == node_views(nodes@),
            views_of(lines@) == start + labelled(nv.take(i as int), label@),
        decreases nodes@.len() - i,
    {
        proof {
            assert(nv.take(i + 1).drop_last() =~= nv.take(i as int));
            assert(nv.take(i + 1).last() == nodes@[i as int]@);
        }
        let ghost before = views_of(lines@);
        match nodes[i].content_str() {
            Some(t) => {
                let mut line = String::new();
                push_str(&mut line, label);
                push_str(&mut line, ": ");
                push_str(&mut line, t.as_str());
                let ghost lv = line@;
                lines.push(line);
                proof {
                    assert(views_of(lines@) =~= before.push(lv));
                }
            },
            None => {},
        }
        i = i + 1;
    }
    proof {
        assert(nv.take(nodes@.len() as int) =~= nv);
    }
}

/// Copies of at most `max` nodes, skipping the node whose identifier is that of `node`.
fn first_others(node: &Node, siblings: &Vec<Node>, max: usize) -> (r: Vec<Node>)
    ensures
        node_views(r@) == other_siblings(node@, node_views(siblings@), max as nat),
{
    let ghost sv = node_views(siblings@);
    let ghost keep = |s: NodeView| s.id != node@.id;
    let mut all: Vec<Node> = Vec::new();
    let mut i: usize = 0;
    while i < siblings.len()
        invariant
            i <= siblings@.len(),
            sv == node_views(siblings@),
            keep == (|s: NodeView| s.id != node@.id),
            node_views(all@) == crate::lru::kept(sv.take(i as int), keep),
        decreases siblings@.len() - i,
    {
        proof {
            crate::lru::lemma_kept_take(sv, keep, i as int);
        }
        let ghost before = node_views(all@);
        if !(siblings[i].id == node.id) {
            all.push(siblings[i].dup());
            proof {
                assert(node_views(all@) =~= before.push(sv[i as int]));
            }
        }
        i = i + 1;
    }
    proof {
        assert(sv.take(siblings@.len() as int) =~= sv);
    }
    take_nodes(&all, max)
}

/// Copies of at most the first `max` nodes.
fn take_nodes(nodes: &Vec<Node>, max: usize) -> (r: Vec<Node>)
    ensures
        node_views(r@) == take_upto(node_views(nodes@), max as nat),
{
    let ghost nv = node_views(nodes@);
    let mut r: Vec<Node> = Vec::new();
    let mut i: usize = 0;
    while i < nodes.len() && i < max
        invariant
            i <= nodes@.len(),
            i <= max,
            nv == node_views(nodes@),
            node_views(r@) == nv.take(i as int),
        decreases nodes@.len() - i,
    {
        let ghost before = node_views(r@);
        r.push(nodes[i].dup());
        proof {
            assert(node_views(r@) =~= before.push(nv[i as int]));
            assert(nv.take(i + 1) =~= nv.take(i as int).push(nv[i as int]));
        }
        i = i + 1;
    }
    proof {
        if max >= nodes@.len() {
            assert(nv.take(i as int) =~= nv);
        }
    }
    r
}

/// Appends the family lines of `node`.
fn push_family(
    lines: &mut Vec<String>,
    node: &Node,
    siblings: &Vec<Node>,
    children: &Vec<Node>,
    max_siblings: usize,
    max_children: usize,
)
    ensures
        views_of(final(lines)@) == views_of(old(lines)@) + family_lines(
            node@,
            node_views(siblings@),
            node_views(children@),
            max_siblings as nat,
            max_children as nat,
        ),
{
    let ghost start = views_of(lines@);
    if node.parent_id.is_some() {
        let others = first_others(node, siblings, max_siblings);
        push_labelled(lines, &others, "Sibling");
    }
    let kids = take_nodes(children, max_children);
    push_labelled(lines, &kids, "Child");
    proof {
        assert(views_of(lines@) =~= start + family_lines(
            node@,
            node_views(siblings@),
            node_views(children@),
            max_siblings as nat,
            max_children as nat,
        ));
    }
}

/// Copies a node into a one-element list.
fn single(node: &Node) -> (r: Vec<Node>)
    ensures
        node_views(r@) == seq![node@],
{
    let mut r: Vec<Node> = Vec::new();
    r.push(node.dup());
    proof {
        assert(node_views(r@) =~= seq![node@]);
    }
    r
}

/// The text used for a node's contextual embedding: its content, its parent's content,
/// up to `max_siblings` siblings and up to `max_children` children, one labelled line
/// each, joined by newlines.
pub fn build_contextual_content(
    node: &Node,
    parent: Option<&Node>,
    siblings: &Vec<Node>,
    children: &Vec<Node>,
    max_siblings: usize,
    max_children: usize,
) -> (r: String)
    ensures
        r@ == joined(
            contextual_lines(
                node@,
                match parent {
                    Some(p) => Some(p@),
                    None => None,
                },
                node_views(siblings@),
                node_views(children@),
                max_siblings as nat,
                max_children as nat,
            ),
            "\n"@,
        ),
{
    let mut lines: Vec<String> = Vec::new();
    let ghost start = views_of(lines@);
    push_labelled(&mut lines, &single(node), "Content");
    match parent {
        Some(p) => push_labelled(&mut lines, &single(p), "Parent"),
        None => {},
    }
    push_family(&mut lines, node, siblings, children, max_siblings, max_children);
    proof {
        assert(start =~= Seq::<Seq<char>>::empty());
        assert(views_of(lines@) =~= contextual_lines(
            node@,
            match parent {
                Some(p) => Some(p@),
                None => None,
            },
            node_views(siblings@),
            node_views(children@),
            max_siblings as nat,
            max_children as nat,
        ));
    }
    join(&lines, "\n")
}

/// Appends the ancestry lines, root first.
fn push_ancestors(lines: &mut Vec<String>, ancestors: &Vec<Node>)
    ensures
        views_of(final(lines)@) == views_of(old(lines)@) + ancestor_lines(node_views(ancestors@)),
{
    let ghost start = views_of(lines@);
    let ghost av = node_views(ancestors@);
    let mut i: usize = 0;
    proof {
        assert(start =~= start + ancestor_lines(av.take(0)));
    }
    while i < ancestors.len()
        invariant
            i <= ancestors@.len(),
            av == node_views(ancestors@),
            views_of(lines@) == start + ancestor_lines(av.take(i as int)),
        decreases ancestors@.len() - i,
    {
        proof {
            assert(av.take(i + 1).drop_last() =~= av.take(i as int));
            assert(av.take(i + 1).last() == ancestors@[i as int]@);
            assert(av.take(i + 1).len() - 1 == i);
        }
        let ghost before = views_of(lines@);
        match ancestors[i].content_str() {
            Some(t) => {
                let mut line = String::new();
                if i == 0 {
                    push_str(&mut line, "Root");
                } else {
                    push_str(&mut line, "Level ");
                    push_decimal(&mut line, i as u64);
                }
                push_str(&mut line, ": ");
                push_str(&mut line, t.as_str());
                let ghost lv = line@;
                lines.push(line);
                proof {
                    assert(views_of(lines@) =~= before.push(lv));
                }
            },
            None => {},
        }
        i = i + 1;
    }
    proof {
        assert(av.take(ancestors@.len() as int) =~= av);
    }
}

/// The text used for a node's hierarchical embedding: one line per ancestor with
/// content (root first, labelled by level), its own content, then up to `max_siblings`
/// siblings and up to `max_children` children, joined by newlines.
pub fn build_hierarchical_content(
    node: &Node,
    ancestors: &Vec<Node>,
    siblings: &Vec<Node>,
    children: &Vec<Node>,
    max_siblings: usize,
    max_children: usize,
) -> (r: String)
    ensures
        r@ == joined(
            hierarchical_lines(
                node@,
                node_views(ancestors@),
                node_views(siblings@),
                node_views(children@),
                max_siblings as nat,
                max_children as nat,
            ),
            "\n"@,
        ),
{
    let mut lines: Vec<String> = Vec::new();
    let ghost start = views_of(lines@);
    push_ancestors(&mut lines, ancestors);
    push_labelled(&mut lines, &single(node), "Current");
    push_family(&mut lines, node, siblings, children, max_siblings, max_children);
    proof {
        assert(start =~= Seq::<Seq<char>>::empty());
        assert(views_of(lines@) =~= hierarchical_lines(
            node@,
            node_views(ancestors@),
            node_views(siblings@),
            node_views(children@),
            max_siblings as nat,
            max_children as nat,
        ));
    }
    join(&lines, "\n")
}


/// Keeping by a predicate is `Seq::filter`.
proof fn lemma_kept_is_filter(s: Seq<NodeView>, p: spec_fn(NodeView) -> bool)
    ensures
        crate::lru::kept(s, p) == s.filter(p),
    decreases s.len(),
{
    reveal(Seq::filter);
    if s.len() > 0 {
        lemma_kept_is_filter(s.drop_last(), p);
    }
}

/// The siblings listed in a node's context are the first `max` of its parent's
/// children other than the node itself, in their order: none of them carries the
/// node's own identifier.
pub proof fn law_listed_siblings_are_the_first_others(node: NodeView, siblings: Seq<NodeView>, max: nat)
    ensures
        other_siblings(node, siblings, max).len() <= max,
        forall|i: int|
            0 <= i < other_siblings(node, siblings, max).len() ==> (#[trigger] other_siblings(node, siblings, max)[i]).id
                != node.id && siblings.contains(other_siblings(node, siblings, max)[i]),
        other_siblings(node, siblings, max) == ({
            let others = siblings.filter(|s: NodeView| s.id != node.id);
            if max < others.len() {
                others.take(max as int)
            } else {
                others
            }
        }),
{
    let p = |s: NodeView| s.id != node.id;
    lemma_kept_is_filter(siblings, p);
    crate::lru::lemma_kept_sub(siblings, p);
    let k = crate::lru::kept(siblings, p);
    let o = other_siblings(node, siblings, max);
    assert forall|i: int| 0 <= i < o.len() implies (#[trigger] o[i]).id != node.id && siblings.contains(o[i]) by {
        assert(o[i] == k[i]);
        assert(p(k[i]));
    }
}

/// Taking out the node's own entries from the siblings it is given changes neither its
/// contextual nor its hierarchical text: the node is never listed as its own sibling.
pub proof fn law_node_is_not_its_own_sibling(
    node: NodeView,
    parent: Option<NodeView>,
    ancestors: Seq<NodeView>,
    siblings: Seq<NodeView>,
    children: Seq<NodeView>,
    max_siblings: nat,
    max_children: nat,
)
    ensures
        contextual_lines(node, parent, siblings, children, max_siblings, max_children) == contextual_lines(
            node,
            parent,
            siblings.filter(|s: NodeView| s.id != node.id),
            children,
            max_siblings,
            max_children,
        ),
        hierarchical_lines(node, ancestors, siblings, children, max_siblings, max_children) == hierarchical_lines(
            node,
            ancestors,
            siblings.filter(|s: NodeView| s.id != node.id),
            children,
            max_siblings,
            max_children,
        ),
{
    let p = |s: NodeView| s.id != node.id;
    lemma_kept_is_filter(siblings, p);
    crate::lru::lemma_kept_twice(siblings, p, p);
    crate::lru::lemma_kept_ext(siblings, |x: NodeView| p(x) && p(x), p);
    assert(other_siblings(node, siblings, max_siblings) == other_siblings(node, siblings.filter(p), max_siblings));
}

} // verus!
