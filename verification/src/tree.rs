//! The shape of a document, stated over the model alone: which instances lie
//! below another, when a subtree can leave its document in one piece, and what
//! the two documents hold once it has.

use crate::dom::NodeRecord;
use vstd::prelude::*;

verus! {

/// The model of a document: its instances by identity.
pub type Nodes = Map<u128, NodeRecord>;

/// `c` is listed among the children of the instance `p`.
pub open spec fn is_child(nodes: Nodes, p: u128, c: u128) -> bool {
    nodes.contains_key(p) && nodes[p].children.contains(c)
}

/// `d` is found `n` child steps below `top`.
pub open spec fn reach(nodes: Nodes, top: u128, d: u128, n: nat) -> bool
    decreases n,
{
    if n == 0 {
        d == top
    } else {
        exists|p: u128| #[trigger] is_child(nodes, p, d) && reach(nodes, top, p, (n - 1) as nat)
    }
}

/// `d` is `top` or lies below it.
pub open spec fn in_subtree(nodes: Nodes, top: u128, d: u128) -> bool {
    exists|n: nat| reach(nodes, top, d, n)
}

/// The child list of `d` is consistent: `d` is an instance under an identity
/// other than the null identity, lists no child twice, and every child it
/// lists is an instance other than `top` that names `d` as its parent.
pub open spec fn tidy_at(nodes: Nodes, top: u128, d: u128) -> bool {
    &&& d != 0
    &&& nodes.contains_key(d)
    &&& nodes[d].children.no_duplicates()
    &&& forall|j: int|
        0 <= j < nodes[d].children.len() ==> {
            let c = #[trigger] nodes[d].children[j];
            c != top && nodes.contains_key(c) && nodes[c].parent == d
        }
}

/// The subtree at `top` is a tree that can be cut out of the document: every
/// child list in it is consistent, and the parent that `top` names, if it
/// names one, is another instance of the document.
pub open spec fn movable(nodes: Nodes, top: u128) -> bool {
    &&& forall|d: u128| #[trigger] in_subtree(nodes, top, d) ==> tidy_at(nodes, top, d)
    &&& (nodes[top].parent == 0 || (nodes.contains_key(nodes[top].parent) && nodes[top].parent
        != top))
}

/// No identity of the subtree at `top` is in use in `other`.
pub open spec fn clear_of(nodes: Nodes, top: u128, other: Nodes) -> bool {
    forall|d: u128| #[trigger] in_subtree(nodes, top, d) ==> !other.contains_key(d)
}

/// Some instance of the subtree at `top` carries the unique id `u`.
pub open spec fn carries(nodes: Nodes, top: u128, u: u128) -> bool {
    exists|d: u128| in_subtree(nodes, top, d) && #[trigger] nodes[d].unique_id == Some(u)
}

/// The unique ids that the instances of the subtree at `top` carry.
pub open spec fn ids_below(nodes: Nodes, top: u128) -> Set<u128> {
    Set::new(|u: u128| carries(nodes, top, u))
}

/// No two instances of the subtree at `top` carry the same unique id.
pub open spec fn ids_apart(nodes: Nodes, top: u128) -> bool {
    forall|a: u128, b: u128|
        #![trigger in_subtree(nodes, top, a), in_subtree(nodes, top, b)]
        in_subtree(nodes, top, a) && in_subtree(nodes, top, b) && a != b
            && nodes[a].unique_id is Some ==> nodes[a].unique_id != nodes[b].unique_id
}

/// Whether a document with the unique ids `record` on record has `u` on
/// record, as far as can be told: a document whose record is not known may
/// have any.
pub open spec fn on_record(record: Option<Set<u128>>, u: u128) -> bool {
    match record {
        Some(s) => s.contains(u),
        None => true,
    }
}

/// The unique ids of the subtree at `top` cannot go into a document with the
/// unique ids `record` on record: two instances of the subtree carry the same
/// id, or one carries an id that is on record.
pub open spec fn ids_taken(nodes: Nodes, top: u128, record: Option<Set<u128>>) -> bool {
    !ids_apart(nodes, top) || exists|u: u128| #[trigger]
        carries(nodes, top, u) && on_record(record, u)
}

/// The record of a document that the unique ids `gone` have left.
pub open spec fn record_less(record: Option<Set<u128>>, gone: Set<u128>) -> Option<Set<u128>> {
    match record {
        Some(s) => Some(s.difference(gone)),
        None => None,
    }
}

/// The record of a document that the unique ids `come` have entered.
pub open spec fn record_more(record: Option<Set<u128>>, come: Set<u128>) -> Option<Set<u128>> {
    match record {
        Some(s) => Some(s.union(come)),
        None => None,
    }
}

/// The test that everything but `x` passes.
pub open spec fn is_not(x: u128) -> spec_fn(u128) -> bool {
    |c: u128| c != x
}

/// `s` with every occurrence of `x` taken out, the rest in order.
pub open spec fn without(s: Seq<u128>, x: u128) -> Seq<u128> {
    s.filter(is_not(x))
}

/// The record `r` with another child list.
pub open spec fn with_children(r: NodeRecord, children: Seq<u128>) -> NodeRecord {
    NodeRecord {
        class: r.class,
        name: r.name,
        parent: r.parent,
        children,
        unique_id: r.unique_id,
    }
}

/// The record `r` with another parent.
pub open spec fn with_parent(r: NodeRecord, parent: u128) -> NodeRecord {
    NodeRecord {
        class: r.class,
        name: r.name,
        parent,
        children: r.children,
        unique_id: r.unique_id,
    }
}

/// A record without children and without a unique id.
pub open spec fn leaf(class: Seq<char>, name: Seq<char>, parent: u128) -> NodeRecord {
    NodeRecord { class, name, parent, children: Seq::empty(), unique_id: None }
}

/// A document that holds a single, parentless instance.
pub open spec fn lone(root: u128, class: Seq<char>, name: Seq<char>) -> Nodes {
    Map::<u128, NodeRecord>::empty().insert(root, leaf(class, name, 0))
}

/// The document after a new childless instance `id` became the last child of
/// `parent`.
pub open spec fn graft(nodes: Nodes, parent: u128, id: u128, class: Seq<char>, name: Seq<char>)
    -> Nodes {
    nodes.insert(id, leaf(class, name, parent)).insert(
        parent,
        with_children(nodes[parent], nodes[parent].children.push(id)),
    )
}

/// The document that the subtree at `top` has left: its instances are gone,
/// and the parent of `top` no longer lists it.
pub open spec fn detach(nodes: Nodes, top: u128) -> Nodes {
    Map::new(
        |k: u128| nodes.contains_key(k) && !in_subtree(nodes, top, k),
        |k: u128|
            if nodes[top].parent != 0 && k == nodes[top].parent {
                with_children(nodes[k], without(nodes[k].children, top))
            } else {
                nodes[k]
            },
    )
}

/// The document `dest` after the subtree at `top` of `src` arrived as the last
/// child of `parent`: the instances of the subtree are as they were in `src`,
/// but `top` now names `parent` as its parent.
pub open spec fn attach(dest: Nodes, src: Nodes, top: u128, parent: u128) -> Nodes {
    Map::new(
        |k: u128| dest.contains_key(k) || in_subtree(src, top, k),
        |k: u128|
            if in_subtree(src, top, k) {
                if k == top {
                    with_parent(src[k], parent)
                } else {
                    src[k]
                }
            } else if k == parent {
                with_children(dest[k], dest[k].children.push(top))
            } else {
                dest[k]
            },
    )
}

} // verus!
