//! When a document is a tree, and what follows from that.
//!
//! In a well-formed document the root has no parent, and at the root and at
//! everything below it the child lists and parent links agree. Graphs made by
//! this crate are well formed, and every operation of the crate keeps them so.
//! What a document holds besides, out of reach of its root, is left alone.

use crate::tree::attach;
use crate::tree::clear_of;
use crate::tree::detach;
use crate::tree::graft;
use crate::tree::in_subtree;
use crate::tree::is_child;
use crate::tree::is_not;
use crate::tree::lone;
use crate::tree::movable;
use crate::tree::Nodes;
use crate::tree::reach;
use crate::tree::tidy_at;
use crate::tree::without;
use vstd::prelude::*;

verus! {

/// The document is a tree under `root`: the root is an instance without a
/// parent, and the child list of the root and of every instance below it is
/// consistent.
pub open spec fn well_formed(nodes: Nodes, root: u128) -> bool {
    &&& nodes.contains_key(root)
    &&& nodes[root].parent == 0
    &&& forall|d: u128| #[trigger] in_subtree(nodes, root, d) ==> tidy_at(nodes, root, d)
}

/// One more child step.
pub proof fn lemma_reach_step(nodes: Nodes, top: u128, p: u128, c: u128, n: nat)
    requires
        reach(nodes, top, p, n),
        is_child(nodes, p, c),
    ensures
        reach(nodes, top, c, n + 1),
        in_subtree(nodes, top, c),
{
    assert(reach(nodes, top, c, n + 1));
}

/// Below what lies below `a` is below `a`.
pub proof fn lemma_reach_trans(nodes: Nodes, a: u128, b: u128, c: u128, n: nat, m: nat)
    requires
        reach(nodes, a, b, n),
        reach(nodes, b, c, m),
    ensures
        reach(nodes, a, c, n + m),
        in_subtree(nodes, a, c),
    decreases m,
{
    if m > 0 {
        let p = choose|p: u128| #[trigger]
            is_child(nodes, p, c) && reach(nodes, b, p, (m - 1) as nat);
        lemma_reach_trans(nodes, a, b, p, n, (m - 1) as nat);
        lemma_reach_step(nodes, a, p, c, (n + m - 1) as nat);
    }
}

/// In a well-formed document a child of an instance in reach of the root is
/// an instance in reach of the root, and names the instance that lists it.
pub proof fn lemma_child_names_parent(nodes: Nodes, root: u128, p: u128, c: u128)
    requires
        well_formed(nodes, root),
        in_subtree(nodes, root, p),
        is_child(nodes, p, c),
    ensures
        nodes.contains_key(c),
        nodes[c].parent == p,
        c != root,
        c != 0,
        p != 0,
        in_subtree(nodes, root, c),
        tidy_at(nodes, root, c),
{
    assert(tidy_at(nodes, root, p));
    let j = choose|j: int| 0 <= j < nodes[p].children.len() && nodes[p].children[j] == c;
    assert(nodes[p].children[j] == c);
    let n = choose|n: nat| reach(nodes, root, p, n);
    lemma_reach_step(nodes, root, p, c, n);
}

/// What lies below an instance in reach of the root is an instance in reach
/// of the root.
pub proof fn lemma_subtree_in_document(nodes: Nodes, root: u128, top: u128, d: u128, n: nat)
    requires
        well_formed(nodes, root),
        in_subtree(nodes, root, top),
        reach(nodes, top, d, n),
    ensures
        nodes.contains_key(d),
        in_subtree(nodes, root, d),
        tidy_at(nodes, root, d),
{
    let up = choose|k: nat| reach(nodes, root, top, k);
    lemma_reach_trans(nodes, root, top, d, up, n);
}

/// The last step of a walk down to `d` comes from the parent that `d` names.
pub proof fn lemma_last_step(nodes: Nodes, root: u128, top: u128, d: u128, n: nat)
    requires
        well_formed(nodes, root),
        in_subtree(nodes, root, top),
        reach(nodes, top, d, n),
        n > 0,
    ensures
        is_child(nodes, nodes[d].parent, d),
        reach(nodes, top, nodes[d].parent, (n - 1) as nat),
        in_subtree(nodes, root, nodes[d].parent),
{
    let p = choose|p: u128| #[trigger]
        is_child(nodes, p, d) && reach(nodes, top, p, (n - 1) as nat);
    lemma_subtree_in_document(nodes, root, top, p, (n - 1) as nat);
    lemma_child_names_parent(nodes, root, p, d);
}

/// An instance of a well-formed document lies at one depth only.
pub proof fn lemma_depth_unique(nodes: Nodes, root: u128, x: u128, n: nat, m: nat)
    requires
        well_formed(nodes, root),
        reach(nodes, root, x, n),
        reach(nodes, root, x, m),
    ensures
        n == m,
    decreases n,
{
    assert(reach(nodes, root, root, 0));
    assert(in_subtree(nodes, root, root));
    if n == 0 {
        if m > 0 {
            lemma_last_step(nodes, root, root, x, m);
            lemma_child_names_parent(nodes, root, nodes[x].parent, x);
        }
    } else {
        lemma_last_step(nodes, root, root, x, n);
        if m == 0 {
            lemma_child_names_parent(nodes, root, nodes[x].parent, x);
        } else {
            lemma_last_step(nodes, root, root, x, m);
            lemma_depth_unique(nodes, root, nodes[x].parent, (n - 1) as nat, (m - 1) as nat);
        }
    }
}

/// No instance in reach of the root lies below itself.
pub proof fn lemma_no_loop(nodes: Nodes, root: u128, x: u128, k: nat)
    requires
        well_formed(nodes, root),
        in_subtree(nodes, root, x),
        reach(nodes, x, x, k),
    ensures
        k == 0,
{
    let n = choose|n: nat| reach(nodes, root, x, n);
    lemma_reach_trans(nodes, root, x, x, n, k);
    lemma_depth_unique(nodes, root, x, n, n + k);
}

/// In a well-formed document every instance in reach of the root, but for the
/// root, can be cut out with what lies below it.
pub proof fn lemma_well_formed_movable(nodes: Nodes, root: u128, node: u128)
    requires
        well_formed(nodes, root),
        in_subtree(nodes, root, node),
        node != root,
    ensures
        nodes.contains_key(node),
        movable(nodes, node),
{
    assert forall|d: u128| #[trigger] in_subtree(nodes, node, d) implies tidy_at(
        nodes,
        node,
        d,
    ) by {
        let n = choose|n: nat| reach(nodes, node, d, n);
        lemma_subtree_in_document(nodes, root, node, d, n);
        assert forall|j: int| 0 <= j < nodes[d].children.len() implies {
            let c = #[trigger] nodes[d].children[j];
            c != node && nodes.contains_key(c) && nodes[c].parent == d
        } by {
            let c = nodes[d].children[j];
            if c == node {
                assert(is_child(nodes, d, c));
                lemma_reach_step(nodes, node, d, c, n);
                lemma_no_loop(nodes, root, node, n + 1);
            }
        }
    }
    let n = choose|n: nat| reach(nodes, root, node, n);
    assert(reach(nodes, root, root, 0));
    assert(in_subtree(nodes, root, root));
    lemma_last_step(nodes, root, root, node, n);
    let p = nodes[node].parent;
    lemma_child_names_parent(nodes, root, p, node);
    if p == node {
        assert(reach(nodes, node, node, 0));
        lemma_reach_step(nodes, node, node, node, 0);
        lemma_no_loop(nodes, root, node, 1);
    }
}

/// A document that holds nothing but its root is well formed.
pub proof fn lemma_lone_well_formed(root: u128, class: Seq<char>, name: Seq<char>)
    requires
        root != 0,
    ensures
        well_formed(lone(root, class, name), root),
{
    let nodes = lone(root, class, name);
    assert forall|d: u128| #[trigger] in_subtree(nodes, root, d) implies tidy_at(
        nodes,
        root,
        d,
    ) by {
        let n = choose|n: nat| reach(nodes, root, d, n);
        if n > 0 {
            let p = choose|p: u128| #[trigger]
                is_child(nodes, p, d) && reach(nodes, root, p, (n - 1) as nat);
            assert(nodes[p].children.contains(d));
        }
    }
}

/// A walk down from `top` stays where every child link below `top` is kept.
pub proof fn lemma_reach_kept(a: Nodes, b: Nodes, top: u128, d: u128, n: nat)
    requires
        reach(a, top, d, n),
        forall|p: u128, c: u128|
            in_subtree(a, top, p) && #[trigger] is_child(a, p, c) ==> is_child(b, p, c),
    ensures
        reach(b, top, d, n),
    decreases n,
{
    if n > 0 {
        let p = choose|p: u128| #[trigger] is_child(a, p, d) && reach(a, top, p, (n - 1) as nat);
        lemma_reach_kept(a, b, top, p, (n - 1) as nat);
        assert(in_subtree(a, top, p));
        assert(is_child(b, p, d));
    }
}

/// What a filter keeps: the elements that pass the test, and no more of each
/// than there were.
pub proof fn lemma_filter_keeps(s: Seq<u128>, test: spec_fn(u128) -> bool)
    ensures
        forall|c: u128| #[trigger] s.filter(test).contains(c) <==> s.contains(c) && test(c),
        s.no_duplicates() ==> s.filter(test).no_duplicates(),
    decreases s.len(),
{
    reveal(Seq::filter);
    let out = s.filter(test);
    if s.len() > 0 {
        let front = s.drop_last();
        let sub = front.filter(test);
        lemma_filter_keeps(front, test);
        assert(out == if test(s.last()) {
            sub.push(s.last())
        } else {
            sub
        });
        assert forall|c: u128| #[trigger] out.contains(c) <==> s.contains(c) && test(c) by {
            if s.contains(c) && test(c) {
                let i = choose|i: int| 0 <= i < s.len() && s[i] == c;
                if i == s.len() - 1 {
                    assert(out[out.len() - 1] == c);
                } else {
                    assert(front[i] == c);
                    assert(sub.contains(c));
                    let j = choose|j: int| 0 <= j < sub.len() && sub[j] == c;
                    assert(out[j] == c);
                }
            }
            if out.contains(c) {
                let j = choose|j: int| 0 <= j < out.len() && out[j] == c;
                if j < sub.len() {
                    assert(sub[j] == c);
                    assert(sub.contains(c));
                    assert(front.contains(c));
                    let i = choose|i: int| 0 <= i < front.len() && front[i] == c;
                    assert(s[i] == c);
                } else {
                    assert(s[s.len() - 1] == c);
                }
            }
        }
        if s.no_duplicates() {
            assert(front.no_duplicates());
            if test(s.last()) {
                assert(!sub.contains(s.last())) by {
                    if sub.contains(s.last()) {
                        assert(front.contains(s.last()));
                        let i = choose|i: int| 0 <= i < front.len() && front[i] == s.last();
                        assert(s[i] == s[s.len() - 1]);
                    }
                }
                assert(out.no_duplicates()) by {
                    assert forall|i: int, j: int|
                        0 <= i < out.len() && 0 <= j < out.len() && i != j implies out[i]
                        != out[j] by {
                        if i < sub.len() && j < sub.len() {
                        } else if i < sub.len() {
                            assert(sub.contains(sub[i]));
                        } else if j < sub.len() {
                            assert(sub.contains(sub[j]));
                        }
                    }
                }
            }
        }
    }
}

/// What `without` keeps: everything but `x`, once each if `s` held it once.
pub proof fn lemma_without(s: Seq<u128>, x: u128)
    ensures
        !without(s, x).contains(x),
        forall|c: u128| s.contains(c) && c != x ==> #[trigger] without(s, x).contains(c),
        forall|c: u128| #[trigger] without(s, x).contains(c) ==> s.contains(c),
        s.no_duplicates() ==> without(s, x).no_duplicates(),
{
    lemma_filter_keeps(s, is_not(x));
}

/// What is in reach of the root after a new instance came is what was in
/// reach before, and the new instance if its parent was.
proof fn lemma_graft_reach(
    nodes: Nodes,
    root: u128,
    parent: u128,
    id: u128,
    class: Seq<char>,
    name: Seq<char>,
    d: u128,
    n: nat,
)
    requires
        well_formed(nodes, root),
        nodes.contains_key(parent),
        !nodes.contains_key(id),
        reach(graft(nodes, parent, id, class, name), root, d, n),
    ensures
        in_subtree(nodes, root, d) || (d == id && in_subtree(nodes, root, parent)),
    decreases n,
{
    let after = graft(nodes, parent, id, class, name);
    if n == 0 {
        assert(reach(nodes, root, root, 0));
    } else {
        let p = choose|p: u128| #[trigger]
            is_child(after, p, d) && reach(after, root, p, (n - 1) as nat);
        lemma_graft_reach(nodes, root, parent, id, class, name, p, (n - 1) as nat);
        if p == id {
            assert(after[id].children.len() == 0);
        } else {
            assert(tidy_at(nodes, root, p));
            let j = choose|j: int| 0 <= j < after[p].children.len() && after[p].children[j] == d;
            if p == parent && j == nodes[p].children.len() {
                assert(d == id);
            } else {
                assert(nodes[p].children[j] == d);
                assert(is_child(nodes, p, d));
                let k = choose|k: nat| reach(nodes, root, p, k);
                lemma_reach_step(nodes, root, p, d, k);
            }
        }
    }
}

/// A new childless instance under an instance of a well-formed document
/// leaves the document well formed.
pub proof fn lemma_graft_well_formed(
    nodes: Nodes,
    root: u128,
    parent: u128,
    id: u128,
    class: Seq<char>,
    name: Seq<char>,
)
    requires
        well_formed(nodes, root),
        nodes.contains_key(parent),
        !nodes.contains_key(id),
        id != 0,
    ensures
        well_formed(graft(nodes, parent, id, class, name), root),
{
    let after = graft(nodes, parent, id, class, name);
    assert forall|d: u128| #[trigger] in_subtree(after, root, d) implies tidy_at(
        after,
        root,
        d,
    ) by {
        let n = choose|n: nat| reach(after, root, d, n);
        lemma_graft_reach(nodes, root, parent, id, class, name, d, n);
        if in_subtree(nodes, root, d) {
            assert(tidy_at(nodes, root, d));
            let kids = nodes[d].children;
            if d == parent {
                assert(!kids.contains(id)) by {
                    if kids.contains(id) {
                        let j = choose|j: int| 0 <= j < kids.len() && kids[j] == id;
                        assert(nodes.contains_key(nodes[parent].children[j]));
                    }
                }
                assert(after[d].children.no_duplicates());
            }
            assert forall|j: int| 0 <= j < after[d].children.len() implies {
                let c = #[trigger] after[d].children[j];
                c != root && after.contains_key(c) && after[c].parent == d
            } by {
                if j < kids.len() {
                    assert(after[d].children[j] == nodes[d].children[j]);
                }
            }
        }
    }
}

/// The root does not lie below an instance that can be cut out.
pub proof fn lemma_root_stays(nodes: Nodes, root: u128, node: u128)
    requires
        well_formed(nodes, root),
        movable(nodes, node),
        node != root,
    ensures
        !in_subtree(nodes, node, root),
{
    if in_subtree(nodes, node, root) {
        let m = choose|m: nat| reach(nodes, node, root, m);
        let q = choose|q: u128| #[trigger]
            is_child(nodes, q, root) && reach(nodes, node, q, (m - 1) as nat);
        assert(in_subtree(nodes, node, q));
        assert(tidy_at(nodes, node, q));
        let j = choose|j: int| 0 <= j < nodes[q].children.len() && nodes[q].children[j] == root;
        assert(nodes[nodes[q].children[j]].parent == q);
    }
}

/// What is in reach of the root after a subtree has left was in reach
/// before, and was not in the subtree.
proof fn lemma_detach_reach(nodes: Nodes, root: u128, node: u128, d: u128, n: nat)
    requires
        well_formed(nodes, root),
        movable(nodes, node),
        node != root,
        reach(detach(nodes, node), root, d, n),
    ensures
        reach(nodes, root, d, n),
        !in_subtree(nodes, node, d),
    decreases n,
{
    let after = detach(nodes, node);
    if n == 0 {
        lemma_root_stays(nodes, root, node);
    } else {
        let p = choose|p: u128| #[trigger]
            is_child(after, p, d) && reach(after, root, p, (n - 1) as nat);
        lemma_detach_reach(nodes, root, node, p, (n - 1) as nat);
        assert(in_subtree(nodes, root, p));
        lemma_without(nodes[p].children, node);
        assert(after[p].children.contains(d));
        assert(nodes[p].children.contains(d));
        assert(is_child(nodes, p, d));
        lemma_child_names_parent(nodes, root, p, d);
        if in_subtree(nodes, node, d) {
            let m = choose|m: nat| reach(nodes, node, d, m);
            if m == 0 {
                assert(!without(nodes[p].children, node).contains(node));
            } else {
                let q = choose|q: u128| #[trigger]
                    is_child(nodes, q, d) && reach(nodes, node, q, (m - 1) as nat);
                assert(in_subtree(nodes, node, q));
                assert(tidy_at(nodes, node, q));
                let j = choose|j: int|
                    0 <= j < nodes[q].children.len() && nodes[q].children[j] == d;
                assert(nodes[nodes[q].children[j]].parent == q);
            }
        }
    }
}

/// A walk from the root that ends outside the subtree that left is still
/// there after the subtree has left.
proof fn lemma_reach_survives_detach(nodes: Nodes, root: u128, node: u128, d: u128, n: nat)
    requires
        well_formed(nodes, root),
        reach(nodes, root, d, n),
        !in_subtree(nodes, node, d),
    ensures
        reach(detach(nodes, node), root, d, n),
    decreases n,
{
    let after = detach(nodes, node);
    assert(reach(nodes, root, root, 0));
    assert(in_subtree(nodes, root, root));
    if n > 0 {
        lemma_last_step(nodes, root, root, d, n);
        let p = nodes[d].parent;
        if in_subtree(nodes, node, p) {
            let k = choose|k: nat| reach(nodes, node, p, k);
            lemma_reach_step(nodes, node, p, d, k);
        }
        lemma_reach_survives_detach(nodes, root, node, p, (n - 1) as nat);
        assert(reach(nodes, node, node, 0));
        assert(d != node);
        lemma_without(nodes[p].children, node);
        assert(is_child(after, p, d));
    }
}

/// A well-formed document stays well formed when a subtree leaves it, and
/// what is then in reach of its root is what was in reach and did not leave.
pub proof fn lemma_detach_well_formed(nodes: Nodes, root: u128, node: u128)
    requires
        well_formed(nodes, root),
        movable(nodes, node),
        node != root,
    ensures
        well_formed(detach(nodes, node), root),
        forall|d: u128| #[trigger]
            in_subtree(detach(nodes, node), root, d) <==> in_subtree(nodes, root, d) && !in_subtree(
                nodes,
                node,
                d,
            ),
{
    let after = detach(nodes, node);
    lemma_root_stays(nodes, root, node);
    assert(reach(nodes, node, node, 0));
    assert forall|d: u128| #[trigger]
        in_subtree(after, root, d) <==> in_subtree(nodes, root, d) && !in_subtree(
            nodes,
            node,
            d,
        ) by {
        if in_subtree(after, root, d) {
            let n = choose|n: nat| reach(after, root, d, n);
            lemma_detach_reach(nodes, root, node, d, n);
        }
        if in_subtree(nodes, root, d) && !in_subtree(nodes, node, d) {
            let n = choose|n: nat| reach(nodes, root, d, n);
            lemma_reach_survives_detach(nodes, root, node, d, n);
        }
    }
    assert forall|d: u128| #[trigger] in_subtree(after, root, d) implies tidy_at(
        after,
        root,
        d,
    ) by {
        let n = choose|n: nat| reach(after, root, d, n);
        assert(in_subtree(nodes, root, d) && !in_subtree(nodes, node, d));
        assert(tidy_at(nodes, root, d));
        lemma_without(nodes[d].children, node);
        assert forall|j: int| 0 <= j < after[d].children.len() implies {
            let c = #[trigger] after[d].children[j];
            c != root && after.contains_key(c) && after[c].parent == d
        } by {
            let c = after[d].children[j];
            assert(after[d].children.contains(c));
            assert(is_child(after, d, c));
            lemma_reach_step(after, root, d, c, n);
            assert(in_subtree(nodes, root, c) && !in_subtree(nodes, node, c));
            assert(nodes[d].children.contains(c));
            assert(is_child(nodes, d, c));
            lemma_child_names_parent(nodes, root, d, c);
        }
    }
}

/// What is in reach of the root after a subtree has arrived was in reach
/// before or has arrived.
proof fn lemma_attach_reach(
    dest: Nodes,
    dest_root: u128,
    src: Nodes,
    node: u128,
    parent: u128,
    d: u128,
    n: nat,
)
    requires
        well_formed(dest, dest_root),
        movable(src, node),
        clear_of(src, node, dest),
        reach(attach(dest, src, node, parent), dest_root, d, n),
    ensures
        in_subtree(dest, dest_root, d) || in_subtree(src, node, d),
    decreases n,
{
    let after = attach(dest, src, node, parent);
    assert(reach(src, node, node, 0));
    if n == 0 {
        assert(reach(dest, dest_root, dest_root, 0));
    } else {
        let p = choose|p: u128| #[trigger]
            is_child(after, p, d) && reach(after, dest_root, p, (n - 1) as nat);
        lemma_attach_reach(dest, dest_root, src, node, parent, p, (n - 1) as nat);
        let j = choose|j: int| 0 <= j < after[p].children.len() && after[p].children[j] == d;
        if in_subtree(src, node, p) {
            assert(tidy_at(src, node, p));
            assert(src[p].children[j] == d);
            assert(is_child(src, p, d));
            let k = choose|k: nat| reach(src, node, p, k);
            lemma_reach_step(src, node, p, d, k);
        } else {
            assert(tidy_at(dest, dest_root, p));
            if p == parent && j == dest[p].children.len() {
                assert(d == node);
            } else {
                assert(dest[p].children[j] == d);
                assert(is_child(dest, p, d));
                let k = choose|k: nat| reach(dest, dest_root, p, k);
                lemma_reach_step(dest, dest_root, p, d, k);
            }
        }
    }
}

/// A well-formed document stays well formed when a subtree that can be cut
/// out of another document arrives in it, as long as none of the identities
/// that arrive is in use.
pub proof fn lemma_attach_well_formed(
    dest: Nodes,
    dest_root: u128,
    src: Nodes,
    node: u128,
    parent: u128,
)
    requires
        well_formed(dest, dest_root),
        movable(src, node),
        dest.contains_key(parent),
        clear_of(src, node, dest),
    ensures
        well_formed(attach(dest, src, node, parent), dest_root),
{
    let after = attach(dest, src, node, parent);
    assert(reach(src, node, node, 0));
    assert(in_subtree(src, node, node));
    assert(reach(dest, dest_root, dest_root, 0));
    assert forall|d: u128| #[trigger] in_subtree(after, dest_root, d) implies tidy_at(
        after,
        dest_root,
        d,
    ) by {
        let n = choose|n: nat| reach(after, dest_root, d, n);
        lemma_attach_reach(dest, dest_root, src, node, parent, d, n);
        if in_subtree(src, node, d) {
            let k = choose|k: nat| reach(src, node, d, k);
            assert(tidy_at(src, node, d));
            assert(after[d].children == src[d].children);
            assert forall|j: int| 0 <= j < after[d].children.len() implies {
                let c = #[trigger] after[d].children[j];
                c != dest_root && after.contains_key(c) && after[c].parent == d
            } by {
                let c = src[d].children[j];
                assert(is_child(src, d, c));
                lemma_reach_step(src, node, d, c, k);
            }
        } else {
            assert(tidy_at(dest, dest_root, d));
            let kids = dest[d].children;
            if d == parent {
                assert(!kids.contains(node)) by {
                    if kids.contains(node) {
                        let j = choose|j: int| 0 <= j < kids.len() && kids[j] == node;
                        assert(dest.contains_key(dest[d].children[j]));
                    }
                }
                assert(after[d].children.no_duplicates());
            }
            assert forall|j: int| 0 <= j < after[d].children.len() implies {
                let c = #[trigger] after[d].children[j];
                c != dest_root && after.contains_key(c) && after[c].parent == d
            } by {
                if j < kids.len() {
                    assert(after[d].children[j] == dest[d].children[j]);
                }
            }
        }
    }
}

/// Two walks that end at the same instance run together over the length of
/// the shorter one: the longer one passes through the start of the shorter.
pub proof fn lemma_walks_meet(nodes: Nodes, root: u128, a: u128, b: u128, x: u128, n: nat, m: nat)
    requires
        well_formed(nodes, root),
        in_subtree(nodes, root, a),
        in_subtree(nodes, root, b),
        reach(nodes, a, x, n),
        reach(nodes, b, x, m),
        n <= m,
    ensures
        reach(nodes, b, a, (m - n) as nat),
    decreases n,
{
    if n > 0 {
        lemma_last_step(nodes, root, a, x, n);
        lemma_last_step(nodes, root, b, x, m);
        lemma_walks_meet(nodes, root, a, b, nodes[x].parent, (n - 1) as nat, (m - 1) as nat);
    }
}

/// No instance in reach of the root lies below one of its children.
pub proof fn lemma_parent_is_above(nodes: Nodes, root: u128, p: u128, c: u128)
    requires
        well_formed(nodes, root),
        in_subtree(nodes, root, p),
        is_child(nodes, p, c),
    ensures
        !in_subtree(nodes, c, p),
{
    if in_subtree(nodes, c, p) {
        let k = choose|k: nat| reach(nodes, c, p, k);
        lemma_reach_step(nodes, c, p, c, k);
        lemma_child_names_parent(nodes, root, p, c);
        lemma_no_loop(nodes, root, c, k + 1);
    }
}

/// Two children of one instance in reach of the root have nothing below them
/// in common.
pub proof fn lemma_siblings_apart(nodes: Nodes, root: u128, p: u128, a: u128, b: u128, x: u128)
    requires
        well_formed(nodes, root),
        in_subtree(nodes, root, p),
        is_child(nodes, p, a),
        is_child(nodes, p, b),
        a != b,
    ensures
        !(in_subtree(nodes, a, x) && in_subtree(nodes, b, x)),
{
    if in_subtree(nodes, a, x) && in_subtree(nodes, b, x) {
        let n = choose|n: nat| reach(nodes, a, x, n);
        let m = choose|m: nat| reach(nodes, b, x, m);
        lemma_child_names_parent(nodes, root, p, a);
        lemma_child_names_parent(nodes, root, p, b);
        if n <= m {
            lemma_walks_meet(nodes, root, a, b, x, n, m);
            let k = (m - n) as nat;
            lemma_last_step(nodes, root, b, a, k);
            assert(in_subtree(nodes, b, p));
            lemma_parent_is_above(nodes, root, p, b);
        } else {
            lemma_walks_meet(nodes, root, b, a, x, m, n);
            let k = (n - m) as nat;
            lemma_last_step(nodes, root, a, b, k);
            assert(in_subtree(nodes, a, p));
            lemma_parent_is_above(nodes, root, p, a);
        }
    }
}

/// `b` holds every instance that lies below `top` in `a`, with the child list
/// it has in `a`.
pub open spec fn same_below(a: Nodes, b: Nodes, top: u128) -> bool {
    forall|x: u128| #[trigger]
        in_subtree(a, top, x) ==> a.contains_key(x) && b.contains_key(x) && b[x].children
            == a[x].children
}

/// Where two documents hold the same child lists below `top`, the same
/// instances lie below `top` in both.
pub proof fn lemma_same_below(a: Nodes, b: Nodes, top: u128, x: u128)
    requires
        same_below(a, b, top),
    ensures
        in_subtree(a, top, x) <==> in_subtree(b, top, x),
{
    if in_subtree(a, top, x) {
        let n = choose|n: nat| reach(a, top, x, n);
        lemma_reach_kept(a, b, top, x, n);
    }
    if in_subtree(b, top, x) {
        let n = choose|n: nat| reach(b, top, x, n);
        lemma_reach_back(a, b, top, x, n);
    }
}

/// The way back for `lemma_same_below`.
proof fn lemma_reach_back(a: Nodes, b: Nodes, top: u128, x: u128, n: nat)
    requires
        same_below(a, b, top),
        reach(b, top, x, n),
    ensures
        reach(a, top, x, n),
    decreases n,
{
    if n > 0 {
        let p = choose|p: u128| #[trigger] is_child(b, p, x) && reach(b, top, p, (n - 1) as nat);
        lemma_reach_back(a, b, top, p, (n - 1) as nat);
        assert(in_subtree(a, top, p));
        assert(is_child(a, p, x));
    }
}


} // verus!
