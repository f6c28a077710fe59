//! Moving a subtree from one scene graph into another.
//!
//! A move is all or nothing. Before anything is touched the subtree is walked
//! once, breadth first, to find out whether it is a tree that can leave its
//! graph and whether any of its identities is taken in the target.

use crate::graph::GraphError;
use crate::graph::SceneGraph;
use crate::tree::attach;
use crate::tree::carries;
use crate::tree::clear_of;
use crate::tree::detach;
use crate::tree::ids_apart;
use crate::tree::ids_below;
use crate::tree::ids_taken;
use crate::tree::in_subtree;
use crate::tree::is_child;
use crate::tree::movable;
use crate::tree::on_record;
use crate::tree::Nodes;
use crate::tree::reach;
use crate::tree::record_less;
use crate::tree::record_more;
use crate::tree::tidy_at;
use std::collections::HashSet;
use vstd::pervasive::unreached;
use vstd::prelude::*;

verus! {

broadcast use vstd::std_specs::hash::group_hash_axioms;

/// Why the subtree at `top` cannot go into `other`, which has the unique ids
/// `record` on record, if it cannot.
pub open spec fn subtree_refusal(
    nodes: Nodes,
    top: u128,
    other: Nodes,
    record: Option<Set<u128>>,
) -> Option<GraphError> {
    if !movable(nodes, top) {
        Some(GraphError::NotMovable)
    } else if !clear_of(nodes, top, other) {
        Some(GraphError::IdentityInUse)
    } else if ids_taken(nodes, top, record) {
        Some(GraphError::UniqueIdInUse)
    } else {
        None
    }
}

/// Why `transplant` refuses, if it does. The checks come in this order: the
/// node, the new parent, the shape of the subtree, the identities in it, the
/// unique ids in it.
pub open spec fn transplant_refusal(
    src: Nodes,
    src_root: u128,
    node: u128,
    dest: Nodes,
    record: Option<Set<u128>>,
    parent: u128,
) -> Option<GraphError> {
    if !src.contains_key(node) {
        Some(GraphError::NotFound)
    } else if !dest.contains_key(parent) {
        Some(GraphError::InvalidParent)
    } else if node == src_root {
        Some(GraphError::NotMovable)
    } else {
        subtree_refusal(src, node, dest, record)
    }
}

/// One of the instances in `order` carries the unique id `u`.
spec fn seq_carries(nodes: Nodes, order: Seq<u128>, u: u128) -> bool {
    exists|i: int| 0 <= i < order.len() && nodes[#[trigger] order[i]].unique_id == Some(u)
}

/// Two of the instances in `order` carry the same unique id.
spec fn seq_twice(nodes: Nodes, order: Seq<u128>) -> bool {
    exists|i: int, j: int|
        0 <= i < j < order.len() && nodes[#[trigger] order[i]].unique_id is Some
            && nodes[order[i]].unique_id == nodes[#[trigger] order[j]].unique_id
}

/// The unique ids of the instances in `order` cannot go into a document with
/// the unique ids `record` on record.
spec fn seq_taken(nodes: Nodes, order: Seq<u128>, record: Option<Set<u128>>) -> bool {
    seq_twice(nodes, order) || exists|u: u128| #[trigger]
        seq_carries(nodes, order, u) && on_record(record, u)
}

/// What one more instance adds to the unique ids of a list.
proof fn lemma_seq_push(nodes: Nodes, order: Seq<u128>, c: u128, record: Option<Set<u128>>)
    ensures
        forall|u: u128| #[trigger]
            seq_carries(nodes, order.push(c), u) <==> seq_carries(nodes, order, u)
                || nodes[c].unique_id == Some(u),
        seq_taken(nodes, order.push(c), record) <==> seq_taken(nodes, order, record) || (
        nodes[c].unique_id matches Some(u) && (seq_carries(nodes, order, u) || on_record(
            record,
            u,
        ))),
{
    let more = order.push(c);
    assert forall|u: u128| #[trigger]
        seq_carries(nodes, more, u) <==> seq_carries(nodes, order, u) || nodes[c].unique_id
            == Some(u) by {
        if seq_carries(nodes, order, u) {
            let i = choose|i: int|
                0 <= i < order.len() && nodes[#[trigger] order[i]].unique_id == Some(u);
            assert(more[i] == order[i]);
        }
        if nodes[c].unique_id == Some(u) {
            assert(more[order.len() as int] == c);
        }
        if seq_carries(nodes, more, u) {
            let i = choose|i: int|
                0 <= i < more.len() && nodes[#[trigger] more[i]].unique_id == Some(u);
            if i < order.len() {
                assert(order[i] == more[i]);
            }
        }
    }
    if seq_twice(nodes, order) {
        let (i, j) = choose|i: int, j: int|
            0 <= i < j < order.len() && nodes[#[trigger] order[i]].unique_id is Some
                && nodes[order[i]].unique_id == nodes[#[trigger] order[j]].unique_id;
        assert(more[i] == order[i] && more[j] == order[j]);
        assert(seq_twice(nodes, more));
    }
    if seq_twice(nodes, more) {
        let (i, j) = choose|i: int, j: int|
            0 <= i < j < more.len() && nodes[#[trigger] more[i]].unique_id is Some
                && nodes[more[i]].unique_id == nodes[#[trigger] more[j]].unique_id;
        assert(more[i] == order[i]);
        if j < order.len() {
            assert(more[j] == order[j]);
            assert(seq_twice(nodes, order));
        } else {
            assert(seq_carries(nodes, order, nodes[c].unique_id->0));
        }
    }
    if nodes[c].unique_id is Some && seq_carries(nodes, order, nodes[c].unique_id->0) {
        let u = nodes[c].unique_id->0;
        let i = choose|i: int|
            0 <= i < order.len() && nodes[#[trigger] order[i]].unique_id == Some(u);
        assert(more[i] == order[i] && more[order.len() as int] == c);
        assert(seq_twice(nodes, more));
    }
    if exists|u: u128| #[trigger] seq_carries(nodes, more, u) && on_record(record, u) {
        let u = choose|u: u128| #[trigger] seq_carries(nodes, more, u) && on_record(record, u);
        assert(seq_carries(nodes, order, u) || nodes[c].unique_id == Some(u));
    }
    if exists|u: u128| #[trigger] seq_carries(nodes, order, u) && on_record(record, u) {
        let u = choose|u: u128| #[trigger] seq_carries(nodes, order, u) && on_record(record, u);
        assert(seq_carries(nodes, more, u));
    }
    if nodes[c].unique_id is Some && on_record(record, nodes[c].unique_id->0) {
        assert(seq_carries(nodes, more, nodes[c].unique_id->0));
    }
}

/// A list that holds each instance of the subtree once, and nothing else,
/// carries the unique ids of the subtree.
proof fn lemma_walk_ids(nodes: Nodes, top: u128, order: Seq<u128>, record: Option<Set<u128>>)
    requires
        order.no_duplicates(),
        forall|d: u128| order.contains(d) <==> #[trigger] in_subtree(nodes, top, d),
    ensures
        forall|u: u128| #[trigger] carries(nodes, top, u) <==> seq_carries(nodes, order, u),
        ids_taken(nodes, top, record) <==> seq_taken(nodes, order, record),
{
    assert forall|u: u128| #[trigger] carries(nodes, top, u) <==> seq_carries(
        nodes,
        order,
        u,
    ) by {
        if carries(nodes, top, u) {
            let d = choose|d: u128|
                in_subtree(nodes, top, d) && #[trigger] nodes[d].unique_id == Some(u);
            assert(order.contains(d));
            let i = choose|i: int| 0 <= i < order.len() && order[i] == d;
            assert(nodes[order[i]].unique_id == Some(u));
        }
        if seq_carries(nodes, order, u) {
            let i = choose|i: int|
                0 <= i < order.len() && nodes[#[trigger] order[i]].unique_id == Some(u);
            assert(order.contains(order[i]));
            assert(in_subtree(nodes, top, order[i]));
        }
    }
    if seq_twice(nodes, order) {
        let (i, j) = choose|i: int, j: int|
            0 <= i < j < order.len() && nodes[#[trigger] order[i]].unique_id is Some
                && nodes[order[i]].unique_id == nodes[#[trigger] order[j]].unique_id;
        assert(order.contains(order[i]) && order.contains(order[j]));
        assert(in_subtree(nodes, top, order[i]) && in_subtree(nodes, top, order[j]));
        assert(!ids_apart(nodes, top));
    }
    if !ids_apart(nodes, top) {
        let (a, b) = choose|a: u128, b: u128|
            #![trigger in_subtree(nodes, top, a), in_subtree(nodes, top, b)]
            in_subtree(nodes, top, a) && in_subtree(nodes, top, b) && a != b
                && nodes[a].unique_id is Some && nodes[a].unique_id == nodes[b].unique_id;
        assert(order.contains(a) && order.contains(b));
        let i = choose|i: int| 0 <= i < order.len() && order[i] == a;
        let j = choose|j: int| 0 <= j < order.len() && order[j] == b;
        if i < j {
            assert(nodes[order[i]].unique_id == nodes[order[j]].unique_id);
        } else {
            assert(nodes[order[j]].unique_id == nodes[order[i]].unique_id);
        }
        assert(seq_twice(nodes, order));
    }
    if exists|u: u128| #[trigger] carries(nodes, top, u) && on_record(record, u) {
        let u = choose|u: u128| #[trigger] carries(nodes, top, u) && on_record(record, u);
        assert(seq_carries(nodes, order, u));
    }
    if exists|u: u128| #[trigger] seq_carries(nodes, order, u) && on_record(record, u) {
        let u = choose|u: u128| #[trigger] seq_carries(nodes, order, u) && on_record(record, u);
        assert(carries(nodes, top, u));
    }
}

/// A list that holds `top` and, with every instance it holds, that instance's
/// children, holds the whole subtree at `top`.
proof fn lemma_closed_list_holds_subtree(nodes: Nodes, top: u128, list: Seq<u128>, d: u128, n: nat)
    requires
        list.contains(top),
        forall|i: int, j: int|
            0 <= i < list.len() && 0 <= j < nodes[list[i]].children.len() ==> list.contains(
                #[trigger] nodes[list[i]].children[j],
            ),
        reach(nodes, top, d, n),
    ensures
        list.contains(d),
    decreases n,
{
    if n > 0 {
        let p = choose|p: u128| #[trigger]
            is_child(nodes, p, d) && reach(nodes, top, p, (n - 1) as nat);
        lemma_closed_list_holds_subtree(nodes, top, list, p, (n - 1) as nat);
        let i = choose|i: int| 0 <= i < list.len() && list[i] == p;
        let j = choose|j: int| 0 <= j < nodes[p].children.len() && nodes[p].children[j] == d;
        assert(list.contains(nodes[list[i]].children[j]));
    }
}

/// A child of an instance of the subtree is in the subtree.
proof fn lemma_child_in_subtree(nodes: Nodes, top: u128, p: u128, c: u128)
    requires
        in_subtree(nodes, top, p),
        is_child(nodes, p, c),
    ensures
        in_subtree(nodes, top, c),
{
    let n = choose|n: nat| reach(nodes, top, p, n);
    assert(reach(nodes, top, c, n + 1));
}

/// Walks the subtree at `top`, whose parent is `top_parent` and which carries
/// `top_id`, and says whether it can go into `target`. Where it can, the
/// unique ids that the subtree carries come back.
fn survey(
    source: &SceneGraph,
    top: u128,
    top_parent: u128,
    top_id: Option<u128>,
    target: &SceneGraph,
) -> (r: Result<Vec<u128>, GraphError>)
    requires
        source@.contains_key(top),
        top_parent == source@[top].parent,
        top_id == source@[top].unique_id,
    ensures
        match subtree_refusal(source@, top, target@, target.known_ids()) {
            Some(e) => r == Err::<Vec<u128>, GraphError>(e),
            None => r matches Ok(ids) && forall|u: u128|
                ids@.contains(u) <==> #[trigger] carries(source@, top, u),
        },
{
    let ghost nodes = source@;
    let ghost other = target@;
    let ghost record = target.known_ids();
    proof {
        assert(reach(nodes, top, top, 0));
        assert(in_subtree(nodes, top, top));
    }
    if top == 0 || (top_parent != 0 && (top_parent == top || !source.contains(top_parent))) {
        return Err(GraphError::NotMovable);
    }
    let mut id_seen: HashSet<u128> = HashSet::new();
    let mut id_list: Vec<u128> = Vec::new();
    let mut id_clash = false;
    match top_id {
        Some(u) => {
            id_clash = match target.has_unique_id(u) {
                Some(b) => b,
                None => true,
            };
            id_seen.insert(u);
            id_list.push(u);
        },
        None => {},
    }
    let mut order: Vec<u128> = Vec::new();
    order.push(top);
    let mut seen: HashSet<u128> = HashSet::new();
    seen.insert(top);
    let mut clash = target.contains(top);
    let ghost mut pusher: Seq<int> = seq![0int];
    let mut head: usize = 0;
    proof {
        assert(reach(nodes, top, top, 0));
        assert(order@.len() == 1 && order@[0] == top);
        assert(seen@ =~= order@.to_set()) by {
            assert(order@.contains(top));
        }
        if clash {
            assert(other.contains_key(order@[0]));
        }
        lemma_seq_push(nodes, Seq::<u128>::empty(), top, record);
        assert(Seq::<u128>::empty().push(top) =~= order@);
        assert(!seq_twice(nodes, Seq::<u128>::empty()));
        assert forall|u: u128| !seq_carries(nodes, Seq::<u128>::empty(), u) by {}
        assert(!seq_taken(nodes, Seq::<u128>::empty(), record));
        if top_id is Some {
            assert(id_list@[0] == top_id->0);
        }
    }
    while head < order.len()
        invariant
            nodes == source@,
            other == target@,
            record == target.known_ids(),
            forall|u: u128| id_seen@.contains(u) <==> #[trigger] seq_carries(nodes, order@, u),
            forall|u: u128| id_list@.contains(u) <==> #[trigger] seq_carries(nodes, order@, u),
            id_clash <==> seq_taken(nodes, order@, record),
            nodes[top].parent == 0 || (nodes.contains_key(nodes[top].parent) && nodes[top].parent
                != top),
            1 <= order.len(),
            head <= order.len(),
            order@[0] == top,
            order@.no_duplicates(),
            seen@ == order@.to_set(),
            pusher.len() == order.len(),
            forall|i: int|
                0 <= i < order.len() ==> nodes.contains_key(#[trigger] order@[i]) && in_subtree(
                    nodes,
                    top,
                    order@[i],
                ) && order@[i] != 0,
            forall|i: int|
                1 <= i < order.len() ==> 0 <= #[trigger] pusher[i] < head && nodes[order@[i]].parent
                    == order@[pusher[i]],
            forall|i: int| 0 <= i < head ==> tidy_at(nodes, top, #[trigger] order@[i]),
            forall|i: int, j: int|
                0 <= i < head && 0 <= j < nodes[order@[i]].children.len() ==> order@.contains(
                    #[trigger] nodes[order@[i]].children[j],
                ),
            clash <==> exists|i: int| 0 <= i < order.len() && other.contains_key(#[trigger] order@[i]),
        decreases usize::MAX - head,
    {
        let p = order[head];
        let kids = match source.children_of(p) {
            Ok(k) => k,
            Err(_) => unreached(),
        };
        let ghost base = order.len() as int;
        let mut j: usize = 0;
        while j < kids.len()
            invariant
                nodes == source@,
                other == target@,
                record == target.known_ids(),
                forall|u: u128|
                    id_seen@.contains(u) <==> #[trigger] seq_carries(nodes, order@, u),
                forall|u: u128|
                    id_list@.contains(u) <==> #[trigger] seq_carries(nodes, order@, u),
                id_clash <==> seq_taken(nodes, order@, record),
                1 <= order.len(),
                head < base,
                order.len() == base + j,
                j <= kids.len(),
                p == order@[head as int],
                kids@ == nodes[p].children,
                order@[0] == top,
                order@.no_duplicates(),
                seen@ == order@.to_set(),
                pusher.len() == order.len(),
                forall|i: int|
                    0 <= i < order.len() ==> nodes.contains_key(#[trigger] order@[i]) && in_subtree(
                        nodes,
                        top,
                        order@[i],
                    ) && order@[i] != 0,
                forall|i: int|
                    1 <= i < order.len() ==> 0 <= #[trigger] pusher[i] <= head
                        && nodes[order@[i]].parent == order@[pusher[i]] && (pusher[i] == head
                        <==> i >= base),
                forall|k: int|
                    0 <= k < j ==> #[trigger] order@[base + k] == kids@[k] && kids@[k] != top
                        && nodes[kids@[k]].parent == p,
                forall|i: int| 0 <= i < head ==> tidy_at(nodes, top, #[trigger] order@[i]),
                forall|i: int, j: int|
                    0 <= i < head && 0 <= j < nodes[order@[i]].children.len() ==> order@.contains(
                        #[trigger] nodes[order@[i]].children[j],
                    ),
                clash <==> exists|i: int|
                    0 <= i < order.len() && other.contains_key(#[trigger] order@[i]),
            decreases kids.len() - j,
        {
            let c = kids[j];
            proof {
                assert(nodes[p].children[j as int] == c);
                assert(is_child(nodes, p, c));
                lemma_child_in_subtree(nodes, top, p, c);
            }
            if c == top || c == 0 {
                proof {
                    if c == 0 {
                        assert(!tidy_at(nodes, top, c));
                    }
                }
                return Err(GraphError::NotMovable);
            }
            let (c_parent, c_id) = match source.get(c) {
                Ok(n) => (n.parent, n.unique_id),
                Err(_) => {
                    return Err(GraphError::NotMovable);
                },
            };
            if c_parent != p {
                return Err(GraphError::NotMovable);
            }
            if seen.contains(&c) {
                proof {
                    let pos = choose|pos: int| 0 <= pos < order.len() && order@[pos] == c;
                    assert(pos != 0);
                    assert(order@[pusher[pos]] == order@[head as int]);
                    assert(pusher[pos] == head);
                    assert(order@[base + (pos - base)] == kids@[pos - base]);
                    assert(kids@[pos - base] == kids@[j as int]);
                    assert(!nodes[p].children.no_duplicates());
                }
                return Err(GraphError::NotMovable);
            }
            let taken = target.contains(c);
            let ghost before = order@;
            let ghost ids_before = id_list@;
            seen.insert(c);
            order.push(c);
            match c_id {
                Some(u) => {
                    let twice = id_seen.contains(&u);
                    let on_file = match target.has_unique_id(u) {
                        Some(b) => b,
                        None => true,
                    };
                    if twice || on_file {
                        id_clash = true;
                    }
                    if !twice {
                        id_seen.insert(u);
                        id_list.push(u);
                    }
                },
                None => {},
            }
            proof {
                lemma_seq_push(nodes, before, c, record);
                assert forall|u: u128| id_list@.contains(u) <==> #[trigger] seq_carries(
                    nodes,
                    before.push(c),
                    u,
                ) by {
                    if ids_before.contains(u) {
                        let i = choose|i: int| 0 <= i < ids_before.len() && ids_before[i] == u;
                        assert(id_list@[i] == u);
                    }
                    if id_list@.len() > ids_before.len() {
                        assert(id_list@[ids_before.len() as int] == c_id->0);
                    }
                    if id_list@.contains(u) {
                        let i = choose|i: int| 0 <= i < id_list@.len() && id_list@[i] == u;
                        if i < ids_before.len() {
                            assert(ids_before[i] == u);
                        }
                    }
                }
                pusher = pusher.push(head as int);
                assert(order@ == before.push(c));
                assert(seen@ =~= order@.to_set()) by {
                    assert forall|x: u128| seen@.contains(x) <==> order@.to_set().contains(
                        x,
                    ) by {
                        if before.contains(x) {
                            let i = choose|i: int| 0 <= i < before.len() && before[i] == x;
                            assert(order@[i] == x);
                        }
                        if x == c {
                            assert(order@[before.len() as int] == c);
                        }
                    }
                }
                assert(order@.no_duplicates()) by {
                    assert(!before.contains(c));
                }
                assert forall|k: int| 0 <= k < j + 1 implies #[trigger] order@[base + k]
                    == kids@[k] && kids@[k] != top && nodes[kids@[k]].parent == p by {
                    if k < j {
                        assert(before[base + k] == kids@[k]);
                    }
                }
                if taken {
                    assert(other.contains_key(order@[before.len() as int]));
                } else if clash {
                    let i = choose|i: int| 0 <= i < before.len() && other.contains_key(before[i]);
                    assert(other.contains_key(order@[i]));
                }
                assert forall|i: int, j: int|
                    0 <= i < head && 0 <= j < nodes[order@[i]].children.len() implies order@.contains(
                    #[trigger] nodes[order@[i]].children[j],
                ) by {
                    assert(before[i] == order@[i]);
                    let x = nodes[before[i]].children[j];
                    assert(before.contains(x));
                    let q = choose|q: int| 0 <= q < before.len() && before[q] == x;
                    assert(order@[q] == x);
                }
            }
            if taken {
                clash = true;
            }
            j += 1;
        }
        proof {
            assert(tidy_at(nodes, top, p)) by {
                assert forall|a: int, b: int|
                    0 <= a < kids@.len() && 0 <= b < kids@.len() && a != b implies kids@[a]
                    != kids@[b] by {
                    assert(order@[base + a] == kids@[a]);
                    assert(order@[base + b] == kids@[b]);
                }
                assert forall|k: int| 0 <= k < nodes[p].children.len() implies {
                    let c = #[trigger] nodes[p].children[k];
                    c != top && nodes.contains_key(c) && nodes[c].parent == p
                } by {
                    assert(order@[base + k] == kids@[k]);
                }
            }
            assert forall|i: int, j: int|
                0 <= i < head + 1 && 0 <= j < nodes[order@[i]].children.len() implies order@.contains(
                #[trigger] nodes[order@[i]].children[j],
            ) by {
                if i == head {
                    assert(order@[base + j] == kids@[j]);
                }
            }
            assert forall|i: int| 1 <= i < order.len() implies 0 <= #[trigger] pusher[i] < head + 1
                && nodes[order@[i]].parent == order@[pusher[i]] by {}
        }
        head += 1;
    }
    proof {
        assert forall|d: u128| #[trigger] in_subtree(nodes, top, d) implies order@.contains(d) by {
            let n = choose|n: nat| reach(nodes, top, d, n);
            lemma_closed_list_holds_subtree(nodes, top, order@, d, n);
        }
        assert(movable(nodes, top)) by {
            assert forall|d: u128| #[trigger] in_subtree(nodes, top, d) implies tidy_at(
                nodes,
                top,
                d,
            ) by {
                let i = choose|i: int| 0 <= i < order.len() && order@[i] == d;
                assert(tidy_at(nodes, top, order@[i]));
            }
        }
        if clash {
            let i = choose|i: int| 0 <= i < order.len() && other.contains_key(order@[i]);
            assert(in_subtree(nodes, top, order@[i]));
        } else {
            assert forall|d: u128| #[trigger] in_subtree(nodes, top, d) implies !other.contains_key(
                d,
            ) by {
                let i = choose|i: int| 0 <= i < order.len() && order@[i] == d;
                assert(!other.contains_key(order@[i]));
            }
        }
    }
    proof {
        assert forall|d: u128| order@.contains(d) <==> #[trigger] in_subtree(nodes, top, d) by {
            if order@.contains(d) {
                let i = choose|i: int| 0 <= i < order.len() && order@[i] == d;
                assert(in_subtree(nodes, top, order@[i]));
            }
        }
        lemma_walk_ids(nodes, top, order@, record);
    }
    if clash {
        Err(GraphError::IdentityInUse)
    } else if id_clash {
        Err(GraphError::UniqueIdInUse)
    } else {
        Ok(id_list)
    }
}

impl SceneGraph {
    /// Finds out whether the graph is a tree under its root, by walking it.
    pub fn check_tree(&self) -> (b: bool)
        ensures
            b == self.is_tree(),
    {
        let root = self.root();
        let (root_parent, root_id) = match self.get(root) {
            Ok(n) => (n.parent, n.unique_id),
            Err(_) => {
                return false;
            },
        };
        if root_parent != 0 {
            return false;
        }
        match survey(self, root, root_parent, root_id, self) {
            Err(GraphError::NotMovable) => false,
            _ => true,
        }
    }
}

/// Moves `node` and everything below it out of `source` and into `target`, as
/// the last child of `parent`. The nodes keep their identities, classes,
/// names, child lists and unique ids. Where the move is refused, neither
/// graph has changed.
///
/// A unique id that comes with the subtree must not be on record in `target`.
/// A target that took over a decoded document does not know its record, and
/// takes no node that carries a unique id.
pub fn transplant(source: &mut SceneGraph, node: u128, target: &mut SceneGraph, parent: u128) -> (r:
    Result<(), GraphError>)
    ensures
        final(source).root_id() == old(source).root_id(),
        final(target).root_id() == old(target).root_id(),
        old(source).is_tree() ==> final(source).is_tree(),
        old(target).is_tree() ==> final(target).is_tree(),
        match transplant_refusal(
            old(source)@,
            old(source).root_id(),
            node,
            old(target)@,
            old(target).known_ids(),
            parent,
        ) {
            Some(e) => {
                &&& r == Err::<(), GraphError>(e)
                &&& final(source)@ == old(source)@
                &&& final(target)@ == old(target)@
                &&& final(source).known_ids() == old(source).known_ids()
                &&& final(target).known_ids() == old(target).known_ids()
            },
            None => {
                &&& r == Ok::<(), GraphError>(())
                &&& final(source)@ == detach(old(source)@, node)
                &&& final(target)@ == attach(old(target)@, old(source)@, node, parent)
                &&& final(source).known_ids() == record_less(
                    old(source).known_ids(),
                    ids_below(old(source)@, node),
                )
                &&& final(target).known_ids() == record_more(
                    old(target).known_ids(),
                    ids_below(old(source)@, node),
                )
            },
        },
{
    let (node_parent, node_id) = match source.get(node) {
        Ok(n) => (n.parent, n.unique_id),
        Err(e) => {
            return Err(e);
        },
    };
    if !target.contains(parent) {
        return Err(GraphError::InvalidParent);
    }
    if node == source.root() {
        return Err(GraphError::NotMovable);
    }
    match survey(source, node, node_parent, node_id, target) {
        Err(e) => Err(e),
        Ok(ids) => {
            proof {
                assert forall|u: u128| #[trigger] carries(source@, node, u) implies !on_record(
                    target.known_ids(),
                    u,
                ) by {}
            }
            source.move_subtree(node, target, parent, &ids);
            Ok(())
        },
    }
}

/// The two graphs after the first `k` nodes of `list` have moved, one after
/// the other, from `src` to below `parent` in `dest`.
pub open spec fn after_moves(src: Nodes, dest: Nodes, list: Seq<u128>, parent: u128, k: nat) -> (
    Nodes,
    Nodes,
)
    decreases k,
{
    if k == 0 {
        (src, dest)
    } else {
        let prev = after_moves(src, dest, list, parent, (k - 1) as nat);
        (detach(prev.0, list[k - 1]), attach(prev.1, prev.0, list[k - 1], parent))
    }
}

/// The unique ids that the target has on record after the first `k` moves,
/// if it had `record` on record before.
pub open spec fn record_after(
    src: Nodes,
    dest: Nodes,
    record: Option<Set<u128>>,
    list: Seq<u128>,
    parent: u128,
    k: nat,
) -> Option<Set<u128>>
    decreases k,
{
    if k == 0 {
        record
    } else {
        record_more(
            record_after(src, dest, record, list, parent, (k - 1) as nat),
            ids_below(after_moves(src, dest, list, parent, (k - 1) as nat).0, list[k - 1]),
        )
    }
}

/// The unique ids that the source has on record after the first `k` moves,
/// if it had `record` on record before.
pub open spec fn record_left(
    src: Nodes,
    dest: Nodes,
    record: Option<Set<u128>>,
    list: Seq<u128>,
    parent: u128,
    k: nat,
) -> Option<Set<u128>>
    decreases k,
{
    if k == 0 {
        record
    } else {
        record_less(
            record_left(src, dest, record, list, parent, (k - 1) as nat),
            ids_below(after_moves(src, dest, list, parent, (k - 1) as nat).0, list[k - 1]),
        )
    }
}

/// Why the move of `list[k]` is refused once the `k` nodes before it have
/// moved, if it is. `record` is what the target had on record at the start.
pub open spec fn refusal_at(
    src: Nodes,
    src_root: u128,
    dest: Nodes,
    record: Option<Set<u128>>,
    list: Seq<u128>,
    parent: u128,
    k: nat,
) -> Option<GraphError> {
    let prev = after_moves(src, dest, list, parent, k);
    transplant_refusal(
        prev.0,
        src_root,
        list[k as int],
        prev.1,
        record_after(src, dest, record, list, parent, k),
        parent,
    )
}

/// Each of the first `k` moves is accepted.
pub open spec fn moves_ok(
    src: Nodes,
    src_root: u128,
    dest: Nodes,
    record: Option<Set<u128>>,
    list: Seq<u128>,
    parent: u128,
    k: nat,
) -> bool {
    forall|i: nat|
        i < k ==> (#[trigger] refusal_at(src, src_root, dest, record, list, parent, i)) is None
}

/// The moves stop at `list[k]`, which is refused with `e`.
pub open spec fn stopped_at(
    src: Nodes,
    src_root: u128,
    dest: Nodes,
    record: Option<Set<u128>>,
    list: Seq<u128>,
    parent: u128,
    k: nat,
    e: GraphError,
) -> bool {
    &&& k < list.len()
    &&& moves_ok(src, src_root, dest, record, list, parent, k)
    &&& refusal_at(src, src_root, dest, record, list, parent, k) == Some(e)
}

/// The two graphs are what `source` and `target` become by the first `k`
/// moves of `list` to below `parent`.
pub open spec fn moved_to(
    source: SceneGraph,
    target: SceneGraph,
    list: Seq<u128>,
    parent: u128,
    k: nat,
    source_now: SceneGraph,
    target_now: SceneGraph,
) -> bool {
    &&& (source_now@, target_now@) == after_moves(source@, target@, list, parent, k)
    &&& source_now.known_ids() == record_left(
        source@,
        target@,
        source.known_ids(),
        list,
        parent,
        k,
    )
    &&& target_now.known_ids() == record_after(
        source@,
        target@,
        target.known_ids(),
        list,
        parent,
        k,
    )
}

/// Moves the nodes of `list`, in order, out of `source` and into `target`,
/// each as the last child of `parent`. The first move that is refused ends the
/// run: the moves before it stand, and nothing after it is tried.
pub fn transplant_all(
    source: &mut SceneGraph,
    list: &Vec<u128>,
    target: &mut SceneGraph,
    parent: u128,
) -> (r: Result<(), GraphError>)
    ensures
        final(source).root_id() == old(source).root_id(),
        final(target).root_id() == old(target).root_id(),
        old(source).is_tree() ==> final(source).is_tree(),
        old(target).is_tree() ==> final(target).is_tree(),
        r is Ok <==> moves_ok(
            old(source)@,
            old(source).root_id(),
            old(target)@,
            old(target).known_ids(),
            list@,
            parent,
            list@.len(),
        ),
        r is Ok ==> moved_to(
            *old(source),
            *old(target),
            list@,
            parent,
            list@.len(),
            *final(source),
            *final(target),
        ),
        r matches Err(e) ==> exists|k: nat|
            #![trigger after_moves(old(source)@, old(target)@, list@, parent, k)]
            stopped_at(
                old(source)@,
                old(source).root_id(),
                old(target)@,
                old(target).known_ids(),
                list@,
                parent,
                k,
                e,
            ) && moved_to(
                *old(source),
                *old(target),
                list@,
                parent,
                k,
                *final(source),
                *final(target),
            ),
{
    let ghost src = source@;
    let ghost dest = target@;
    let ghost record = target.known_ids();
    let ghost src_root = source.root_id();
    let mut i: usize = 0;
    while i < list.len()
        invariant
            i <= list.len(),
            src == old(source)@,
            dest == old(target)@,
            record == old(target).known_ids(),
            src_root == old(source).root_id(),
            source.root_id() == src_root,
            target.root_id() == old(target).root_id(),
            old(source).is_tree() ==> source.is_tree(),
            old(target).is_tree() ==> target.is_tree(),
            moves_ok(src, src_root, dest, record, list@, parent, i as nat),
            moved_to(*old(source), *old(target), list@, parent, i as nat, *source, *target),
        decreases list.len() - i,
    {
        match transplant(source, list[i], target, parent) {
            Err(e) => {
                proof {
                    assert(refusal_at(src, src_root, dest, record, list@, parent, i as nat)
                        == Some(e));
                    assert(stopped_at(src, src_root, dest, record, list@, parent, i as nat, e));
                    assert(after_moves(src, dest, list@, parent, i as nat) == (
                        source@,
                        target@,
                    ));
                }
                return Err(e);
            },
            Ok(()) => {
                proof {
                    assert(refusal_at(src, src_root, dest, record, list@, parent, i as nat)
                        is None);
                    assert((source@, target@) == after_moves(
                        src,
                        dest,
                        list@,
                        parent,
                        (i + 1) as nat,
                    ));
                }
            },
        }
        i += 1;
    }
    Ok(())
}

} // verus!
