//! What a run of moves does when the nodes that move are children of one node
//! of a tree: each goes with its own subtree, none gets in the way of another,
//! and the run goes through as soon as the identities that move are free in
//! the target.

use crate::graph::GraphError;
use crate::transplant::after_moves;
use crate::transplant::moves_ok;
use crate::transplant::record_after;
use crate::transplant::refusal_at;
use crate::transplant::transplant_refusal;
use crate::tree::attach;
use crate::tree::carries;
use crate::tree::clear_of;
use crate::tree::detach;
use crate::tree::ids_apart;
use crate::tree::ids_below;
use crate::tree::ids_taken;
use crate::tree::in_subtree;
use crate::tree::is_child;
use crate::tree::Nodes;
use crate::tree::reach;
use crate::tree::with_children;
use crate::tree::with_parent;
use crate::wellformed::lemma_attach_well_formed;
use crate::wellformed::lemma_child_names_parent;
use crate::wellformed::lemma_detach_well_formed;
use crate::wellformed::lemma_parent_is_above;
use crate::wellformed::lemma_same_below;
use crate::wellformed::lemma_siblings_apart;
use crate::wellformed::lemma_subtree_in_document;
use crate::wellformed::lemma_well_formed_movable;
use crate::wellformed::same_below;
use crate::wellformed::well_formed;
use vstd::prelude::*;

verus! {

/// In a tree every node below the root can move: a transplant of a node that
/// is in reach of the root is refused only for a parent that is not there,
/// for the root itself, or for an identity or a unique id that is in use in
/// the target.
pub proof fn lemma_refusals_in_a_tree(
    src: Nodes,
    src_root: u128,
    node: u128,
    dest: Nodes,
    record: Option<Set<u128>>,
    parent: u128,
)
    requires
        well_formed(src, src_root),
        src.contains_key(node) ==> in_subtree(src, src_root, node),
    ensures
        transplant_refusal(src, src_root, node, dest, record, parent) == if !src.contains_key(
            node,
        ) {
            Some(GraphError::NotFound)
        } else if !dest.contains_key(parent) {
            Some(GraphError::InvalidParent)
        } else if node == src_root {
            Some(GraphError::NotMovable)
        } else if !clear_of(src, node, dest) {
            Some(GraphError::IdentityInUse)
        } else if ids_taken(src, node, record) {
            Some(GraphError::UniqueIdInUse)
        } else {
            None
        },
{
    if src.contains_key(node) && node != src_root {
        lemma_well_formed_movable(src, src_root, node);
    }
}

/// Whatever moves, the target keeps what it had: after `k` accepted moves
/// every node of `dest` is still there and as it was, but for `to`, which
/// lists the nodes that came, in order, after the children it had.
pub proof fn lemma_moves_append(
    src: Nodes,
    src_root: u128,
    dest: Nodes,
    record: Option<Set<u128>>,
    list: Seq<u128>,
    to: u128,
    k: nat,
)
    requires
        moves_ok(src, src_root, dest, record, list, to, k),
        k <= list.len(),
        dest.contains_key(to),
    ensures
        ({
            let d = after_moves(src, dest, list, to, k).1;
            &&& forall|x: u128| dest.contains_key(x) ==> d.contains_key(x)
            &&& forall|x: u128| dest.contains_key(x) && x != to ==> #[trigger] d[x] == dest[x]
            &&& d[to] == with_children(dest[to], dest[to].children + list.take(k as int))
        }),
    decreases k,
{
    if k == 0 {
        assert(dest[to].children + list.take(0) =~= dest[to].children);
    } else {
        let j = (k - 1) as nat;
        assert(moves_ok(src, src_root, dest, record, list, to, j)) by {
            assert forall|i: nat| i < j implies (#[trigger] refusal_at(
                src,
                src_root,
                dest,
                record,
                list,
                to,
                i,
            )) is None by {}
        }
        lemma_moves_append(src, src_root, dest, record, list, to, j);
        let prev = after_moves(src, dest, list, to, j);
        let d = after_moves(src, dest, list, to, k).1;
        assert(refusal_at(src, src_root, dest, record, list, to, j) is None);
        assert(clear_of(prev.0, list[j as int], prev.1));
        assert forall|x: u128| dest.contains_key(x) implies !in_subtree(
            prev.0,
            list[j as int],
            x,
        ) by {
            assert(prev.1.contains_key(x));
        }
        assert((dest[to].children + list.take(j as int)).push(list[j as int]) =~= dest[to].children
            + list.take(k as int));
    }
}

/// What is in reach of the root of `s` is what was in reach of the root of
/// `src` and has not moved with the first `k` nodes of `list`.
pub open spec fn left_in_reach(src: Nodes, src_root: u128, list: Seq<u128>, k: nat, s: Nodes) -> bool {
    forall|x: u128| #[trigger]
        in_subtree(s, src_root, x) <==> in_subtree(src, src_root, x) && !moved_by(src, list, k, x)
}

/// The nodes of `list` are children of `from`, each listed once.
pub open spec fn siblings(src: Nodes, from: u128, list: Seq<u128>) -> bool {
    &&& list.no_duplicates()
    &&& forall|i: int| 0 <= i < list.len() ==> is_child(src, from, #[trigger] list[i])
}

/// `x` is one of the first `k` nodes of `list` or lies below one of them.
pub open spec fn moved_by(src: Nodes, list: Seq<u128>, k: nat, x: u128) -> bool {
    exists|i: int| 0 <= i < k && #[trigger] in_subtree(src, list[i], x)
}

/// Some instance that moves with one of the first `k` nodes of `list` carries
/// the unique id `u`.
pub open spec fn id_moved_by(src: Nodes, list: Seq<u128>, k: nat, u: u128) -> bool {
    exists|i: int| 0 <= i < k && #[trigger] carries(src, list[i], u)
}

/// The unique ids that move with the first `k` nodes of `list`.
pub open spec fn ids_moved(src: Nodes, list: Seq<u128>, k: nat) -> Set<u128> {
    Set::new(|u: u128| id_moved_by(src, list, k, u))
}

/// No unique id comes with two of the instances that move with the nodes of
/// `list`, and none of them is in `record`.
pub open spec fn ids_free(src: Nodes, list: Seq<u128>, record: Set<u128>) -> bool {
    &&& forall|i: int, u: u128|
        0 <= i < list.len() && #[trigger] carries(src, list[i], u) ==> !record.contains(u)
    &&& forall|i: int, j: int, a: u128, b: u128|
        #![trigger in_subtree(src, list[i], a), in_subtree(src, list[j], b)]
        0 <= i < list.len() && 0 <= j < list.len() && in_subtree(src, list[i], a) && in_subtree(
            src,
            list[j],
            b,
        ) && a != b && src[a].unique_id is Some ==> src[a].unique_id != src[b].unique_id
}

/// No identity that moves with the nodes of `list` is in use in `dest`.
pub open spec fn all_clear(src: Nodes, list: Seq<u128>, dest: Nodes) -> bool {
    forall|i: int, x: u128|
        0 <= i < list.len() && #[trigger] in_subtree(src, list[i], x) ==> !dest.contains_key(x)
}

/// The two documents `s` and `d` are what `src` and `dest` become when the
/// first `k` nodes of `list`, children of `from`, have moved to below `to`:
/// `s` has lost them and what lies below them and is otherwise as `src` was,
/// but for the child list of `from`; `d` has gained them, unchanged but for
/// the parent that the moved nodes name, and lists them, in order, after the
/// children that `to` had.
pub open spec fn moved_state(
    src: Nodes,
    dest: Nodes,
    from: u128,
    list: Seq<u128>,
    to: u128,
    k: nat,
    s: Nodes,
    d: Nodes,
) -> bool {
    &&& forall|x: u128|
        #[trigger] s.contains_key(x) <==> src.contains_key(x) && !moved_by(src, list, k, x)
    &&& forall|x: u128| s.contains_key(x) && x != from ==> #[trigger] s[x] == src[x]
    &&& forall|x: u128|
        #[trigger] d.contains_key(x) <==> dest.contains_key(x) || moved_by(src, list, k, x)
    &&& forall|x: u128| dest.contains_key(x) && x != to ==> #[trigger] d[x] == dest[x]
    &&& d[to] == with_children(dest[to], dest[to].children + list.take(k as int))
    &&& forall|i: int, x: u128|
        0 <= i < k && #[trigger] in_subtree(src, list[i], x) ==> d[x] == if x == list[i] {
            with_parent(src[x], to)
        } else {
            src[x]
        }
}

/// One more node has moved.
proof fn lemma_moved_by_next(src: Nodes, list: Seq<u128>, k: nat, x: u128)
    ensures
        moved_by(src, list, k + 1, x) <==> moved_by(src, list, k, x) || in_subtree(
            src,
            list[k as int],
            x,
        ),
{
    if moved_by(src, list, k + 1, x) {
        let i = choose|i: int| 0 <= i < k + 1 && #[trigger] in_subtree(src, list[i], x);
        if i < k {
            assert(moved_by(src, list, k, x));
        }
    }
    if moved_by(src, list, k, x) {
        let i = choose|i: int| 0 <= i < k && #[trigger] in_subtree(src, list[i], x);
        assert(0 <= i < k + 1 && in_subtree(src, list[i], x));
    }
    if in_subtree(src, list[k as int], x) {
        assert(0 <= k < k + 1 && in_subtree(src, list[k as int], x));
    }
}

/// What lies below the next node to move has not moved yet and is as it was.
proof fn lemma_next_is_untouched(
    src: Nodes,
    src_root: u128,
    dest: Nodes,
    from: u128,
    list: Seq<u128>,
    to: u128,
    k: nat,
    s: Nodes,
    d: Nodes,
)
    requires
        well_formed(src, src_root),
        in_subtree(src, src_root, from),
        siblings(src, from, list),
        k < list.len(),
        moved_state(src, dest, from, list, to, k, s, d),
    ensures
        in_subtree(src, src_root, list[k as int]),
        forall|y: u128| #[trigger]
            in_subtree(src, list[k as int], y) ==> src.contains_key(y) && s.contains_key(y) && s[y]
                == src[y] && !moved_by(src, list, k, y),
        same_below(src, s, list[k as int]),
        forall|y: u128|
            in_subtree(src, list[k as int], y) <==> #[trigger] in_subtree(s, list[k as int], y),
        s.contains_key(list[k as int]),
        s[list[k as int]].parent == from,
        list[k as int] != src_root,
{
    let xk = list[k as int];
    assert(is_child(src, from, xk));
    lemma_child_names_parent(src, src_root, from, xk);
    lemma_parent_is_above(src, src_root, from, xk);
    assert forall|y: u128| #[trigger] in_subtree(src, xk, y) implies src.contains_key(y)
        && s.contains_key(y) && s[y] == src[y] && !moved_by(src, list, k, y) by {
        let n = choose|n: nat| reach(src, xk, y, n);
        lemma_subtree_in_document(src, src_root, xk, y, n);
        if moved_by(src, list, k, y) {
            let i = choose|i: int| 0 <= i < k && #[trigger] in_subtree(src, list[i], y);
            assert(is_child(src, from, list[i]));
            lemma_siblings_apart(src, src_root, from, list[i], xk, y);
        }
        assert(s.contains_key(y));
    }
    assert(reach(src, xk, xk, 0));
    assert(in_subtree(src, xk, xk));
    assert(same_below(src, s, xk));
    assert forall|y: u128| in_subtree(src, xk, y) <==> #[trigger] in_subtree(s, xk, y) by {
        lemma_same_below(src, s, xk, y);
    }
}

/// The next node of a run moves, and the two documents are then as
/// `moved_state` says.
proof fn lemma_move_next(
    src: Nodes,
    src_root: u128,
    dest: Nodes,
    dest_root: u128,
    record: Set<u128>,
    from: u128,
    list: Seq<u128>,
    to: u128,
    k: nat,
    s: Nodes,
    d: Nodes,
)
    requires
        well_formed(src, src_root),
        in_subtree(src, src_root, from),
        siblings(src, from, list),
        dest.contains_key(to),
        all_clear(src, list, dest),
        k < list.len(),
        well_formed(s, src_root),
        well_formed(d, dest_root),
        left_in_reach(src, src_root, list, k, s),
        moved_state(src, dest, from, list, to, k, s, d),
        ids_free(src, list, record),
    ensures
        transplant_refusal(
            s,
            src_root,
            list[k as int],
            d,
            Some(record.union(ids_moved(src, list, k))),
            to,
        ) is None,
        record.union(ids_moved(src, list, k)).union(ids_below(s, list[k as int])) == record.union(
            ids_moved(src, list, k + 1),
        ),
        well_formed(detach(s, list[k as int]), src_root),
        well_formed(attach(d, s, list[k as int], to), dest_root),
        left_in_reach(src, src_root, list, k + 1, detach(s, list[k as int])),
        moved_state(
            src,
            dest,
            from,
            list,
            to,
            k + 1,
            detach(s, list[k as int]),
            attach(d, s, list[k as int], to),
        ),
{
    let xk = list[k as int];
    let s2 = detach(s, xk);
    let d2 = attach(d, s, xk, to);
    lemma_next_is_untouched(src, src_root, dest, from, list, to, k, s, d);
    assert(reach(src, xk, xk, 0));
    assert(in_subtree(src, xk, xk));
    assert(in_subtree(s, src_root, xk));
    lemma_well_formed_movable(s, src_root, xk);
    assert(clear_of(s, xk, d)) by {
        assert forall|y: u128| #[trigger] in_subtree(s, xk, y) implies !d.contains_key(y) by {
            assert(in_subtree(src, list[k as int], y));
        }
    }
    lemma_detach_well_formed(s, src_root, xk);
    lemma_attach_well_formed(d, dest_root, s, xk, to);
    let now = record.union(ids_moved(src, list, k));
    assert forall|u: u128| carries(s, xk, u) <==> #[trigger] carries(src, xk, u) by {
        if carries(s, xk, u) {
            let a = choose|a: u128| in_subtree(s, xk, a) && #[trigger] s[a].unique_id == Some(u);
            assert(in_subtree(src, list[k as int], a));
            assert(src[a].unique_id == Some(u));
        }
        if carries(src, xk, u) {
            let a = choose|a: u128|
                in_subtree(src, xk, a) && #[trigger] src[a].unique_id == Some(u);
            assert(in_subtree(src, list[k as int], a));
            assert(in_subtree(s, xk, a));
            assert(s[a].unique_id == Some(u));
        }
    }
    assert(ids_apart(s, xk)) by {
        assert forall|a: u128, b: u128|
            #![trigger in_subtree(s, xk, a), in_subtree(s, xk, b)]
            in_subtree(s, xk, a) && in_subtree(s, xk, b) && a != b
                && s[a].unique_id is Some implies s[a].unique_id != s[b].unique_id by {
            assert(in_subtree(src, list[k as int], a));
            assert(in_subtree(src, list[k as int], b));
        }
    }
    assert forall|u: u128| #[trigger] carries(s, xk, u) implies !now.contains(u) by {
        assert(carries(src, list[k as int], u));
        if id_moved_by(src, list, k, u) {
            let i = choose|i: int| 0 <= i < k && #[trigger] carries(src, list[i], u);
            let a = choose|a: u128|
                in_subtree(src, list[i], a) && #[trigger] src[a].unique_id == Some(u);
            let b = choose|b: u128|
                in_subtree(src, list[k as int], b) && #[trigger] src[b].unique_id == Some(u);
            assert(is_child(src, from, list[i]));
            lemma_siblings_apart(src, src_root, from, list[i], xk, a);
            assert(a != b);
        }
    }
    assert(!ids_taken(s, xk, Some(now)));
    assert(now.union(ids_below(s, xk)) =~= record.union(ids_moved(src, list, k + 1))) by {
        assert forall|u: u128|
            now.union(ids_below(s, xk)).contains(u) <==> record.union(
                ids_moved(src, list, k + 1),
            ).contains(u) by {
            assert(carries(s, xk, u) <==> carries(src, xk, u));
            if id_moved_by(src, list, k + 1, u) {
                let i = choose|i: int| 0 <= i < k + 1 && #[trigger] carries(src, list[i], u);
                if i < k {
                    assert(id_moved_by(src, list, k, u));
                }
            }
            if id_moved_by(src, list, k, u) {
                let i = choose|i: int| 0 <= i < k && #[trigger] carries(src, list[i], u);
                assert(0 <= i < k + 1 && carries(src, list[i], u));
            }
            if carries(src, xk, u) {
                assert(0 <= k < k + 1 && carries(src, list[k as int], u));
            }
        }
    }
    assert forall|x: u128| #[trigger]
        in_subtree(s2, src_root, x) <==> in_subtree(src, src_root, x) && !moved_by(
            src,
            list,
            k + 1,
            x,
        ) by {
        lemma_moved_by_next(src, list, k, x);
        assert(in_subtree(s, src_root, x) <==> in_subtree(src, src_root, x) && !moved_by(
            src,
            list,
            k,
            x,
        ));
        assert(in_subtree(src, xk, x) <==> in_subtree(s, xk, x));
    }
    assert forall|x: u128| #[trigger]
        s2.contains_key(x) <==> src.contains_key(x) && !moved_by(src, list, k + 1, x) by {
        lemma_moved_by_next(src, list, k, x);
        assert(s.contains_key(x) <==> src.contains_key(x) && !moved_by(src, list, k, x));
        assert(in_subtree(src, xk, x) <==> in_subtree(s, xk, x));
    }
    assert forall|x: u128| s2.contains_key(x) && x != from implies #[trigger] s2[x] == src[x] by {
        assert(s.contains_key(x));
        assert(s[x] == src[x]);
    }
    assert forall|x: u128| #[trigger]
        d2.contains_key(x) <==> dest.contains_key(x) || moved_by(src, list, k + 1, x) by {
        lemma_moved_by_next(src, list, k, x);
        assert(d.contains_key(x) <==> dest.contains_key(x) || moved_by(src, list, k, x));
        assert(in_subtree(src, xk, x) <==> in_subtree(s, xk, x));
    }
    assert forall|x: u128| dest.contains_key(x) implies !in_subtree(s, xk, x) by {
        if in_subtree(s, xk, x) {
            assert(in_subtree(src, list[k as int], x));
        }
    }
    assert forall|x: u128| dest.contains_key(x) && x != to implies #[trigger] d2[x] == dest[x] by {
        assert(d[x] == dest[x]);
    }
    assert(d2[to] == with_children(dest[to], dest[to].children + list.take(k + 1 as int))) by {
        assert(d2[to] == with_children(d[to], d[to].children.push(xk)));
        assert((dest[to].children + list.take(k as int)).push(xk) =~= dest[to].children
            + list.take(k + 1 as int));
    }
    assert forall|i: int, x: u128| 0 <= i < k + 1 && #[trigger] in_subtree(
        src,
        list[i],
        x,
    ) implies d2[x] == if x == list[i] {
        with_parent(src[x], to)
    } else {
        src[x]
    } by {
        if i < k {
            assert(is_child(src, from, list[i]));
            lemma_siblings_apart(src, src_root, from, list[i], xk, x);
            assert(!in_subtree(s, xk, x));
            assert(!dest.contains_key(x));
        } else {
            assert(in_subtree(s, xk, x));
            assert(s[x] == src[x]);
        }
    }
}

/// A run of moves from a tree into a tree, where the nodes that move are
/// children of one node in reach of the root and their identities are free in
/// the target, goes
/// through, keeps both graphs trees, and leaves them as `moved_state` says.
pub proof fn lemma_children_move(
    src: Nodes,
    src_root: u128,
    dest: Nodes,
    dest_root: u128,
    record: Set<u128>,
    from: u128,
    list: Seq<u128>,
    to: u128,
    k: nat,
)
    requires
        well_formed(src, src_root),
        well_formed(dest, dest_root),
        in_subtree(src, src_root, from),
        siblings(src, from, list),
        dest.contains_key(to),
        all_clear(src, list, dest),
        ids_free(src, list, record),
        k <= list.len(),
    ensures
        moves_ok(src, src_root, dest, Some(record), list, to, k),
        record_after(src, dest, Some(record), list, to, k) == Some(
            record.union(ids_moved(src, list, k)),
        ),
        well_formed(after_moves(src, dest, list, to, k).0, src_root),
        well_formed(after_moves(src, dest, list, to, k).1, dest_root),
        left_in_reach(src, src_root, list, k, after_moves(src, dest, list, to, k).0),
        moved_state(
            src,
            dest,
            from,
            list,
            to,
            k,
            after_moves(src, dest, list, to, k).0,
            after_moves(src, dest, list, to, k).1,
        ),
    decreases k,
{
    if k == 0 {
        assert(list.take(0) =~= Seq::<u128>::empty());
        assert(dest[to].children + list.take(0) =~= dest[to].children);
        assert(record.union(ids_moved(src, list, 0)) =~= record);
    } else {
        let j = (k - 1) as nat;
        lemma_children_move(src, src_root, dest, dest_root, record, from, list, to, j);
        let prev = after_moves(src, dest, list, to, j);
        lemma_move_next(
            src,
            src_root,
            dest,
            dest_root,
            record,
            from,
            list,
            to,
            j,
            prev.0,
            prev.1,
        );
        assert(refusal_at(src, src_root, dest, Some(record), list, to, j) is None);
        assert forall|i: nat| i < k implies (#[trigger] refusal_at(
            src,
            src_root,
            dest,
            Some(record),
            list,
            to,
            i,
        )) is None by {
            if i < j {
                assert(moves_ok(src, src_root, dest, Some(record), list, to, j));
            }
        }
    }
}

} // verus!
