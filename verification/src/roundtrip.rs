//! Wrapping a model and taking it out again gives the same model.
//!
//! "The same" is meant of what a model looks like, whatever the identities of
//! its nodes: the classes, the names, and the order and shape of what lies
//! below each node.

use crate::graph::root_class;
use crate::host::is_kept;
use crate::host::is_mount;
use crate::host::keep_test;
use crate::host::lemma_shell_well_formed;
use crate::host::mount_candidates;
use crate::host::mount_class;
use crate::host::mount_test;
use crate::host::no_ids;
use crate::host::shell;
use crate::host::survivors;
use crate::moves::all_clear;
use crate::moves::ids_free;
use crate::moves::lemma_children_move;
use crate::moves::moved_by;
use crate::moves::moved_state;
use crate::moves::siblings;
use crate::transplant::after_moves;
use crate::transplant::moves_ok;
use crate::tree::in_subtree;
use crate::tree::is_child;
use crate::tree::lone;
use crate::tree::Nodes;
use crate::tree::reach;
use crate::tree::tidy_at;
use crate::wellformed::lemma_child_names_parent;
use crate::wellformed::lemma_filter_keeps;
use crate::wellformed::lemma_lone_well_formed;
use crate::wellformed::lemma_reach_step;
use crate::wellformed::lemma_reach_trans;
use crate::wellformed::lemma_same_below;
use crate::wellformed::lemma_siblings_apart;
use crate::wellformed::lemma_subtree_in_document;
use crate::wellformed::same_below;
use crate::wellformed::well_formed;
use vstd::prelude::*;

verus! {

/// What a node looks like: its class, its name, and what its children look
/// like, in order.
pub ghost struct Shape {
    pub class: Seq<char>,
    pub name: Seq<char>,
    pub children: Seq<Shape>,
}

/// What the node `id` looks like down to `depth` levels below it.
pub open spec fn shape_of(nodes: Nodes, id: u128, depth: nat) -> Shape
    decreases depth,
{
    Shape {
        class: nodes[id].class,
        name: nodes[id].name,
        children: if depth == 0 {
            Seq::empty()
        } else {
            Seq::new(
                nodes[id].children.len(),
                |i: int| shape_of(nodes, nodes[id].children[i], (depth - 1) as nat),
            )
        },
    }
}

/// What the nodes of `list` look like, one after the other.
pub open spec fn forest_of(nodes: Nodes, list: Seq<u128>, depth: nat) -> Seq<Shape> {
    Seq::new(list.len(), |i: int| shape_of(nodes, list[i], depth))
}

/// `b` holds every node that lies below `top` in `a` with the class, name,
/// child list and unique id that it has in `a`.
pub open spec fn alike_below(a: Nodes, b: Nodes, top: u128) -> bool {
    forall|x: u128| #[trigger]
        in_subtree(a, top, x) ==> a.contains_key(x) && b.contains_key(x) && b[x].class
            == a[x].class && b[x].name == a[x].name && b[x].children == a[x].children
            && b[x].unique_id == a[x].unique_id
}

/// Nodes that are alike with all that lies below them look the same.
pub proof fn lemma_alike_looks_the_same(a: Nodes, b: Nodes, top: u128, depth: nat)
    requires
        alike_below(a, b, top),
    ensures
        shape_of(a, top, depth) == shape_of(b, top, depth),
    decreases depth,
{
    assert(reach(a, top, top, 0));
    assert(in_subtree(a, top, top));
    if depth > 0 {
        let kids = a[top].children;
        let below = (depth - 1) as nat;
        assert forall|i: int| 0 <= i < kids.len() implies shape_of(a, kids[i], below) == shape_of(
            b,
            kids[i],
            below,
        ) by {
            let c = kids[i];
            assert(is_child(a, top, c));
            lemma_reach_step(a, top, top, c, 0);
            assert forall|x: u128| #[trigger] in_subtree(a, c, x) implies in_subtree(
                a,
                top,
                x,
            ) by {
                let n = choose|n: nat| reach(a, c, x, n);
                lemma_reach_trans(a, top, c, x, 1, n);
            }
            lemma_alike_looks_the_same(a, b, c, below);
        }
        assert(shape_of(a, top, depth).children =~= shape_of(b, top, depth).children);
    }
}

/// A test that every element passes takes nothing out.
pub proof fn lemma_filter_keeps_all(s: Seq<u128>, test: spec_fn(u128) -> bool)
    requires
        forall|i: int| 0 <= i < s.len() ==> test(#[trigger] s[i]),
    ensures
        s.filter(test) == s,
    decreases s.len(),
{
    reveal(Seq::filter);
    if s.len() > 0 {
        lemma_filter_keeps_all(s.drop_last(), test);
        assert(s.drop_last().push(s.last()) =~= s);
    }
}

/// What `build_as` makes of a tree whose top-level nodes it is given, once
/// the two identities of the host document are not in use in the tree: the run
/// goes through, the host document is a tree with the mount point as the only
/// child of its root, the mount point lists the nodes in order, and every node
/// that moved has kept its class, name and children.
pub proof fn lemma_build_mounts_the_model(
    model: Nodes,
    model_root: u128,
    host_root: u128,
    mount: u128,
)
    requires
        well_formed(model, model_root),
        host_root != 0,
        mount != 0,
        mount != host_root,
        !model.contains_key(host_root),
        !model.contains_key(mount),
        ids_free(model, model[model_root].children, Set::<u128>::empty()),
    ensures
        ({
            let list = model[model_root].children;
            let start = shell(host_root, mount);
            let host = after_moves(model, start, list, mount, list.len()).1;
            &&& moves_ok(model, model_root, start, no_ids(), list, mount, list.len())
            &&& ids_free(host, list, Set::<u128>::empty())
            &&& well_formed(host, host_root)
            &&& host[host_root].children == seq![mount]
            &&& host.contains_key(mount)
            &&& in_subtree(host, host_root, mount)
            &&& host[mount].class == mount_class()
            &&& host[mount].children == list
            &&& siblings(host, mount, list)
            &&& forall|i: int|
                0 <= i < list.len() ==> alike_below(model, host, #[trigger] list[i]) && same_below(
                    model,
                    host,
                    list[i],
                )
            &&& forall|x: u128|
                host.contains_key(x) ==> x == host_root || x == mount || model.contains_key(x)
        }),
{
    let list = model[model_root].children;
    let start = shell(host_root, mount);
    let n = list.len();
    lemma_shell_well_formed(host_root, mount);
    assert(reach(model, model_root, model_root, 0));
    assert(in_subtree(model, model_root, model_root));
    assert(tidy_at(model, model_root, model_root));
    assert(siblings(model, model_root, list));
    assert forall|i: int, x: u128| 0 <= i < list.len() && #[trigger] in_subtree(
        model,
        list[i],
        x,
    ) implies model.contains_key(x) by {
        let k = choose|k: nat| reach(model, list[i], x, k);
        assert(is_child(model, model_root, list[i]));
        lemma_child_names_parent(model, model_root, model_root, list[i]);
        lemma_subtree_in_document(model, model_root, list[i], x, k);
    }
    assert(all_clear(model, list, start));
    lemma_children_move(
        model,
        model_root,
        start,
        host_root,
        Set::<u128>::empty(),
        model_root,
        list,
        mount,
        n,
    );
    let host = after_moves(model, start, list, mount, n).1;
    let left = after_moves(model, start, list, mount, n).0;
    assert(moved_state(model, start, model_root, list, mount, n, left, host));
    assert(list.take(n as int) =~= list);
    assert(start[mount].children + list =~= list);
    assert(host[host_root] == start[host_root]);
    assert(host.contains_key(mount));
    assert(reach(host, host_root, host_root, 0));
    assert(host[host_root].children[0] == mount);
    assert(is_child(host, host_root, mount));
    lemma_reach_step(host, host_root, host_root, mount, 0);
    assert(siblings(host, mount, list));
    assert forall|i: int| 0 <= i < list.len() implies alike_below(model, host, #[trigger] list[i])
        && same_below(model, host, list[i]) by {
        assert forall|x: u128| #[trigger] in_subtree(model, list[i], x) implies model.contains_key(
            x,
        ) && host.contains_key(x) && host[x].class == model[x].class && host[x].name
            == model[x].name && host[x].children == model[x].children && host[x].unique_id
            == model[x].unique_id by {
            assert(moved_by(model, list, n, x));
        }
    }
    assert(ids_free(host, list, Set::<u128>::empty())) by {
        assert forall|i: int, j: int, a: u128, b: u128|
            #![trigger in_subtree(host, list[i], a), in_subtree(host, list[j], b)]
            0 <= i < list.len() && 0 <= j < list.len() && in_subtree(host, list[i], a)
                && in_subtree(host, list[j], b) && a != b
                && host[a].unique_id is Some implies host[a].unique_id != host[b].unique_id by {
            assert(same_below(model, host, list[i]) && alike_below(model, host, list[i]));
            assert(same_below(model, host, list[j]) && alike_below(model, host, list[j]));
            lemma_same_below(model, host, list[i], a);
            lemma_same_below(model, host, list[j], b);
            assert(in_subtree(model, list[i], a) && in_subtree(model, list[j], b));
        }
    }
    assert forall|x: u128| host.contains_key(x) implies x == host_root || x == mount
        || model.contains_key(x) by {
        if moved_by(model, list, n, x) {
            let i = choose|i: int| 0 <= i < n && #[trigger] in_subtree(model, list[i], x);
        }
    }
}

/// What `extract_into` makes of a tree with one mount point and a new graph
/// whose root is not in use in the host document: the run goes through, both
/// graphs are trees afterwards, the new model lists the children of the mount
/// point that the exclusion policy does not name, in order, each looking as it
/// did, and those that the policy names are still in the host document.
pub proof fn lemma_extract_takes_what_is_kept(
    host: Nodes,
    host_root: u128,
    asset_root: u128,
    depth: nat,
)
    requires
        well_formed(host, host_root),
        mount_candidates(host, host_root).len() == 1,
        asset_root != 0,
        !host.contains_key(asset_root),
        ids_free(
            host,
            survivors(host, mount_candidates(host, host_root)[0]),
            Set::<u128>::empty(),
        ),
    ensures
        ({
            let mount = mount_candidates(host, host_root)[0];
            let list = survivors(host, mount);
            let bare = lone(asset_root, root_class(), root_class());
            let after = after_moves(host, bare, list, asset_root, list.len());
            &&& is_mount(host, mount)
            &&& moves_ok(host, host_root, bare, no_ids(), list, asset_root, list.len())
            &&& well_formed(after.0, host_root)
            &&& well_formed(after.1, asset_root)
            &&& after.1[asset_root].children == list
            &&& forest_of(after.1, list, depth) == forest_of(host, list, depth)
            &&& forall|c: u128|
                is_child(host, mount, c) ==> (list.contains(c) <==> is_kept(host, c)) && (
                #[trigger] after.0.contains_key(c) <==> !is_kept(host, c))
        }),
{
    let found = mount_candidates(host, host_root);
    let mount = found[0];
    let list = survivors(host, mount);
    let n = list.len();
    let bare = lone(asset_root, root_class(), root_class());
    lemma_filter_keeps(host[host_root].children, mount_test(host));
    assert(found.contains(mount));
    assert(mount_test(host)(mount));
    assert(reach(host, host_root, host_root, 0));
    assert(in_subtree(host, host_root, host_root));
    assert(is_child(host, host_root, mount));
    lemma_child_names_parent(host, host_root, host_root, mount);
    lemma_filter_keeps(host[mount].children, keep_test(host));
    assert forall|i: int| 0 <= i < list.len() implies is_child(host, mount, #[trigger] list[i])
        && is_kept(host, list[i]) by {
        assert(list.contains(list[i]));
        assert(keep_test(host)(list[i]));
    }
    assert(siblings(host, mount, list));
    assert forall|i: int, x: u128| 0 <= i < list.len() && #[trigger] in_subtree(
        host,
        list[i],
        x,
    ) implies host.contains_key(x) by {
        let k = choose|k: nat| reach(host, list[i], x, k);
        lemma_child_names_parent(host, host_root, mount, list[i]);
        lemma_subtree_in_document(host, host_root, list[i], x, k);
    }
    assert(all_clear(host, list, bare));
    lemma_lone_well_formed(asset_root, root_class(), root_class());
    lemma_children_move(
        host,
        host_root,
        bare,
        asset_root,
        Set::<u128>::empty(),
        mount,
        list,
        asset_root,
        n,
    );
    let after = after_moves(host, bare, list, asset_root, n);
    assert(moved_state(host, bare, mount, list, asset_root, n, after.0, after.1));
    assert(list.take(n as int) =~= list);
    assert(bare[asset_root].children + list =~= list);
    assert forall|i: int| 0 <= i < list.len() implies shape_of(after.1, list[i], depth)
        == shape_of(host, list[i], depth) by {
        assert forall|x: u128| #[trigger] in_subtree(host, list[i], x) implies host.contains_key(x)
            && after.1.contains_key(x) && after.1[x].class == host[x].class && after.1[x].name
            == host[x].name && after.1[x].children == host[x].children by {
            assert(moved_by(host, list, n, x));
        }
        assert(alike_below(host, after.1, list[i]));
        lemma_alike_looks_the_same(host, after.1, list[i], depth);
    }
    assert(forest_of(after.1, list, depth) =~= forest_of(host, list, depth));
    assert forall|c: u128| is_child(host, mount, c) implies (list.contains(c) <==> is_kept(
        host,
        c,
    )) && (#[trigger] after.0.contains_key(c) <==> !is_kept(host, c)) by {
        lemma_child_names_parent(host, host_root, mount, c);
        assert(keep_test(host)(c) == is_kept(host, c));
        assert(reach(host, c, c, 0));
        if list.contains(c) {
            let i = choose|i: int| 0 <= i < list.len() && list[i] == c;
            assert(in_subtree(host, list[i], c));
            assert(moved_by(host, list, n, c));
        } else {
            if moved_by(host, list, n, c) {
                let i = choose|i: int| 0 <= i < n && #[trigger] in_subtree(host, list[i], c);
                assert(list.contains(list[i]));
                assert(is_child(host, mount, list[i]));
                lemma_siblings_apart(host, host_root, mount, list[i], c, c);
            }
        }
    }
}

/// Wrapping a model and taking it out again gives a model that looks the
/// same.
///
/// Take a tree none of whose top-level nodes the exclusion policy names, and
/// in which no unique id comes with two of the nodes that are to move. Let
/// `build_as` wrap its top-level nodes into a host document with the
/// identities `host_root` and `mount`, and let `extract_into` take them out of
/// that host document into a new graph with the root `asset_root`. Once none
/// of the three identities is in use in the model, both go through:
/// extraction finds the mount point and takes every node along, and the
/// top-level nodes of the new model are those of the old one, in order, each
/// with the same class, name and shape below it, to any depth. `build` and
/// `extract` do the same with identities drawn at random.
pub proof fn lemma_round_trip(
    model: Nodes,
    model_root: u128,
    host_root: u128,
    mount: u128,
    asset_root: u128,
    depth: nat,
)
    requires
        well_formed(model, model_root),
        forall|i: int|
            0 <= i < model[model_root].children.len() ==> is_kept(
                model,
                #[trigger] model[model_root].children[i],
            ),
        host_root != 0,
        mount != 0,
        mount != host_root,
        asset_root != 0,
        !model.contains_key(host_root),
        !model.contains_key(mount),
        !model.contains_key(asset_root),
        ids_free(model, model[model_root].children, Set::<u128>::empty()),
    ensures
        ({
            let list = model[model_root].children;
            let host = after_moves(model, shell(host_root, mount), list, mount, list.len()).1;
            let bare = lone(asset_root, root_class(), root_class());
            let asset = after_moves(host, bare, list, asset_root, list.len()).1;
            &&& moves_ok(
                model,
                model_root,
                shell(host_root, mount),
                no_ids(),
                list,
                mount,
                list.len(),
            )
            &&& mount_candidates(host, host_root) == seq![mount]
            &&& survivors(host, mount) == list
            &&& moves_ok(host, host_root, bare, no_ids(), list, asset_root, list.len())
            &&& well_formed(asset, asset_root)
            &&& asset[asset_root].children == list
            &&& forest_of(asset, asset[asset_root].children, depth) == forest_of(
                model,
                model[model_root].children,
                depth,
            )
        }),
{
    let list = model[model_root].children;
    let n = list.len();
    let host = after_moves(model, shell(host_root, mount), list, mount, n).1;
    let bare = lone(asset_root, root_class(), root_class());
    lemma_build_mounts_the_model(model, model_root, host_root, mount);
    lemma_shell_well_formed(host_root, mount);
    assert(well_formed(host, host_root));
    // The mount point is found.
    assert(is_mount(host, mount));
    assert(mount_test(host)(mount));
    lemma_filter_keeps_all(seq![mount], mount_test(host));
    assert(mount_candidates(host, host_root) == seq![mount]);
    // Every child of the mount point is taken along.
    assert(reach(model, model_root, model_root, 0));
    assert forall|i: int| 0 <= i < list.len() implies keep_test(host)(#[trigger] list[i]) by {
        assert(alike_below(model, host, list[i]));
        assert(reach(model, list[i], list[i], 0));
        assert(in_subtree(model, list[i], list[i]));
        assert(is_kept(model, model[model_root].children[i]));
    }
    lemma_filter_keeps_all(list, keep_test(host));
    // The nodes move on into the new model.
    lemma_lone_well_formed(asset_root, root_class(), root_class());
    assert forall|i: int, x: u128| 0 <= i < list.len() && #[trigger] in_subtree(
        host,
        list[i],
        x,
    ) implies !bare.contains_key(x) by {
        assert(same_below(model, host, list[i]));
        lemma_same_below(model, host, list[i], x);
        assert(in_subtree(model, list[i], x));
        assert(alike_below(model, host, list[i]));
        assert(model.contains_key(x));
    }
    assert(all_clear(host, list, bare));
    lemma_children_move(
        host,
        host_root,
        bare,
        asset_root,
        Set::<u128>::empty(),
        mount,
        list,
        asset_root,
        n,
    );
    let asset = after_moves(host, bare, list, asset_root, n).1;
    let rest = after_moves(host, bare, list, asset_root, n).0;
    assert(moved_state(host, bare, mount, list, asset_root, n, rest, asset));
    assert(list.take(n as int) =~= list);
    assert(bare[asset_root].children + list =~= list);
    assert(asset[asset_root].children == list);
    // And they look as they did.
    assert forall|i: int| 0 <= i < list.len() implies shape_of(asset, list[i], depth) == shape_of(
        model,
        list[i],
        depth,
    ) by {
        assert(alike_below(model, host, list[i]));
        assert(same_below(model, host, list[i]));
        assert forall|x: u128| #[trigger] in_subtree(model, list[i], x) implies model.contains_key(
            x,
        ) && asset.contains_key(x) && asset[x].class == model[x].class && asset[x].name
            == model[x].name && asset[x].children == model[x].children by {
            lemma_same_below(model, host, list[i], x);
            assert(in_subtree(host, list[i], x));
            assert(moved_by(host, list, n, x));
        }
        assert(alike_below(model, asset, list[i]));
        lemma_alike_looks_the_same(model, asset, list[i], depth);
    }
    assert(forest_of(asset, list, depth) =~= forest_of(model, list, depth));
}

} // verus!
