//! The host document: the throwaway place that wraps a model for the editor.
//!
//! `build` puts the model's nodes under the mount point of a new host
//! document. `extract` takes them back out of a saved one, leaving behind what
//! the editor adds to every place on its own.

use crate::dom::fresh_identity;
use crate::graph::GraphError;
use crate::graph::root_class;
use crate::graph::SceneGraph;
use crate::moves::lemma_moves_append;
use crate::transplant::after_moves;
use crate::transplant::moved_to;
use crate::transplant::moves_ok;
use crate::transplant::record_after;
use crate::transplant::record_left;
use crate::transplant::stopped_at;
use crate::transplant::transplant_all;
use crate::tree::graft;
use crate::tree::lone;
use crate::tree::Nodes;
use crate::wellformed::lemma_graft_well_formed;
use crate::wellformed::lemma_lone_well_formed;
use crate::wellformed::well_formed;
use vstd::pervasive::unreached;
use vstd::prelude::*;

verus! {

broadcast use vstd::seq_lib::group_filter_ensures;

/// The class that marks the mount point, which is also its name in a host
/// document that `build` made.
pub open spec fn mount_class() -> Seq<char> {
    "Workspace"@
}

/// The exclusion policy: the camera and the terrain that the editor puts into
/// every place. Class and name must both match; an instance of the same class
/// under another name is the user's.
pub open spec fn excluded(class: Seq<char>, name: Seq<char>) -> bool {
    (class == "Camera"@ && name == "Camera"@) || (class == "Terrain"@ && name == "Terrain"@)
}

/// Whether two texts are the same.
fn same_text(a: &str, b: &str) -> (same: bool)
    ensures
        same == (a@ == b@),
{
    let x = a.to_owned();
    let y = b.to_owned();
    x == y
}

/// Whether a child of the mount point with this class and name is left behind
/// on extraction.
pub fn is_excluded(class: &str, name: &str) -> (b: bool)
    ensures
        b == excluded(class@, name@),
{
    (same_text(class, "Camera") && same_text(name, "Camera")) || (same_text(class, "Terrain")
        && same_text(name, "Terrain"))
}

/// `id` is a node that carries the mount point's class.
pub open spec fn is_mount(nodes: Nodes, id: u128) -> bool {
    nodes.contains_key(id) && nodes[id].class == mount_class()
}

/// `id` is a node that extraction takes along.
pub open spec fn is_kept(nodes: Nodes, id: u128) -> bool {
    !(nodes.contains_key(id) && excluded(nodes[id].class, nodes[id].name))
}

/// The test that picks mount points out of a child list.
pub open spec fn mount_test(nodes: Nodes) -> spec_fn(u128) -> bool {
    |id: u128| is_mount(nodes, id)
}

/// The test that picks the nodes to take along out of a child list.
pub open spec fn keep_test(nodes: Nodes) -> spec_fn(u128) -> bool {
    |id: u128| is_kept(nodes, id)
}

/// The children of the root that carry the mount point's class, in order.
pub open spec fn mount_candidates(nodes: Nodes, root: u128) -> Seq<u128> {
    if nodes.contains_key(root) {
        nodes[root].children.filter(mount_test(nodes))
    } else {
        Seq::empty()
    }
}

/// The children of `mount` that extraction takes along, in order.
pub open spec fn survivors(nodes: Nodes, mount: u128) -> Seq<u128> {
    nodes[mount].children.filter(keep_test(nodes))
}

/// A host document before anything is mounted: a root and, as its only child,
/// an empty mount point.
pub open spec fn shell(root: u128, mount: u128) -> Nodes {
    graft(lone(root, root_class(), root_class()), root, mount, mount_class(), mount_class())
}

/// A host document before anything is mounted is a tree.
pub proof fn lemma_shell_well_formed(root: u128, mount: u128)
    requires
        root != 0,
        mount != 0,
        mount != root,
    ensures
        well_formed(shell(root, mount), root),
        shell(root, mount).contains_key(root),
        shell(root, mount).contains_key(mount),
        forall|x: u128| shell(root, mount).contains_key(x) ==> x == root || x == mount,
        shell(root, mount)[root].children == seq![mount],
        shell(root, mount)[mount].children == Seq::<u128>::empty(),
        shell(root, mount)[mount].class == mount_class(),
{
    let bare = lone(root, root_class(), root_class());
    lemma_lone_well_formed(root, root_class(), root_class());
    lemma_graft_well_formed(bare, root, root, mount, mount_class(), mount_class());
    assert(shell(root, mount)[root].children =~= seq![mount]);
}

/// Finds the mount point of a host document: the one child of the root that
/// carries the mount point's class.
pub fn find_mount(host: &SceneGraph) -> (r: Result<u128, GraphError>)
    ensures
        r is Ok <==> mount_candidates(host@, host.root_id()).len() == 1,
        r matches Ok(m) ==> m == mount_candidates(host@, host.root_id())[0] && host@.contains_key(
            m,
        ),
        r matches Err(e) ==> e == GraphError::MountPointNotFound,
{
    let kids = match host.children_of(host.root()) {
        Ok(k) => k,
        Err(_) => {
            return Err(GraphError::MountPointNotFound);
        },
    };
    let ghost nodes = host@;
    let mut found: Vec<u128> = Vec::new();
    let mut i: usize = 0;
    proof {
        assert(kids@.take(0) =~= Seq::<u128>::empty());
        reveal(Seq::filter);
    }
    while i < kids.len()
        invariant
            i <= kids.len(),
            nodes == host@,
            found@ == kids@.take(i as int).filter(mount_test(nodes)),
            forall|k: int| 0 <= k < found.len() ==> nodes.contains_key(#[trigger] found@[k]),
        decreases kids.len() - i,
    {
        let c = kids[i];
        let hit = match host.get(c) {
            Ok(n) => same_text(n.class.as_str(), "Workspace"),
            Err(_) => false,
        };
        proof {
            assert(kids@.take(i + 1) =~= kids@.take(i as int).push(c));
            assert(hit == mount_test(nodes)(c));
            kids@.take(i as int).lemma_filter_push(c, mount_test(nodes));
        }
        if hit {
            found.push(c);
        }
        i += 1;
    }
    proof {
        assert(kids@.take(kids.len() as int) =~= kids@);
    }
    if found.len() == 1 {
        Ok(found[0])
    } else {
        Err(GraphError::MountPointNotFound)
    }
}

/// Lists the children of `mount` that extraction takes along.
fn list_survivors(host: &SceneGraph, mount: u128) -> (kept: Vec<u128>)
    requires
        host@.contains_key(mount),
    ensures
        kept@ == survivors(host@, mount),
{
    let kids = match host.children_of(mount) {
        Ok(k) => k,
        Err(_) => unreached(),
    };
    let ghost nodes = host@;
    let mut kept: Vec<u128> = Vec::new();
    let mut i: usize = 0;
    proof {
        assert(kids@.take(0) =~= Seq::<u128>::empty());
        reveal(Seq::filter);
    }
    while i < kids.len()
        invariant
            i <= kids.len(),
            nodes == host@,
            kept@ == kids@.take(i as int).filter(keep_test(nodes)),
        decreases kids.len() - i,
    {
        let c = kids[i];
        let dropped = match host.get(c) {
            Ok(n) => is_excluded(n.class.as_str(), n.name.as_str()),
            Err(_) => false,
        };
        proof {
            assert(kids@.take(i + 1) =~= kids@.take(i as int).push(c));
            assert(!dropped == keep_test(nodes)(c));
            kids@.take(i as int).lemma_filter_push(c, keep_test(nodes));
        }
        if !dropped {
            kept.push(c);
        }
        i += 1;
    }
    proof {
        assert(kids@.take(kids.len() as int) =~= kids@);
    }
    kept
}

/// Whether `root` and `mount` cannot be the two identities of a host
/// document: one of them is the null identity, or they are the same.
pub open spec fn shell_refused(root: u128, mount: u128) -> bool {
    root == 0 || mount == 0 || mount == root
}

/// The record of a graph that was just made: it has no unique id on record.
pub open spec fn no_ids() -> Option<Set<u128>> {
    Some(Set::<u128>::empty())
}

/// `host` is what the moves of `list` out of `source` make, as far as they
/// go, of a host document with the identities `root` and `mount`, and
/// `source_now` is what they leave of `source`.
pub open spec fn built_from(
    source: SceneGraph,
    list: Seq<u128>,
    root: u128,
    mount: u128,
    k: nat,
    source_now: SceneGraph,
    host: Nodes,
    host_ids: Option<Set<u128>>,
) -> bool {
    let start = shell(root, mount);
    &&& (source_now@, host) == after_moves(source@, start, list, mount, k)
    &&& source_now.known_ids() == record_left(source@, start, source.known_ids(), list, mount, k)
    &&& host_ids == record_after(source@, start, no_ids(), list, mount, k)
}

/// Wraps the nodes of `asset_nodes` into a new host document whose root has
/// the identity `host_root` and whose mount point has the identity `mount`:
/// the mount point is the only child of the root, and the nodes come under
/// the mount point in the given order.
///
/// Two identities that cannot make a host document are refused before
/// anything moves. After that the run ends at the first node that cannot
/// move, with the nodes before it gone from `source`.
pub fn build_as(source: &mut SceneGraph, asset_nodes: &Vec<u128>, host_root: u128, mount: u128) -> (r:
    Result<SceneGraph, GraphError>)
    ensures
        final(source).root_id() == old(source).root_id(),
        old(source).is_tree() ==> final(source).is_tree(),
        shell_refused(host_root, mount) ==> final(source)@ == old(source)@ && final(source).known_ids() == old(source).known_ids() && (r matches Err(e) && e
            == GraphError::IdentityInUse),
        !shell_refused(host_root, mount) ==> {
            let start = shell(host_root, mount);
            let src = old(source)@;
            let src_root = old(source).root_id();
            let n = asset_nodes@.len();
            &&& r is Ok <==> moves_ok(src, src_root, start, no_ids(), asset_nodes@, mount, n)
            &&& r matches Ok(host) ==> {
                &&& host.root_id() == host_root
                &&& built_from(
                    *old(source),
                    asset_nodes@,
                    host_root,
                    mount,
                    n,
                    *final(source),
                    host@,
                    host.known_ids(),
                )
                &&& host.is_tree()
                &&& host@.contains_key(host_root) && host@[host_root].children == seq![mount]
                &&& host@.contains_key(mount) && host@[mount].class == mount_class()
                    && host@[mount].children == asset_nodes@
            }
            &&& r matches Err(e) ==> exists|k: nat, left: Nodes, ids: Option<Set<u128>>|
                #![trigger built_from(*old(source), asset_nodes@, host_root, mount, k, *final(source), left, ids)]
                stopped_at(src, src_root, start, no_ids(), asset_nodes@, mount, k, e)
                    && built_from(
                    *old(source),
                    asset_nodes@,
                    host_root,
                    mount,
                    k,
                    *final(source),
                    left,
                    ids,
                )
        },
{
    let mut host = match SceneGraph::new_empty_as(host_root) {
        Ok(g) => g,
        Err(e) => {
            return Err(e);
        },
    };
    match host.insert_as(host_root, mount, "Workspace", "Workspace") {
        Ok(_) => {},
        Err(_) => {
            return Err(GraphError::IdentityInUse);
        },
    }
    let ghost start = host;
    proof {
        assert(start@ == shell(host_root, mount));
    }
    match transplant_all(source, asset_nodes, &mut host, mount) {
        Ok(()) => {
            proof {
                lemma_shell_well_formed(host_root, mount);
                lemma_moves_append(
                    old(source)@,
                    old(source).root_id(),
                    start@,
                    no_ids(),
                    asset_nodes@,
                    mount,
                    asset_nodes@.len(),
                );
                assert(asset_nodes@.take(asset_nodes@.len() as int) =~= asset_nodes@);
                assert(start@[mount].children + asset_nodes@ =~= asset_nodes@);
            }
            Ok(host)
        },
        Err(e) => {
            proof {
                let k = choose|k: nat|
                    #![trigger after_moves(old(source)@, start@, asset_nodes@, mount, k)]
                    stopped_at(
                        old(source)@,
                        old(source).root_id(),
                        start@,
                        start.known_ids(),
                        asset_nodes@,
                        mount,
                        k,
                        e,
                    ) && moved_to(*old(source), start, asset_nodes@, mount, k, *source, host);
                assert(built_from(
                    *old(source),
                    asset_nodes@,
                    host_root,
                    mount,
                    k,
                    *source,
                    host@,
                    host.known_ids(),
                ));
            }
            Err(e)
        },
    }
}

/// Wraps the nodes of `asset_nodes` into a new host document: a root, one
/// mount point under it, and the nodes, in the given order, under the mount
/// point. Returns the host document and the identity of its mount point.
///
/// The identities of the root and the mount point are drawn at random; what
/// follows the draw is `build_as`.
pub fn build(source: &mut SceneGraph, asset_nodes: &Vec<u128>) -> (r: Result<
    (SceneGraph, u128),
    GraphError,
>)
    ensures
        final(source).root_id() == old(source).root_id(),
        old(source).is_tree() ==> final(source).is_tree(),
        match r {
            Ok((host, mount)) => {
                &&& !shell_refused(host.root_id(), mount)
                &&& host.is_tree()
                &&& host@.contains_key(host.root_id()) && host@[host.root_id()].children
                    == seq![mount]
                &&& host@.contains_key(mount) && host@[mount].class == mount_class()
                    && host@[mount].children == asset_nodes@
                &&& moves_ok(
                    old(source)@,
                    old(source).root_id(),
                    shell(host.root_id(), mount),
                    no_ids(),
                    asset_nodes@,
                    mount,
                    asset_nodes@.len(),
                )
                &&& built_from(
                    *old(source),
                    asset_nodes@,
                    host.root_id(),
                    mount,
                    asset_nodes@.len(),
                    *final(source),
                    host@,
                    host.known_ids(),
                )
            },
            Err(e) => {
                ||| e == GraphError::IdentityInUse && final(source)@ == old(source)@ && final(source).known_ids() == old(source).known_ids()
                ||| exists|root: u128, mount: u128, k: nat, left: Nodes, ids: Option<Set<u128>>|
                    #![trigger built_from(*old(source), asset_nodes@, root, mount, k, *final(source), left, ids)]
                    {
                        &&& !shell_refused(root, mount)
                        &&& stopped_at(
                            old(source)@,
                            old(source).root_id(),
                            shell(root, mount),
                            no_ids(),
                            asset_nodes@,
                            mount,
                            k,
                            e,
                        )
                        &&& built_from(
                            *old(source),
                            asset_nodes@,
                            root,
                            mount,
                            k,
                            *final(source),
                            left,
                            ids,
                        )
                    }
            },
        },
{
    let root = fresh_identity();
    let mount = fresh_identity();
    match build_as(source, asset_nodes, root, mount) {
        Ok(host) => Ok((host, mount)),
        Err(e) => {
            proof {
                if !shell_refused(root, mount) {
                    let (k, left, ids) = choose|k: nat, left: Nodes, ids: Option<Set<u128>>|
                        #![trigger built_from(*old(source), asset_nodes@, root, mount, k, *source, left, ids)]
                        stopped_at(
                            old(source)@,
                            old(source).root_id(),
                            shell(root, mount),
                            no_ids(),
                            asset_nodes@,
                            mount,
                            k,
                            e,
                        ) && built_from(
                            *old(source),
                            asset_nodes@,
                            root,
                            mount,
                            k,
                            *source,
                            left,
                            ids,
                        );
                }
            }
            Err(e)
        },
    }
}

/// Moves what extraction takes along out of the host document and into
/// `asset`, under its root: the children of the mount point, in order, but for
/// those that the exclusion policy names.
pub fn extract_into(host: &mut SceneGraph, asset: &mut SceneGraph) -> (r: Result<(), GraphError>)
    ensures
        final(host).root_id() == old(host).root_id(),
        final(asset).root_id() == old(asset).root_id(),
        old(host).is_tree() ==> final(host).is_tree(),
        old(asset).is_tree() ==> final(asset).is_tree(),
        r == Err::<(), GraphError>(GraphError::MountPointNotFound) <==> mount_candidates(
            old(host)@,
            old(host).root_id(),
        ).len() != 1,
        r == Err::<(), GraphError>(GraphError::MountPointNotFound) ==> {
            &&& final(host)@ == old(host)@
            &&& final(asset)@ == old(asset)@
            &&& final(host).known_ids() == old(host).known_ids()
            &&& final(asset).known_ids() == old(asset).known_ids()
        },
        mount_candidates(old(host)@, old(host).root_id()).len() == 1 ==> {
            let mount = mount_candidates(old(host)@, old(host).root_id())[0];
            let list = survivors(old(host)@, mount);
            let to = old(asset).root_id();
            &&& r is Ok <==> moves_ok(
                old(host)@,
                old(host).root_id(),
                old(asset)@,
                old(asset).known_ids(),
                list,
                to,
                list.len(),
            )
            &&& r is Ok ==> moved_to(
                *old(host),
                *old(asset),
                list,
                to,
                list.len(),
                *final(host),
                *final(asset),
            )
            &&& r matches Err(e) ==> exists|k: nat|
                #![trigger after_moves(old(host)@, old(asset)@, list, to, k)]
                stopped_at(
                    old(host)@,
                    old(host).root_id(),
                    old(asset)@,
                    old(asset).known_ids(),
                    list,
                    to,
                    k,
                    e,
                ) && moved_to(*old(host), *old(asset), list, to, k, *final(host), *final(asset))
        },
{
    let mount = match find_mount(host) {
        Ok(m) => m,
        Err(e) => {
            return Err(e);
        },
    };
    let list = list_survivors(host, mount);
    let to = asset.root();
    let r = transplant_all(host, &list, asset, to);
    proof {
        if let Err(e) = r {
            let k = choose|k: nat|
                #![trigger after_moves(old(host)@, old(asset)@, list@, to, k)]
                stopped_at(
                    old(host)@,
                    old(host).root_id(),
                    old(asset)@,
                    old(asset).known_ids(),
                    list@,
                    to,
                    k,
                    e,
                ) && moved_to(*old(host), *old(asset), list@, to, k, *host, *asset);
            assert(e != GraphError::MountPointNotFound);
        }
    }
    r
}

/// `asset` is what the moves of `list` out of `host` make, as far as they go,
/// of a new graph with the root `to`, and `host_now` is what they leave of
/// `host`.
pub open spec fn taken_from(
    host: SceneGraph,
    list: Seq<u128>,
    to: u128,
    k: nat,
    host_now: SceneGraph,
    asset: Nodes,
    asset_ids: Option<Set<u128>>,
) -> bool {
    let start = lone(to, root_class(), root_class());
    &&& (host_now@, asset) == after_moves(host@, start, list, to, k)
    &&& host_now.known_ids() == record_left(host@, start, host.known_ids(), list, to, k)
    &&& asset_ids == record_after(host@, start, no_ids(), list, to, k)
}

/// Takes the model back out of a saved host document, into a new graph.
///
/// Fails with `MountPointNotFound`, and leaves the host document as it was,
/// exactly where the root has no mount point or more than one. An empty mount
/// point, or one that holds only what the exclusion policy names, gives an
/// empty model. The identity of the new graph's root is drawn at random.
pub fn extract(host: &mut SceneGraph) -> (r: Result<SceneGraph, GraphError>)
    ensures
        final(host).root_id() == old(host).root_id(),
        old(host).is_tree() ==> final(host).is_tree(),
        r == Err::<SceneGraph, GraphError>(GraphError::MountPointNotFound) <==> mount_candidates(
            old(host)@,
            old(host).root_id(),
        ).len() != 1,
        r == Err::<SceneGraph, GraphError>(GraphError::MountPointNotFound) ==> final(host)@ == old(host)@ && final(host).known_ids() == old(host).known_ids(),
        mount_candidates(old(host)@, old(host).root_id()).len() == 1 ==> {
            let mount = mount_candidates(old(host)@, old(host).root_id())[0];
            let list = survivors(old(host)@, mount);
            &&& list.len() == 0 ==> r is Ok
            &&& r matches Ok(asset) ==> {
                let start = lone(asset.root_id(), root_class(), root_class());
                &&& asset.root_id() != 0
                &&& asset.is_tree()
                &&& asset@.contains_key(asset.root_id()) && asset@[asset.root_id()].children
                    == list
                &&& moves_ok(
                    old(host)@,
                    old(host).root_id(),
                    start,
                    no_ids(),
                    list,
                    asset.root_id(),
                    list.len(),
                )
                &&& taken_from(
                    *old(host),
                    list,
                    asset.root_id(),
                    list.len(),
                    *final(host),
                    asset@,
                    asset.known_ids(),
                )
            }
            &&& r matches Err(e) ==> exists|to: u128, k: nat, got: Nodes, ids: Option<Set<u128>>|
                #![trigger taken_from(*old(host), list, to, k, *final(host), got, ids)]
                {
                    let start = lone(to, root_class(), root_class());
                    &&& to != 0
                    &&& stopped_at(old(host)@, old(host).root_id(), start, no_ids(), list, to, k, e)
                    &&& taken_from(*old(host), list, to, k, *final(host), got, ids)
                }
        },
{
    let mut asset = SceneGraph::new_empty();
    let ghost start = asset;
    match extract_into(host, &mut asset) {
        Ok(()) => {
            proof {
                let mount = mount_candidates(old(host)@, old(host).root_id())[0];
                let list = survivors(old(host)@, mount);
                lemma_moves_append(
                    old(host)@,
                    old(host).root_id(),
                    start@,
                    no_ids(),
                    list,
                    asset.root_id(),
                    list.len(),
                );
                assert(list.take(list.len() as int) =~= list);
                assert(start@[asset.root_id()].children + list =~= list);
            }
            Ok(asset)
        },
        Err(e) => {
            proof {
                if e != GraphError::MountPointNotFound {
                    let mount = mount_candidates(old(host)@, old(host).root_id())[0];
                    let list = survivors(old(host)@, mount);
                    let to = start.root_id();
                    let k = choose|k: nat|
                        #![trigger after_moves(old(host)@, start@, list, to, k)]
                        stopped_at(
                            old(host)@,
                            old(host).root_id(),
                            start@,
                            start.known_ids(),
                            list,
                            to,
                            k,
                            e,
                        ) && moved_to(*old(host), start, list, to, k, *host, asset);
                    assert(taken_from(*old(host), list, to, k, *host, asset@, asset.known_ids()));
                }
            }
            Err(e)
        },
    }
}

} // verus!
