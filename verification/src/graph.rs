//! The scene graph: a document together with the operations that are allowed
//! on it. Every operation either succeeds as stated or leaves the graph as it
//! was.
//!
//! A node is named by its identity, a `u128` that means nothing outside the
//! graph that holds the node. Zero is the null identity: it stands for "no
//! parent" and names no node of a graph that is a tree.
//!
//! Apart from its identity a node may carry a unique id, which travels with
//! it from graph to graph. A document does not take a unique id that it has
//! on record a second time, so a graph keeps count of the unique ids that
//! came into it, and a move that would bring one in again is refused.

use crate::dom::dom_get;
use crate::dom::dom_insert;
use crate::dom::dom_new;
use crate::dom::dom_nodes;
use crate::dom::dom_root;
use crate::dom::dom_root_id;
use crate::dom::dom_unique_ids;
use crate::dom::dom_transfer;
use crate::dom::fresh_identity;
use crate::dom::Node;
use crate::tree::attach;
use crate::tree::carries;
use crate::tree::clear_of;
use crate::tree::detach;
use crate::tree::graft;
use crate::tree::ids_apart;
use crate::tree::ids_below;
use crate::tree::lone;
use crate::tree::movable;
use crate::tree::on_record;
use crate::tree::record_less;
use crate::tree::record_more;
use crate::tree::Nodes;
use crate::wellformed::lemma_attach_well_formed;
use crate::wellformed::lemma_detach_well_formed;
use crate::wellformed::lemma_graft_well_formed;
use crate::wellformed::lemma_lone_well_formed;
use crate::wellformed::well_formed;
use rbx_dom_weak::WeakDom;
use std::collections::HashSet;
use vstd::prelude::*;

verus! {

broadcast use vstd::std_specs::hash::group_hash_axioms;

/// Why an operation on a scene graph was refused.
#[derive(Clone, Copy, Debug, PartialEq, Eq, Structural)]
pub enum GraphError {
    /// The identity names no node of the graph.
    NotFound,
    /// The identity given as parent names no node of the graph.
    InvalidParent,
    /// An identity that the operation would bring into the graph is already
    /// in use there.
    IdentityInUse,
    /// The node cannot leave its graph: it is the root, or what lies below it
    /// is not a tree.
    NotMovable,
    /// A host document has no mount point directly under its root, or more
    /// than one.
    MountPointNotFound,
    /// A unique id that the operation would bring into the graph is on record
    /// there, or may be, or comes with two of the nodes.
    UniqueIdInUse,
}

impl GraphError {
    /// The text of the error, as the user is to read it.
    pub open spec fn text(self) -> Seq<char> {
        match self {
            GraphError::NotFound => "no node has this identity"@,
            GraphError::InvalidParent => "the parent is not a node of the graph"@,
            GraphError::IdentityInUse => "an identity is already in use in the graph"@,
            GraphError::NotMovable => "the node cannot leave its graph"@,
            GraphError::MountPointNotFound => "the place must hold exactly one Workspace"@,
            GraphError::UniqueIdInUse => "a unique id is already in use in the graph"@,
        }
    }

    /// The text of the error, as the user is to read it.
    pub fn message(&self) -> (s: String)
        ensures
            s@ == self.text(),
    {
        match self {
            GraphError::NotFound => "no node has this identity".to_owned(),
            GraphError::InvalidParent => "the parent is not a node of the graph".to_owned(),
            GraphError::IdentityInUse => "an identity is already in use in the graph".to_owned(),
            GraphError::NotMovable => "the node cannot leave its graph".to_owned(),
            GraphError::MountPointNotFound => "the place must hold exactly one Workspace".to_owned(),
            GraphError::UniqueIdInUse => "a unique id is already in use in the graph".to_owned(),
        }
    }
}

/// `x` is among the first `i` elements of `list`.
spec fn among(list: Seq<u128>, i: int, x: u128) -> bool {
    exists|j: int| 0 <= j < i && #[trigger] list[j] == x
}

/// One more element.
proof fn lemma_among_next(list: Seq<u128>, i: int, x: u128)
    requires
        0 <= i < list.len(),
    ensures
        among(list, i + 1, x) <==> among(list, i, x) || list[i] == x,
{
    if among(list, i, x) {
        let j = choose|j: int| 0 <= j < i && #[trigger] list[j] == x;
        assert(0 <= j < i + 1 && list[j] == x);
    }
    if list[i] == x {
        assert(0 <= i < i + 1 && list[i] == x);
    }
}

/// The class that the synthetic root of a graph carries.
pub open spec fn root_class() -> Seq<char> {
    "DataModel"@
}

/// An in-memory tree of nodes, each under an identity of its own.
///
/// A node may carry a unique id among its properties. The document keeps a
/// record of the unique ids it holds, which cannot be read. A graph that was
/// made here keeps a copy of that record; a graph that took over a decoded
/// document has none.
pub struct SceneGraph {
    dom: WeakDom,
    ids: Option<HashSet<u128>>,
}

impl View for SceneGraph {
    type V = Nodes;

    closed spec fn view(&self) -> Nodes {
        dom_nodes(self.dom)
    }
}

impl SceneGraph {
    /// The copy of the record, where there is one, is the record.
    #[verifier::type_invariant]
    spec fn record_is_true(self) -> bool {
        self.ids matches Some(s) ==> s@ == dom_unique_ids(self.dom)
    }

    /// The identity of the synthetic root.
    pub closed spec fn root_id(&self) -> u128 {
        dom_root(self.dom)
    }

    /// The unique ids that the graph has on record, if it knows them.
    pub closed spec fn known_ids(&self) -> Option<Set<u128>> {
        match self.ids {
            Some(s) => Some(s@),
            None => None,
        }
    }

    /// The graph is a tree under its root: the root has no parent, every
    /// node below it has one parent, which lists it once, and no node lies
    /// below itself.
    pub open spec fn is_tree(&self) -> bool {
        well_formed(self@, self.root_id())
    }

    /// A graph that holds nothing but its synthetic root.
    pub fn new_empty() -> (g: SceneGraph)
        ensures
            g.root_id() != 0,
            g@ == lone(g.root_id(), root_class(), root_class()),
            g.is_tree(),
            g.known_ids() == Some(Set::<u128>::empty()),
    {
        let id = fresh_identity();
        let g = SceneGraph { dom: dom_new(id, "DataModel"), ids: Some(HashSet::new()) };
        proof {
            lemma_lone_well_formed(id, root_class(), root_class());
        }
        g
    }

    /// A graph that holds nothing but its synthetic root, under the identity
    /// `id`. The null identity is refused.
    pub fn new_empty_as(id: u128) -> (r: Result<SceneGraph, GraphError>)
        ensures
            r is Ok <==> id != 0,
            r matches Ok(g) ==> g.root_id() == id && g@ == lone(id, root_class(), root_class())
                && g.is_tree() && g.known_ids() == Some(Set::<u128>::empty()),
            r matches Err(e) ==> e == GraphError::IdentityInUse,
    {
        if id == 0 {
            return Err(GraphError::IdentityInUse);
        }
        let g = SceneGraph { dom: dom_new(id, "DataModel"), ids: Some(HashSet::new()) };
        proof {
            lemma_lone_well_formed(id, root_class(), root_class());
        }
        Ok(g)
    }

    /// Takes over a decoded document. The unique ids that the document has
    /// on record are not known.
    pub fn from_dom(dom: WeakDom) -> (g: SceneGraph)
        ensures
            g@ == dom_nodes(dom),
            g.root_id() == dom_root(dom),
            g.known_ids() is None,
    {
        SceneGraph { dom, ids: None }
    }

    /// Whether the unique id `u` is on record in this graph; `None` where the
    /// graph does not know its record.
    pub fn has_unique_id(&self, u: u128) -> (r: Option<bool>)
        ensures
            r == match self.known_ids() {
                Some(s) => Some(s.contains(u)),
                None => None::<bool>,
            },
    {
        match &self.ids {
            Some(s) => Some(s.contains(&u)),
            None => None,
        }
    }

    /// The document, for an encoder to read.
    pub fn dom(&self) -> (dom: &WeakDom)
        ensures
            dom_nodes(*dom) == self@,
            dom_root(*dom) == self.root_id(),
    {
        &self.dom
    }

    /// Gives the document up.
    pub fn into_dom(self) -> (dom: WeakDom)
        ensures
            dom_nodes(dom) == self@,
            dom_root(dom) == self.root_id(),
    {
        self.dom
    }

    /// The identity of the synthetic root.
    pub fn root(&self) -> (id: u128)
        ensures
            id == self.root_id(),
    {
        dom_root_id(&self.dom)
    }

    /// Whether `id` names a node of this graph.
    pub fn contains(&self, id: u128) -> (b: bool)
        ensures
            b == self@.contains_key(id),
    {
        dom_get(&self.dom, id).is_some()
    }

    /// The node stored under `id`.
    pub fn get(&self, id: u128) -> (r: Result<Node, GraphError>)
        ensures
            r is Ok <==> self@.contains_key(id),
            r matches Ok(n) ==> n@ == self@[id],
            r matches Err(e) ==> e == GraphError::NotFound,
    {
        match dom_get(&self.dom, id) {
            Some(n) => Ok(n),
            None => Err(GraphError::NotFound),
        }
    }

    /// The children of the node stored under `id`, in order.
    pub fn children_of(&self, id: u128) -> (r: Result<Vec<u128>, GraphError>)
        ensures
            r is Ok <==> self@.contains_key(id),
            r matches Ok(c) ==> c@ == self@[id].children,
            r matches Err(e) ==> e == GraphError::NotFound,
    {
        match dom_get(&self.dom, id) {
            Some(n) => Ok(n.children),
            None => Err(GraphError::NotFound),
        }
    }

    /// Whether `insert_as` accepts `id` as the identity of a new node under
    /// `parent`, and if not, why.
    pub open spec fn insert_refusal(&self, parent: u128, id: u128) -> Option<GraphError> {
        if parent == 0 || !self@.contains_key(parent) {
            Some(GraphError::InvalidParent)
        } else if id == 0 || self@.contains_key(id) {
            Some(GraphError::IdentityInUse)
        } else {
            None
        }
    }

    /// Adds a childless node with the identity `id` as the last child of
    /// `parent`.
    pub fn insert_as(&mut self, parent: u128, id: u128, class: &str, name: &str) -> (r: Result<
        u128,
        GraphError,
    >)
        ensures
            final(self).root_id() == old(self).root_id(),
            final(self).known_ids() == old(self).known_ids(),
            old(self).is_tree() ==> final(self).is_tree(),
            match old(self).insert_refusal(parent, id) {
                Some(e) => r == Err::<u128, GraphError>(e) && final(self)@ == old(self)@,
                None => r == Ok::<u128, GraphError>(id) && final(self)@ == graft(
                    old(self)@,
                    parent,
                    id,
                    class@,
                    name@,
                ),
            },
    {
        if parent == 0 || !self.contains(parent) {
            return Err(GraphError::InvalidParent);
        }
        if id == 0 || self.contains(id) {
            return Err(GraphError::IdentityInUse);
        }
        proof {
            use_type_invariant(&*self);
            if self.is_tree() {
                lemma_graft_well_formed(self@, self.root_id(), parent, id, class@, name@);
            }
        }
        dom_insert(&mut self.dom, parent, id, class, name);
        Ok(id)
    }

    /// Adds a childless node under a newly drawn identity as the last child of
    /// `parent`, and returns that identity. The draw is random: in the
    /// unlikely case that it names a node of this graph, nothing is added.
    pub fn insert(&mut self, parent: u128, class: &str, name: &str) -> (r: Result<
        u128,
        GraphError,
    >)
        ensures
            final(self).root_id() == old(self).root_id(),
            final(self).known_ids() == old(self).known_ids(),
            old(self).is_tree() ==> final(self).is_tree(),
            r == Err::<u128, GraphError>(GraphError::InvalidParent) <==> (parent == 0
                || !old(self)@.contains_key(parent)),
            match r {
                Ok(id) => old(self).insert_refusal(parent, id) is None && final(self)@ == graft(
                    old(self)@,
                    parent,
                    id,
                    class@,
                    name@,
                ),
                Err(e) => final(self)@ == old(self)@ && (e == GraphError::InvalidParent || e
                    == GraphError::IdentityInUse),
            },
    {
        let id = fresh_identity();
        self.insert_as(parent, id, class, name)
    }

    /// Moves the subtree at `node` into `target`, as the last child of
    /// `parent`. `ids` lists the unique ids that the subtree carries.
    pub(crate) fn move_subtree(
        &mut self,
        node: u128,
        target: &mut SceneGraph,
        parent: u128,
        ids: &Vec<u128>,
    )
        requires
            old(self)@.contains_key(node),
            node != old(self).root_id(),
            movable(old(self)@, node),
            old(target)@.contains_key(parent),
            clear_of(old(self)@, node, old(target)@),
            ids_apart(old(self)@, node),
            forall|u: u128| #[trigger]
                carries(old(self)@, node, u) ==> !on_record(old(target).known_ids(), u),
            forall|u: u128| ids@.contains(u) <==> #[trigger] carries(old(self)@, node, u),
        ensures
            final(self)@ == detach(old(self)@, node),
            final(self).root_id() == old(self).root_id(),
            final(self).known_ids() == record_less(
                old(self).known_ids(),
                ids_below(old(self)@, node),
            ),
            final(target)@ == attach(old(target)@, old(self)@, node, parent),
            final(target).root_id() == old(target).root_id(),
            final(target).known_ids() == record_more(
                old(target).known_ids(),
                ids_below(old(self)@, node),
            ),
            old(self).is_tree() ==> final(self).is_tree(),
            old(target).is_tree() ==> final(target).is_tree(),
    {
        proof {
            use_type_invariant(&*self);
            use_type_invariant(&*target);
            if self.is_tree() {
                lemma_detach_well_formed(self@, self.root_id(), node);
            }
            if target.is_tree() {
                lemma_attach_well_formed(target@, target.root_id(), self@, node, parent);
            }
        }
        let ghost moved = ids_below(self@, node);
        let mut gone: Option<HashSet<u128>> = None;
        std::mem::swap(&mut gone, &mut self.ids);
        let mut come: Option<HashSet<u128>> = None;
        std::mem::swap(&mut come, &mut target.ids);
        dom_transfer(&mut self.dom, node, &mut target.dom, parent);
        match gone {
            Some(mut record) => {
                let ghost before = record@;
                let mut i: usize = 0;
                while i < ids.len()
                    invariant
                        i <= ids.len(),
                        forall|x: u128| #[trigger]
                            record@.contains(x) <==> before.contains(x) && !among(
                                ids@,
                                i as int,
                                x,
                            ),
                    decreases ids.len() - i,
                {
                    let u = ids[i];
                    let ghost was = record@;
                    record.remove(&u);
                    proof {
                        assert(record@ == was.remove(u));
                        assert forall|x: u128| #[trigger]
                            record@.contains(x) <==> before.contains(x) && !among(
                                ids@,
                                i + 1,
                                x,
                            ) by {
                            lemma_among_next(ids@, i as int, x);
                            assert(was.contains(x) <==> before.contains(x) && !among(
                                ids@,
                                i as int,
                                x,
                            ));
                        }
                    }
                    i += 1;
                }
                proof {
                    assert(record@ =~= before.difference(moved)) by {
                        assert forall|x: u128| ids@.contains(x) <==> among(
                            ids@,
                            ids.len() as int,
                            x,
                        ) by {}
                    }
                }
                self.ids = Some(record);
            },
            None => {},
        }
        match come {
            Some(mut record) => {
                let ghost before = record@;
                let mut i: usize = 0;
                while i < ids.len()
                    invariant
                        i <= ids.len(),
                        forall|x: u128| #[trigger]
                            record@.contains(x) <==> before.contains(x) || among(
                                ids@,
                                i as int,
                                x,
                            ),
                    decreases ids.len() - i,
                {
                    let u = ids[i];
                    let ghost was = record@;
                    record.insert(u);
                    proof {
                        assert(record@ == was.insert(u));
                        assert forall|x: u128| #[trigger]
                            record@.contains(x) <==> before.contains(x) || among(
                                ids@,
                                i + 1,
                                x,
                            ) by {
                            lemma_among_next(ids@, i as int, x);
                            assert(was.contains(x) <==> before.contains(x) || among(
                                ids@,
                                i as int,
                                x,
                            ));
                        }
                    }
                    i += 1;
                }
                proof {
                    assert(record@ =~= before.union(moved)) by {
                        assert forall|x: u128| ids@.contains(x) <==> among(
                            ids@,
                            ids.len() as int,
                            x,
                        ) by {}
                    }
                }
                target.ids = Some(record);
            },
            None => {},
        }
    }
}

} // verus!
