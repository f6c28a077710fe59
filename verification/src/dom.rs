//! The trusted layer over `rbx_dom_weak::WeakDom`.
//!
//! A document is modelled as a map from identities to node records, the
//! identity of its root, and the set of unique ids that the document has on
//! record. An identity is the 128-bit value of a referent; zero is the null
//! referent. A unique id is the 128-bit value that its 32 hexadecimal digits
//! spell. Nothing in this file is proved: each function below states what the
//! named `rbx_dom_weak` call does to that model.

use crate::tree::attach;
use crate::tree::clear_of;
use crate::tree::detach;
use crate::tree::carries;
use crate::tree::graft;
use crate::tree::ids_apart;
use crate::tree::ids_below;
use crate::tree::lone;
use crate::tree::movable;
use rbx_dom_weak::InstanceBuilder;
use rbx_dom_weak::types::Ref;
use rbx_dom_weak::WeakDom;
use std::str::FromStr;
use vstd::prelude::*;

verus! {

#[verifier::external_type_specification]
#[verifier::external_body]
pub struct ExWeakDom(rbx_dom_weak::WeakDom);

/// What the model keeps of one instance: its class, its name, the identity
/// of its parent (zero for none), the identities of its children in order,
/// and the unique id among its properties, if it has one.
pub ghost struct NodeRecord {
    pub class: Seq<char>,
    pub name: Seq<char>,
    pub parent: u128,
    pub children: Seq<u128>,
    pub unique_id: Option<u128>,
}

/// One instance as read out of a document.
#[derive(Debug, PartialEq, Eq)]
pub struct Node {
    pub class: String,
    pub name: String,
    pub parent: u128,
    pub children: Vec<u128>,
    pub unique_id: Option<u128>,
}

impl View for Node {
    type V = NodeRecord;

    open spec fn view(&self) -> NodeRecord {
        NodeRecord {
            class: self.class@,
            name: self.name@,
            parent: self.parent,
            children: self.children@,
            unique_id: self.unique_id,
        }
    }
}

/// The instances of a document, by identity.
pub uninterp spec fn dom_nodes(dom: WeakDom) -> Map<u128, NodeRecord>;

/// The identity of a document's root instance.
pub uninterp spec fn dom_root(dom: WeakDom) -> u128;

/// The unique ids that a document has on record, in a set of its own that
/// cannot be read: those that came in with its instances and have not left
/// with them.
pub uninterp spec fn dom_unique_ids(dom: WeakDom) -> Set<u128>;

/// `WeakDom::root_ref`: the identity of the root instance.
#[verifier::external_body]
pub(crate) fn dom_root_id(dom: &WeakDom) -> (id: u128)
    ensures
        id == dom_root(*dom),
{
    u128::from_str_radix(&dom.root_ref().to_string(), 16).unwrap()
}

/// `WeakDom::get_by_ref`: the instance stored under `id`, if there is one, with
/// its class, name, parent and children copied out, and with the unique id
/// that `WeakDom::get_unique_id` reads from its properties, if it carries one.
#[verifier::external_body]
pub(crate) fn dom_get(dom: &WeakDom, id: u128) -> (found: Option<Node>)
    ensures
        found is Some <==> dom_nodes(*dom).contains_key(id),
        found is Some ==> found->0@ == dom_nodes(*dom)[id],
{
    let at = Ref::from_str(&format!("{:032x}", id)).unwrap();
    dom.get_by_ref(at).map(
        |inst| Node {
            class: inst.class.clone(),
            name: inst.name.clone(),
            parent: u128::from_str_radix(&inst.parent().to_string(), 16).unwrap(),
            children: inst.children().iter().map(
                |c| u128::from_str_radix(&c.to_string(), 16).unwrap(),
            ).collect(),
            unique_id: dom.get_unique_id(at).map(
                |u| u128::from_str_radix(&u.to_string(), 16).unwrap(),
            ),
        },
    )
}

/// `Ref::new`: a referent drawn at random. It is never the null referent.
#[verifier::external_body]
pub(crate) fn fresh_identity() -> (id: u128)
    ensures
        id != 0,
{
    u128::from_str_radix(&Ref::new().to_string(), 16).unwrap()
}

/// `WeakDom::new` on a childless builder that carries the identity `id`: a
/// document whose only instance is its root, stored under `id`, without a
/// parent, with `class` as both class and name. The builder has no
/// properties, so the document has no unique id on record.
#[verifier::external_body]
pub(crate) fn dom_new(id: u128, class: &str) -> (dom: WeakDom)
    requires
        id != 0,
    ensures
        dom_root(dom) == id,
        dom_nodes(dom) == lone(id, class@, class@),
        dom_unique_ids(dom) == Set::<u128>::empty(),
{
    WeakDom::new(
        InstanceBuilder::new(class).with_referent(Ref::from_str(&format!("{:032x}", id)).unwrap()),
    )
}

/// `WeakDom::insert` of a childless builder that carries the identity `id`:
/// the new instance is stored under `id` and becomes the last child of
/// `parent`. The call panics where `parent` is no instance, and would replace
/// an instance already stored under `id`; both are excluded here, so the call
/// does not unwind. The builder has no properties, so the unique ids on
/// record stay as they are.
#[verifier::external_body]
pub(crate) fn dom_insert(dom: &mut WeakDom, parent: u128, id: u128, class: &str, name: &str)
    requires
        parent != 0,
        id != 0,
        dom_nodes(*old(dom)).contains_key(parent),
        !dom_nodes(*old(dom)).contains_key(id),
    ensures
        dom_nodes(*final(dom)) == graft(dom_nodes(*old(dom)), parent, id, class@, name@),
        dom_root(*final(dom)) == dom_root(*old(dom)),
        dom_unique_ids(*final(dom)) == dom_unique_ids(*old(dom)),
    no_unwind
{
    dom.insert(
        Ref::from_str(&format!("{:032x}", parent)).unwrap(),
        InstanceBuilder::new(class).with_name(name).with_referent(
            Ref::from_str(&format!("{:032x}", id)).unwrap(),
        ),
    );
}

/// `WeakDom::transfer`: the instance `id` and everything that a breadth-first
/// walk over child lists finds below it leave `source` and are stored in
/// `dest` under their old identities, `id` as the last child of `dest_parent`.
/// Each unique id that a moved instance carries leaves the record of `source`
/// and enters that of `dest`.
///
/// The call panics where `id` is the root or no instance, where the walk comes
/// to an identity that is no instance or that it has come to before, where the
/// parent that `id` names is missing, and where `dest_parent` is no instance;
/// it replaces instances of `dest` that share an identity with the subtree.
/// Where an instance arrives with a unique id that `dest` has on record, from
/// before or from an instance that arrived earlier in the same call, the call
/// draws a new id from the system clock and panics if the clock is out of
/// range. The `requires` leaves all of these out, so the call does not unwind.
/// It also leaves out a subtree that holds an instance under the null referent
/// or a child that does not name its parent, which the call would take.
/// Properties other than the unique id travel with their instances and are
/// not part of the model.
#[verifier::external_body]
pub(crate) fn dom_transfer(source: &mut WeakDom, id: u128, dest: &mut WeakDom, dest_parent: u128)
    requires
        dom_nodes(*old(source)).contains_key(id),
        id != dom_root(*old(source)),
        movable(dom_nodes(*old(source)), id),
        dom_nodes(*old(dest)).contains_key(dest_parent),
        clear_of(dom_nodes(*old(source)), id, dom_nodes(*old(dest))),
        ids_apart(dom_nodes(*old(source)), id),
        forall|u: u128| #[trigger]
            carries(dom_nodes(*old(source)), id, u) ==> !dom_unique_ids(*old(dest)).contains(u),
    ensures
        dom_nodes(*final(source)) == detach(dom_nodes(*old(source)), id),
        dom_root(*final(source)) == dom_root(*old(source)),
        dom_unique_ids(*final(source)) == dom_unique_ids(*old(source)).difference(
            ids_below(dom_nodes(*old(source)), id),
        ),
        dom_nodes(*final(dest)) == attach(
            dom_nodes(*old(dest)),
            dom_nodes(*old(source)),
            id,
            dest_parent,
        ),
        dom_root(*final(dest)) == dom_root(*old(dest)),
        dom_unique_ids(*final(dest)) == dom_unique_ids(*old(dest)).union(
            ids_below(dom_nodes(*old(source)), id),
        ),
    no_unwind
{
    source.transfer(
        Ref::from_str(&format!("{:032x}", id)).unwrap(),
        dest,
        Ref::from_str(&format!("{:032x}", dest_parent)).unwrap(),
    );
}

} // verus!
