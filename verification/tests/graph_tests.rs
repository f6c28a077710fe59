use edit_roblox_model::graph::GraphError;
use edit_roblox_model::graph::SceneGraph;
use rbx_dom_weak::types::UniqueId;
use rbx_dom_weak::InstanceBuilder;
use rbx_dom_weak::WeakDom;

#[test]
fn new_graph_holds_only_its_root() {
    let g = SceneGraph::new_empty();
    let root = g.root();
    assert_ne!(root, 0);
    assert!(g.contains(root));
    let node = g.get(root).unwrap();
    assert_eq!(node.class, "DataModel");
    assert_eq!(node.name, "DataModel");
    assert_eq!(node.parent, 0);
    assert!(node.children.is_empty());
    assert_eq!(node.unique_id, None);
    assert_eq!(g.children_of(root), Ok(vec![]));
    assert_eq!(g.has_unique_id(7), Some(false));
}

#[test]
fn root_is_the_root_of_the_document() {
    let dom = WeakDom::new(InstanceBuilder::new("Folder").with_name("Top"));
    let g = SceneGraph::from_dom(dom);
    let node = g.get(g.root()).unwrap();
    assert_eq!(node.class, "Folder");
    assert_eq!(node.name, "Top");
}

#[test]
fn two_graphs_have_roots_of_their_own() {
    let a = SceneGraph::new_empty();
    let b = SceneGraph::new_empty();
    assert_ne!(a.root(), b.root());
    assert!(!a.contains(b.root()));
}

#[test]
fn insert_adds_a_last_child() {
    let mut g = SceneGraph::new_empty();
    let root = g.root();
    let a = g.insert(root, "Part", "A").unwrap();
    let b = g.insert(root, "Model", "B").unwrap();
    let c = g.insert(b, "Part", "C").unwrap();
    assert_ne!(a, 0);
    assert_ne!(a, b);
    assert_eq!(g.root(), root);
    assert_eq!(g.children_of(root), Ok(vec![a, b]));
    assert_eq!(g.children_of(a), Ok(vec![]));
    assert_eq!(g.children_of(b), Ok(vec![c]));
    let node = g.get(c).unwrap();
    assert_eq!(node.class, "Part");
    assert_eq!(node.name, "C");
    assert_eq!(node.parent, b);
    assert!(node.children.is_empty());
    assert_eq!(g.get(b).unwrap().parent, root);
}

#[test]
fn insert_under_a_missing_parent_is_refused() {
    let mut g = SceneGraph::new_empty();
    let root = g.root();
    let stranger = root.wrapping_add(1);
    assert_eq!(g.insert(stranger, "Part", "A"), Err(GraphError::InvalidParent));
    assert_eq!(g.insert(0, "Part", "A"), Err(GraphError::InvalidParent));
    assert_eq!(g.children_of(root), Ok(vec![]));
    assert!(!g.contains(stranger));
}

#[test]
fn insert_as_takes_the_given_identity() {
    let mut g = SceneGraph::new_empty();
    let root = g.root();
    let id = root ^ 1;
    assert_eq!(g.insert_as(root, id, "Part", "A"), Ok(id));
    assert!(g.contains(id));
    assert_eq!(g.children_of(root), Ok(vec![id]));
    assert_eq!(g.dom().root().children().len(), 1);
}

#[test]
fn insert_as_refuses_an_identity_in_use() {
    let mut g = SceneGraph::new_empty();
    let root = g.root();
    let a = g.insert(root, "Part", "A").unwrap();
    assert_eq!(g.insert_as(root, a, "Part", "B"), Err(GraphError::IdentityInUse));
    assert_eq!(g.insert_as(root, root, "Part", "B"), Err(GraphError::IdentityInUse));
    assert_eq!(g.insert_as(root, 0, "Part", "B"), Err(GraphError::IdentityInUse));
    assert_eq!(g.insert_as(a ^ root ^ 7, a, "Part", "B"), Err(GraphError::InvalidParent));
    assert_eq!(g.children_of(root), Ok(vec![a]));
    assert_eq!(g.get(a).unwrap().name, "A");
}

#[test]
fn get_of_a_missing_node_is_not_found() {
    let g = SceneGraph::new_empty();
    let stranger = g.root().wrapping_add(1);
    assert_eq!(g.get(stranger), Err(GraphError::NotFound));
    assert_eq!(g.get(0), Err(GraphError::NotFound));
    assert_eq!(g.children_of(stranger), Err(GraphError::NotFound));
    assert!(!g.contains(stranger));
}

#[test]
fn a_decoded_document_reads_as_it_was_built() {
    let dom = WeakDom::new(
        InstanceBuilder::new("DataModel")
            .with_child(InstanceBuilder::new("Model").with_name("Car").with_child(
                InstanceBuilder::new("Part").with_name("Wheel"),
            ))
            .with_child(InstanceBuilder::new("Script")),
    );
    let g = SceneGraph::from_dom(dom);
    let top = g.children_of(g.root()).unwrap();
    assert_eq!(top.len(), 2);
    let car = g.get(top[0]).unwrap();
    assert_eq!((car.class.as_str(), car.name.as_str()), ("Model", "Car"));
    assert_eq!(car.parent, g.root());
    assert_eq!(car.children.len(), 1);
    let wheel = g.get(car.children[0]).unwrap();
    assert_eq!((wheel.class.as_str(), wheel.name.as_str()), ("Part", "Wheel"));
    assert_eq!(wheel.parent, top[0]);
    let script = g.get(top[1]).unwrap();
    assert_eq!((script.class.as_str(), script.name.as_str()), ("Script", "Script"));
    let dom = g.into_dom();
    assert_eq!(dom.root().children().len(), 2);
}

#[test]
fn every_error_has_a_text_of_its_own() {
    let all = [
        GraphError::NotFound,
        GraphError::InvalidParent,
        GraphError::IdentityInUse,
        GraphError::NotMovable,
        GraphError::MountPointNotFound,
        GraphError::UniqueIdInUse,
    ];
    for (i, a) in all.iter().enumerate() {
        assert!(!a.message().is_empty());
        for b in &all[i + 1..] {
            assert_ne!(a.message(), b.message());
        }
    }
    assert_eq!(
        GraphError::MountPointNotFound.message(),
        "the place must hold exactly one Workspace"
    );
}

#[test]
fn new_empty_as_takes_the_given_identity() {
    let g = SceneGraph::new_empty_as(5).unwrap();
    assert_eq!(g.root(), 5);
    assert!(g.contains(5));
    let root = g.get(5).unwrap();
    assert_eq!(root.class, "DataModel");
    assert_eq!(root.name, "DataModel");
    assert_eq!(root.parent, 0);
    let big = SceneGraph::new_empty_as(u128::MAX).unwrap();
    assert_eq!(big.root(), u128::MAX);
    assert!(matches!(SceneGraph::new_empty_as(0), Err(GraphError::IdentityInUse)));
}

#[test]
fn graphs_made_here_are_trees() {
    let mut g = SceneGraph::new_empty();
    assert!(g.check_tree());
    let a = g.insert(g.root(), "Model", "A").unwrap();
    g.insert(a, "Part", "B").unwrap();
    assert!(g.check_tree());
}

#[test]
fn a_decoded_document_is_checked_by_walking_it() {
    let dom = WeakDom::new(
        InstanceBuilder::new("DataModel")
            .with_child(InstanceBuilder::new("Model").with_child(InstanceBuilder::new("Part")))
            .with_child(InstanceBuilder::new("Script")),
    );
    assert!(SceneGraph::from_dom(dom).check_tree());
}

#[test]
fn a_child_listed_twice_makes_no_tree() {
    let mut dom = WeakDom::new(InstanceBuilder::new("DataModel"));
    let a = dom.insert(dom.root_ref(), InstanceBuilder::new("Part"));
    dom.insert(dom.root_ref(), InstanceBuilder::new("Part").with_referent(a));
    let g = SceneGraph::from_dom(dom);
    assert_eq!(g.children_of(g.root()).unwrap().len(), 2);
    assert!(!g.check_tree());
}

#[test]
fn a_child_under_two_parents_makes_no_tree() {
    let mut dom = WeakDom::new(InstanceBuilder::new("DataModel"));
    let a = dom.insert(dom.root_ref(), InstanceBuilder::new("Folder"));
    let b = dom.insert(dom.root_ref(), InstanceBuilder::new("Folder"));
    let c = dom.insert(a, InstanceBuilder::new("Part"));
    dom.insert(b, InstanceBuilder::new("Part").with_referent(c));
    assert!(!SceneGraph::from_dom(dom).check_tree());
}

#[test]
fn a_document_without_a_root_is_no_tree() {
    let g = SceneGraph::from_dom(WeakDom::default());
    assert_eq!(g.root(), 0);
    assert!(!g.contains(0));
    assert!(!g.check_tree());
}

#[test]
fn what_is_out_of_reach_of_the_root_is_left_alone() {
    let mut dom = WeakDom::new(InstanceBuilder::new("DataModel"));
    dom.insert(dom.root_ref(), InstanceBuilder::new("Part"));
    let a = dom.insert(rbx_dom_weak::types::Ref::none(), InstanceBuilder::new("Folder"));
    let b = dom.insert(a, InstanceBuilder::new("Folder"));
    dom.transfer_within(a, b);
    assert!(SceneGraph::from_dom(dom).check_tree());
}

#[test]
fn a_unique_id_reads_as_the_number_its_digits_spell() {
    let dom = WeakDom::new(
        InstanceBuilder::new("DataModel")
            .with_child(
                InstanceBuilder::new("Part")
                    .with_property("UniqueId", UniqueId::new(1, 2, 3)),
            )
            .with_child(
                InstanceBuilder::new("Part")
                    .with_property("UniqueId", UniqueId::new(u32::MAX, 0, -1)),
            )
            .with_child(InstanceBuilder::new("Part").with_property("UniqueId", true))
            .with_child(InstanceBuilder::new("Part")),
    );
    let g = SceneGraph::from_dom(dom);
    let kids = g.children_of(g.root()).unwrap();
    assert_eq!(g.get(kids[0]).unwrap().unique_id, Some((3u128 << 64) | (2u128 << 32) | 1));
    assert_eq!(
        g.get(kids[1]).unwrap().unique_id,
        Some((u128::from(u64::MAX) << 64) | u128::from(u32::MAX))
    );
    assert_eq!(g.get(kids[2]).unwrap().unique_id, None);
    assert_eq!(g.get(kids[3]).unwrap().unique_id, None);
    assert_eq!(g.has_unique_id(1), None);
}
