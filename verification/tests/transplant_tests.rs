use edit_roblox_model::graph::GraphError;
use edit_roblox_model::graph::SceneGraph;
use edit_roblox_model::transplant::transplant;
use edit_roblox_model::transplant::transplant_all;
use rbx_dom_weak::types::Ref;
use rbx_dom_weak::types::UniqueId;
use rbx_dom_weak::types::Variant;
use rbx_dom_weak::InstanceBuilder;
use rbx_dom_weak::WeakDom;

fn shape(g: &SceneGraph, id: u128) -> String {
    let node = g.get(id).unwrap();
    let mut out = format!("{}:{}(", node.class, node.name);
    for child in node.children {
        assert_eq!(g.get(child).unwrap().parent, id);
        out.push_str(&shape(g, child));
    }
    out.push(')');
    out
}

fn car() -> (SceneGraph, u128, u128, u128, u128) {
    let mut g = SceneGraph::new_empty();
    let root = g.root();
    let lamp = g.insert(root, "Part", "Lamp").unwrap();
    let car = g.insert(root, "Model", "Car").unwrap();
    let axle = g.insert(car, "Part", "Axle").unwrap();
    let wheel = g.insert(axle, "Part", "Wheel").unwrap();
    g.insert(car, "Script", "Horn").unwrap();
    (g, lamp, car, axle, wheel)
}

#[test]
fn transplant_moves_the_whole_subtree() {
    let (mut source, lamp, car, axle, wheel) = car();
    let mut target = SceneGraph::new_empty();
    let shelf = target.insert(target.root(), "Folder", "Shelf").unwrap();
    let old = target.insert(shelf, "Part", "Old").unwrap();
    let before = shape(&source, car);
    assert_eq!(before, "Model:Car(Part:Axle(Part:Wheel())Script:Horn())");

    assert_eq!(transplant(&mut source, car, &mut target, shelf), Ok(()));

    assert_eq!(shape(&target, car), before);
    assert_eq!(target.children_of(shelf), Ok(vec![old, car]));
    assert_eq!(target.get(car).unwrap().parent, shelf);
    assert_eq!(target.get(wheel).unwrap().parent, axle);
    assert!(!source.contains(car));
    assert!(!source.contains(axle));
    assert!(!source.contains(wheel));
    assert_eq!(source.children_of(source.root()), Ok(vec![lamp]));
    assert_eq!(shape(&source, source.root()), "DataModel:DataModel(Part:Lamp())");
}

#[test]
fn transplant_of_an_inner_node_leaves_the_rest() {
    let (mut source, lamp, car, axle, wheel) = car();
    let mut target = SceneGraph::new_empty();
    let to = target.root();
    assert_eq!(transplant(&mut source, axle, &mut target, to), Ok(()));
    assert_eq!(shape(&target, to), "DataModel:DataModel(Part:Axle(Part:Wheel()))");
    assert_eq!(
        shape(&source, source.root()),
        "DataModel:DataModel(Part:Lamp()Model:Car(Script:Horn()))"
    );
    assert!(source.contains(lamp) && source.contains(car));
    assert!(target.contains(wheel));
}

#[test]
fn failed_transplant_changes_neither_graph() {
    let (mut source, _lamp, car, axle, wheel) = car();
    let mut target = SceneGraph::new_empty();
    target.insert(target.root(), "Folder", "Shelf").unwrap();
    let source_before = shape(&source, source.root());
    let target_before = shape(&target, target.root());
    let stranger = target.root().wrapping_add(1);

    assert_eq!(
        transplant(&mut source, car, &mut target, stranger),
        Err(GraphError::InvalidParent)
    );

    assert_eq!(shape(&source, source.root()), source_before);
    assert_eq!(shape(&target, target.root()), target_before);
    assert!(source.contains(car) && source.contains(axle) && source.contains(wheel));
    assert!(!target.contains(car) && !target.contains(axle) && !target.contains(wheel));
    assert_eq!(source.get(car).unwrap().parent, source.root());
}

#[test]
fn transplant_of_a_missing_node_is_not_found() {
    let (mut source, ..) = car();
    let mut target = SceneGraph::new_empty();
    let to = target.root();
    let stranger = source.root().wrapping_add(1);
    let before = shape(&source, source.root());
    assert_eq!(transplant(&mut source, stranger, &mut target, to), Err(GraphError::NotFound));
    assert_eq!(
        transplant(&mut source, stranger, &mut target, to.wrapping_add(1)),
        Err(GraphError::NotFound)
    );
    assert_eq!(shape(&source, source.root()), before);
    assert_eq!(target.children_of(to), Ok(vec![]));
}

#[test]
fn the_root_does_not_move() {
    let (mut source, ..) = car();
    let mut target = SceneGraph::new_empty();
    let to = target.root();
    let root = source.root();
    let before = shape(&source, root);
    assert_eq!(transplant(&mut source, root, &mut target, to), Err(GraphError::NotMovable));
    assert_eq!(shape(&source, root), before);
    assert_eq!(target.children_of(to), Ok(vec![]));
}

#[test]
fn an_identity_in_use_in_the_target_stops_the_move() {
    let shared = Ref::new();
    let source_dom = WeakDom::new(InstanceBuilder::new("DataModel").with_child(
        InstanceBuilder::new("Model").with_name("Car").with_child(
            InstanceBuilder::new("Part").with_name("Wheel").with_referent(shared),
        ),
    ));
    let target_dom = WeakDom::new(
        InstanceBuilder::new("DataModel")
            .with_child(InstanceBuilder::new("Part").with_name("Mine").with_referent(shared)),
    );
    let mut source = SceneGraph::from_dom(source_dom);
    let mut target = SceneGraph::from_dom(target_dom);
    let car = source.children_of(source.root()).unwrap()[0];
    let to = target.root();
    let source_before = shape(&source, source.root());

    assert_eq!(transplant(&mut source, car, &mut target, to), Err(GraphError::IdentityInUse));

    assert_eq!(shape(&source, source.root()), source_before);
    assert_eq!(shape(&target, to), "DataModel:DataModel(Part:Mine())");
}

#[test]
fn a_subtree_that_loops_does_not_move() {
    let mut dom = WeakDom::new(InstanceBuilder::new("DataModel"));
    let a = dom.insert(dom.root_ref(), InstanceBuilder::new("Folder").with_name("A"));
    let b = dom.insert(a, InstanceBuilder::new("Folder").with_name("B"));
    dom.transfer_within(a, b);
    let mut source = SceneGraph::from_dom(dom);
    let mut target = SceneGraph::new_empty();
    let to = target.root();
    let top = u128::from_str_radix(&a.to_string(), 16).unwrap();
    assert!(source.contains(top));
    assert_eq!(transplant(&mut source, top, &mut target, to), Err(GraphError::NotMovable));
    assert!(source.contains(top));
    assert_eq!(target.children_of(to), Ok(vec![]));
}

#[test]
fn properties_travel_with_their_nodes() {
    let dom = WeakDom::new(InstanceBuilder::new("DataModel").with_child(
        InstanceBuilder::new("Part").with_name("Lamp").with_property("Anchored", true),
    ));
    let mut source = SceneGraph::from_dom(dom);
    let lamp = source.children_of(source.root()).unwrap()[0];
    let mut target = SceneGraph::new_empty();
    let to = target.root();
    assert_eq!(transplant(&mut source, lamp, &mut target, to), Ok(()));
    let dom = target.into_dom();
    let moved = dom.get_by_ref(dom.root().children()[0]).unwrap();
    assert_eq!(moved.name, "Lamp");
    assert_eq!(moved.properties.get("Anchored"), Some(&Variant::Bool(true)));
}

#[test]
fn transplant_all_moves_in_order() {
    let (mut source, lamp, car, axle, _wheel) = car();
    let mut target = SceneGraph::new_empty();
    let to = target.root();
    assert_eq!(transplant_all(&mut source, &vec![car, lamp], &mut target, to), Ok(()));
    assert_eq!(target.children_of(to), Ok(vec![car, lamp]));
    assert_eq!(source.children_of(source.root()), Ok(vec![]));
    assert!(target.contains(axle));
    assert_eq!(transplant_all(&mut source, &vec![], &mut target, to), Ok(()));
    assert_eq!(target.children_of(to), Ok(vec![car, lamp]));
}

#[test]
fn transplant_all_stops_at_the_first_refusal() {
    let (mut source, lamp, car, axle, _wheel) = car();
    let mut target = SceneGraph::new_empty();
    let to = target.root();
    assert_eq!(
        transplant_all(&mut source, &vec![car, axle, lamp], &mut target, to),
        Err(GraphError::NotFound)
    );
    assert_eq!(target.children_of(to), Ok(vec![car]));
    assert_eq!(source.children_of(source.root()), Ok(vec![lamp]));
}

#[test]
fn transplant_keeps_trees_trees() {
    let (mut source, _lamp, car, ..) = car();
    let mut target = SceneGraph::new_empty();
    let to = target.root();
    assert_eq!(transplant(&mut source, car, &mut target, to), Ok(()));
    assert!(source.check_tree());
    assert!(target.check_tree());
}

#[test]
fn a_node_under_the_null_identity_does_not_move() {
    let mut dom = WeakDom::new(InstanceBuilder::new("DataModel"));
    dom.insert(dom.root_ref(), InstanceBuilder::new("Part").with_referent(Ref::none()));
    let mut source = SceneGraph::from_dom(dom);
    assert!(source.contains(0));
    assert!(!source.check_tree());
    let mut target = SceneGraph::new_empty();
    let to = target.root();
    assert_eq!(transplant(&mut source, 0, &mut target, to), Err(GraphError::NotMovable));
    assert!(source.contains(0));
    assert_eq!(target.children_of(to), Ok(vec![]));
}

fn with_id(name: &str, index: u32) -> InstanceBuilder {
    InstanceBuilder::new("Part").with_name(name).with_property("UniqueId", UniqueId::new(index, 9, 9))
}

fn id_of(index: u32) -> u128 {
    (9u128 << 64) | (9u128 << 32) | u128::from(index)
}

fn decoded(children: Vec<InstanceBuilder>) -> SceneGraph {
    SceneGraph::from_dom(WeakDom::new(InstanceBuilder::new("DataModel").with_children(children)))
}

#[test]
fn unique_ids_travel_and_are_put_on_record() {
    let mut source = decoded(vec![with_id("A", 1).with_child(with_id("B", 2))]);
    let a = source.children_of(source.root()).unwrap()[0];
    let mut target = SceneGraph::new_empty();
    let to = target.root();
    assert_eq!(target.has_unique_id(id_of(1)), Some(false));
    assert_eq!(transplant(&mut source, a, &mut target, to), Ok(()));
    assert_eq!(target.get(a).unwrap().unique_id, Some(id_of(1)));
    assert_eq!(target.has_unique_id(id_of(1)), Some(true));
    assert_eq!(target.has_unique_id(id_of(2)), Some(true));
    assert_eq!(target.has_unique_id(id_of(3)), Some(false));
    assert_eq!(source.has_unique_id(id_of(1)), None);
    let dom = target.into_dom();
    let moved = dom.get_by_ref(dom.root().children()[0]).unwrap();
    assert_eq!(dom.get_unique_id(moved.referent()), Some(UniqueId::new(1, 9, 9)));
}

#[test]
fn a_decoded_target_takes_no_node_with_a_unique_id() {
    let mut source = decoded(vec![with_id("A", 1), InstanceBuilder::new("Part").with_name("Plain")]);
    let mut target = decoded(vec![with_id("A", 1)]);
    let kids = source.children_of(source.root()).unwrap();
    let to = target.root();
    let source_before = shape(&source, source.root());
    let target_before = shape(&target, to);
    assert_eq!(transplant(&mut source, kids[0], &mut target, to), Err(GraphError::UniqueIdInUse));
    assert_eq!(shape(&source, source.root()), source_before);
    assert_eq!(shape(&target, to), target_before);
    assert_eq!(source.get(kids[0]).unwrap().unique_id, Some(id_of(1)));
    assert_eq!(transplant(&mut source, kids[1], &mut target, to), Ok(()));
    assert_eq!(shape(&target, to), "DataModel:DataModel(Part:A()Part:Plain())");
}

#[test]
fn a_unique_id_on_record_stops_the_move() {
    let mut first = decoded(vec![with_id("A", 1)]);
    let mut second = decoded(vec![
        InstanceBuilder::new("Model").with_name("M").with_child(with_id("A2", 1)),
        with_id("C", 3),
    ]);
    let a = first.children_of(first.root()).unwrap()[0];
    let kids = second.children_of(second.root()).unwrap();
    let mut target = SceneGraph::new_empty();
    let to = target.root();
    assert_eq!(transplant(&mut first, a, &mut target, to), Ok(()));
    let second_before = shape(&second, second.root());
    assert_eq!(transplant(&mut second, kids[0], &mut target, to), Err(GraphError::UniqueIdInUse));
    assert_eq!(shape(&second, second.root()), second_before);
    assert_eq!(target.children_of(to), Ok(vec![a]));
    assert_eq!(transplant(&mut second, kids[1], &mut target, to), Ok(()));
    assert_eq!(target.children_of(to), Ok(vec![a, kids[1]]));
    assert_eq!(target.has_unique_id(id_of(3)), Some(true));
    let dom = target.into_dom();
    assert_eq!(dom.get_unique_id(dom.root().children()[0]), Some(UniqueId::new(1, 9, 9)));
    assert_eq!(dom.get_unique_id(dom.root().children()[1]), Some(UniqueId::new(3, 9, 9)));
}

#[test]
fn a_unique_id_that_comes_twice_stops_the_move() {
    let mut dom = WeakDom::new(InstanceBuilder::new("DataModel"));
    let m = dom.insert(dom.root_ref(), InstanceBuilder::new("Model"));
    dom.insert(m, with_id("A", 1));
    let b = dom.insert(m, InstanceBuilder::new("Part").with_name("B"));
    dom.get_by_ref_mut(b)
        .unwrap()
        .properties
        .insert("UniqueId".to_string(), Variant::UniqueId(UniqueId::new(1, 9, 9)));
    let mut source = SceneGraph::from_dom(dom);
    let model = source.children_of(source.root()).unwrap()[0];
    let mut target = SceneGraph::new_empty();
    let to = target.root();
    let before = shape(&source, source.root());
    assert_eq!(transplant(&mut source, model, &mut target, to), Err(GraphError::UniqueIdInUse));
    assert_eq!(shape(&source, source.root()), before);
    assert_eq!(target.children_of(to), Ok(vec![]));
    assert_eq!(target.has_unique_id(id_of(1)), Some(false));
}

#[test]
fn a_unique_id_that_left_is_off_the_record() {
    let mut source = decoded(vec![with_id("A", 1)]);
    let mut again = decoded(vec![with_id("A2", 1)]);
    let a = source.children_of(source.root()).unwrap()[0];
    let a2 = again.children_of(again.root()).unwrap()[0];
    let mut one = SceneGraph::new_empty();
    let mut two = SceneGraph::new_empty();
    let (r1, r2) = (one.root(), two.root());
    assert_eq!(transplant(&mut source, a, &mut one, r1), Ok(()));
    assert_eq!(one.has_unique_id(id_of(1)), Some(true));
    assert_eq!(transplant(&mut one, a, &mut two, r2), Ok(()));
    assert_eq!(one.has_unique_id(id_of(1)), Some(false));
    assert_eq!(two.has_unique_id(id_of(1)), Some(true));
    assert_eq!(transplant(&mut again, a2, &mut one, r1), Ok(()));
    assert_eq!(one.has_unique_id(id_of(1)), Some(true));
    assert_eq!(one.get(a2).unwrap().unique_id, Some(id_of(1)));
}
