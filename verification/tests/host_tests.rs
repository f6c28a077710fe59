use edit_roblox_model::graph::GraphError;
use edit_roblox_model::graph::SceneGraph;
use edit_roblox_model::host::build;
use edit_roblox_model::host::build_as;
use edit_roblox_model::host::extract;
use edit_roblox_model::host::extract_into;
use edit_roblox_model::host::find_mount;
use edit_roblox_model::host::is_excluded;
use rbx_dom_weak::types::Variant;
use rbx_dom_weak::types::UniqueId;
use rbx_dom_weak::InstanceBuilder;
use rbx_dom_weak::WeakDom;

fn shape(g: &SceneGraph, id: u128) -> String {
    let node = g.get(id).unwrap();
    let mut out = format!("{}:{}(", node.class, node.name);
    for child in node.children {
        assert_eq!(g.get(child).unwrap().parent, id);
        out.push_str(&shape(g, child));
    }
    out.push(')');
    out
}

fn forest(g: &SceneGraph) -> String {
    let mut out = String::new();
    for child in g.children_of(g.root()).unwrap() {
        out.push_str(&shape(g, child));
    }
    out
}

fn model() -> SceneGraph {
    SceneGraph::from_dom(WeakDom::new(
        InstanceBuilder::new("DataModel")
            .with_child(
                InstanceBuilder::new("Model")
                    .with_name("Car")
                    .with_child(InstanceBuilder::new("Part").with_name("Axle").with_child(
                        InstanceBuilder::new("Part").with_name("Wheel"),
                    ))
                    .with_child(InstanceBuilder::new("Camera").with_name("Camera")),
            )
            .with_child(InstanceBuilder::new("Script").with_name("Horn"))
            .with_child(InstanceBuilder::new("Camera").with_name("MainCamera")),
    ))
}

fn host_with(children: Vec<InstanceBuilder>) -> SceneGraph {
    SceneGraph::from_dom(WeakDom::new(
        InstanceBuilder::new("DataModel")
            .with_child(InstanceBuilder::new("Lighting"))
            .with_child(InstanceBuilder::new("Workspace").with_children(children)),
    ))
}

#[test]
fn build_mounts_the_nodes_in_order() {
    let mut source = model();
    let nodes = source.children_of(source.root()).unwrap();
    let before = forest(&source);
    let (host, mount) = build(&mut source, &nodes).unwrap();
    assert_eq!(host.children_of(host.root()), Ok(vec![mount]));
    let mount_node = host.get(mount).unwrap();
    assert_eq!(mount_node.class, "Workspace");
    assert_eq!(mount_node.name, "Workspace");
    assert_eq!(mount_node.parent, host.root());
    assert_eq!(mount_node.children, nodes);
    assert_eq!(shape(&host, host.root()), format!("DataModel:DataModel(Workspace:Workspace({before}))"));
    assert_eq!(source.children_of(source.root()), Ok(vec![]));
    assert_eq!(find_mount(&host), Ok(mount));
}

#[test]
fn build_of_nothing_gives_an_empty_mount_point() {
    let mut source = SceneGraph::new_empty();
    let (host, mount) = build(&mut source, &vec![]).unwrap();
    assert_eq!(host.children_of(mount), Ok(vec![]));
    assert_eq!(host.children_of(host.root()), Ok(vec![mount]));
}

#[test]
fn build_stops_at_a_node_that_is_not_there() {
    let mut source = model();
    let nodes = source.children_of(source.root()).unwrap();
    let stranger = source.root().wrapping_add(1);
    let r = build(&mut source, &vec![nodes[0], stranger, nodes[1]]);
    assert!(matches!(r, Err(GraphError::NotFound)));
    assert_eq!(source.children_of(source.root()), Ok(vec![nodes[1], nodes[2]]));
}

#[test]
fn round_trip_keeps_the_structure() {
    let mut source = model();
    let nodes = source.children_of(source.root()).unwrap();
    let before = forest(&source);
    assert_eq!(
        before,
        "Model:Car(Part:Axle(Part:Wheel())Camera:Camera())Script:Horn()Camera:MainCamera()"
    );
    let (mut host, mount) = build(&mut source, &nodes).unwrap();
    let asset = extract(&mut host).unwrap();
    assert_eq!(forest(&asset), before);
    assert_eq!(asset.children_of(asset.root()), Ok(nodes));
    let root = asset.get(asset.root()).unwrap();
    assert_eq!(root.class, "DataModel");
    assert_eq!(root.parent, 0);
    assert_eq!(host.children_of(mount), Ok(vec![]));
}

#[test]
fn exclusion_is_exact() {
    assert!(is_excluded("Camera", "Camera"));
    assert!(is_excluded("Terrain", "Terrain"));
    assert!(!is_excluded("Camera", "MainCamera"));
    assert!(!is_excluded("Terrain", "Hills"));
    assert!(!is_excluded("Camera", "Terrain"));
    assert!(!is_excluded("Terrain", "Camera"));
    assert!(!is_excluded("Part", "Camera"));
    assert!(!is_excluded("camera", "camera"));
    assert!(!is_excluded("", ""));
    assert!(!is_excluded("Camera", ""));
}

#[test]
fn extract_drops_what_the_editor_adds() {
    let mut host = host_with(vec![
        InstanceBuilder::new("Camera"),
        InstanceBuilder::new("Part").with_name("Lamp"),
        InstanceBuilder::new("Terrain"),
        InstanceBuilder::new("Camera").with_name("MainCamera"),
        InstanceBuilder::new("Model")
            .with_name("Car")
            .with_child(InstanceBuilder::new("Camera").with_name("Camera")),
        InstanceBuilder::new("Terrain").with_name("Hills"),
    ]);
    let mount = find_mount(&host).unwrap();
    let asset = extract(&mut host).unwrap();
    assert_eq!(
        forest(&asset),
        "Part:Lamp()Camera:MainCamera()Model:Car(Camera:Camera())Terrain:Hills()"
    );
    assert_eq!(shape(&host, mount), "Workspace:Workspace(Camera:Camera()Terrain:Terrain())");
}

#[test]
fn extract_without_a_mount_point_fails() {
    let mut host = SceneGraph::from_dom(WeakDom::new(
        InstanceBuilder::new("DataModel")
            .with_child(InstanceBuilder::new("Lighting"))
            .with_child(InstanceBuilder::new("Folder").with_name("Workspace")),
    ));
    let before = shape(&host, host.root());
    assert_eq!(find_mount(&host), Err(GraphError::MountPointNotFound));
    assert!(matches!(extract(&mut host), Err(GraphError::MountPointNotFound)));
    assert_eq!(shape(&host, host.root()), before);
    let mut bare = SceneGraph::new_empty();
    assert!(matches!(extract(&mut bare), Err(GraphError::MountPointNotFound)));
}

#[test]
fn extract_with_two_mount_points_fails() {
    let mut host = SceneGraph::from_dom(WeakDom::new(
        InstanceBuilder::new("DataModel")
            .with_child(
                InstanceBuilder::new("Workspace")
                    .with_child(InstanceBuilder::new("Part").with_name("Lamp")),
            )
            .with_child(InstanceBuilder::new("Workspace").with_name("Second")),
    ));
    let before = shape(&host, host.root());
    assert_eq!(find_mount(&host), Err(GraphError::MountPointNotFound));
    assert!(matches!(extract(&mut host), Err(GraphError::MountPointNotFound)));
    assert_eq!(shape(&host, host.root()), before);
}

#[test]
fn a_mount_point_below_the_top_level_does_not_count() {
    let mut host = SceneGraph::from_dom(WeakDom::new(InstanceBuilder::new("DataModel").with_child(
        InstanceBuilder::new("Folder").with_child(InstanceBuilder::new("Workspace")),
    )));
    assert!(matches!(extract(&mut host), Err(GraphError::MountPointNotFound)));
}

#[test]
fn empty_mount_point_gives_an_empty_model() {
    let mut host = host_with(vec![]);
    let asset = extract(&mut host).unwrap();
    assert_eq!(asset.children_of(asset.root()), Ok(vec![]));
    assert_eq!(shape(&asset, asset.root()), "DataModel:DataModel()");
}

#[test]
fn a_mount_point_with_only_editor_nodes_gives_an_empty_model() {
    let mut host = host_with(vec![InstanceBuilder::new("Terrain"), InstanceBuilder::new("Camera")]);
    let asset = extract(&mut host).unwrap();
    assert_eq!(asset.children_of(asset.root()), Ok(vec![]));
}

#[test]
fn extract_into_fills_the_given_graph() {
    let mut host = host_with(vec![
        InstanceBuilder::new("Part").with_name("Lamp"),
        InstanceBuilder::new("Camera"),
    ]);
    let mut asset = SceneGraph::new_empty();
    let kept = asset.insert(asset.root(), "Folder", "Kept").unwrap();
    assert_eq!(extract_into(&mut host, &mut asset), Ok(()));
    assert_eq!(forest(&asset), "Folder:Kept()Part:Lamp()");
    assert_eq!(asset.children_of(asset.root()).unwrap()[0], kept);
}

#[test]
fn properties_survive_the_round_trip() {
    let mut source = SceneGraph::from_dom(WeakDom::new(InstanceBuilder::new("DataModel").with_child(
        InstanceBuilder::new("Part").with_name("Lamp").with_property("Anchored", true),
    )));
    let nodes = source.children_of(source.root()).unwrap();
    let (mut host, _mount) = build(&mut source, &nodes).unwrap();
    let asset = extract(&mut host).unwrap();
    let dom = asset.into_dom();
    let lamp = dom.get_by_ref(dom.root().children()[0]).unwrap();
    assert_eq!(lamp.properties.get("Anchored"), Some(&Variant::Bool(true)));
}

#[test]
fn a_saved_place_file_gives_the_model_back() {
    let mut source = model();
    let nodes = source.children_of(source.root()).unwrap();
    let before = forest(&source);
    let (host, _mount) = build(&mut source, &nodes).unwrap();
    let mut bytes = Vec::new();
    rbx_binary::to_writer(&mut bytes, host.dom(), host.dom().root().children()).unwrap();
    let mut saved = SceneGraph::from_dom(rbx_binary::from_reader(bytes.as_slice()).unwrap());
    let asset = extract(&mut saved).unwrap();
    assert_eq!(forest(&asset), before);
}

#[test]
fn build_as_uses_the_given_identities() {
    let mut source = model();
    let nodes = source.children_of(source.root()).unwrap();
    let before = forest(&source);
    let host = build_as(&mut source, &nodes, 11, 12).unwrap();
    assert_eq!(host.root(), 11);
    assert_eq!(host.children_of(11), Ok(vec![12]));
    assert_eq!(host.children_of(12), Ok(nodes));
    assert_eq!(host.get(12).unwrap().class, "Workspace");
    assert_eq!(host.get(12).unwrap().parent, 11);
    assert_eq!(shape(&host, 11), format!("DataModel:DataModel(Workspace:Workspace({before}))"));
}

#[test]
fn build_as_refuses_identities_that_make_no_host() {
    let mut source = model();
    let nodes = source.children_of(source.root()).unwrap();
    let before = forest(&source);
    assert!(matches!(build_as(&mut source, &nodes, 0, 12), Err(GraphError::IdentityInUse)));
    assert!(matches!(build_as(&mut source, &nodes, 11, 0), Err(GraphError::IdentityInUse)));
    assert!(matches!(build_as(&mut source, &nodes, 11, 11), Err(GraphError::IdentityInUse)));
    assert_eq!(forest(&source), before);
}

#[test]
fn build_as_stops_at_an_identity_in_use() {
    let mut source = model();
    let nodes = source.children_of(source.root()).unwrap();
    let wheel = {
        let car = source.get(nodes[0]).unwrap();
        source.get(car.children[0]).unwrap().children[0]
    };
    let before = forest(&source);
    assert!(matches!(build_as(&mut source, &nodes, wheel, 12), Err(GraphError::IdentityInUse)));
    assert_eq!(forest(&source), before);
    assert!(matches!(build_as(&mut source, &nodes, 11, nodes[1]), Err(GraphError::IdentityInUse)));
    assert_eq!(source.children_of(source.root()), Ok(vec![nodes[1], nodes[2]]));
}

#[test]
fn extract_into_stops_at_an_identity_in_use() {
    let mut host = host_with(vec![
        InstanceBuilder::new("Part").with_name("Lamp"),
        InstanceBuilder::new("Part").with_name("Desk"),
    ]);
    let mount = find_mount(&host).unwrap();
    let kids = host.children_of(mount).unwrap();
    let mut asset = SceneGraph::new_empty_as(kids[1]).unwrap();
    assert_eq!(extract_into(&mut host, &mut asset), Err(GraphError::IdentityInUse));
    assert_eq!(asset.children_of(asset.root()), Ok(vec![kids[0]]));
    assert_eq!(host.children_of(mount), Ok(vec![kids[1]]));
}

#[test]
fn unique_ids_survive_the_round_trip() {
    let mut source = SceneGraph::from_dom(WeakDom::new(InstanceBuilder::new("DataModel").with_child(
        InstanceBuilder::new("Part")
            .with_name("Lamp")
            .with_property("UniqueId", UniqueId::new(5, 6, 7))
            .with_child(InstanceBuilder::new("Part").with_property("UniqueId", UniqueId::new(8, 6, 7))),
    )));
    let nodes = source.children_of(source.root()).unwrap();
    let (mut host, _mount) = build(&mut source, &nodes).unwrap();
    let lamp_id = (7u128 << 64) | (6u128 << 32) | 5;
    assert_eq!(host.has_unique_id(lamp_id), Some(true));
    let asset = extract(&mut host).unwrap();
    assert_eq!(host.has_unique_id(lamp_id), Some(false));
    assert_eq!(asset.has_unique_id(lamp_id), Some(true));
    assert_eq!(asset.get(nodes[0]).unwrap().unique_id, Some(lamp_id));
    let dom = asset.into_dom();
    assert_eq!(dom.get_unique_id(dom.root().children()[0]), Some(UniqueId::new(5, 6, 7)));
}
