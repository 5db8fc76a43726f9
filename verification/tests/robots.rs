use urdf_loader::error::RobotError;
use urdf_loader::log::{
    log_debug_format, log_geometry, log_joint, log_link, send_transform,
};
use urdf_loader::resource::ResourceFile;
use urdf_loader::robot::{
    Collision, Geometry, Joint, Link, Material, Pose, Rgba, UrdfRobot, Vec3, Visual, ONE,
};
use urdf_loader::step::{EntityPath, Payload, Step};
use urdf_loader::tree::UrdfTree;
use urdf_loader::walk::{log_robot, try_log_robot, walk_tree};

fn owned(text: &str) -> String {
    text.to_owned()
}

fn vec3(x: f64, y: f64, z: f64) -> Vec3 {
    Vec3 { x: x.to_bits(), y: y.to_bits(), z: z.to_bits() }
}

fn still() -> Pose {
    Pose { xyz: vec3(0.0, 0.0, 0.0), rpy: vec3(0.0, 0.0, 0.0) }
}

fn shifted() -> Pose {
    Pose { xyz: vec3(0.0, 0.5, 0.0), rpy: vec3(0.0, 0.0, 0.0) }
}

fn sphere(radius: f64) -> Geometry {
    Geometry::Sphere { radius: radius.to_bits() }
}

fn mesh(filename: &str) -> Geometry {
    Geometry::Mesh { filename: owned(filename), scale: None }
}

fn visual(name: Option<&str>, origin: Pose, geometry: Geometry, material: Option<&str>) -> Visual {
    Visual { name: name.map(owned), origin, geometry, material: material.map(owned) }
}

fn collision(name: Option<&str>, origin: Pose, geometry: Geometry) -> Collision {
    Collision { name: name.map(owned), origin, geometry }
}

fn link(name: &str) -> Link {
    Link {
        name: owned(name),
        inertial: format!("inertia of {name}"),
        visual: vec![],
        collision: vec![],
    }
}

fn joint(name: &str, parent: &str, child: &str) -> Joint {
    Joint {
        name: owned(name),
        parent: owned(parent),
        child: owned(child),
        origin: still(),
        joint_type: owned("Fixed"),
        axis: owned("x"),
        limit: owned("none"),
        calibration: None,
        dynamics: None,
        mimic: None,
        safety_controller: None,
    }
}

fn robot(links: Vec<Link>, joints: Vec<Joint>) -> UrdfRobot {
    UrdfRobot { name: owned("bot"), links, joints, materials: vec![] }
}

fn tree(robot: UrdfRobot) -> UrdfTree {
    match UrdfTree::new(robot, Some(owned("dir"))) {
        Ok(tree) => tree,
        Err(e) => panic!("{e:?}"),
    }
}

fn path(parts: &[&str]) -> EntityPath {
    EntityPath { parts: parts.iter().map(|part| owned(part)).collect() }
}

fn send(parts: &[&str], payload: Payload) -> Step {
    Step::Send { entity_path: path(parts), payload }
}

fn text(parts: &[&str], component: &str, text: &str) -> Step {
    send(parts, Payload::DebugText { component: owned(component), text: owned(text) })
}

fn inertial(parts: &[&str]) -> Step {
    text(parts, "inertial", &format!("inertia of {}", parts[parts.len() - 1]))
}

fn fixed(parts: &[&str]) -> Vec<Step> {
    vec![
        text(parts, "joint_type", "Fixed"),
        text(parts, "axis", "x"),
        text(parts, "limit", "none"),
    ]
}

fn read(path: &str) -> Step {
    Step::ReadFile(ResourceFile::InDir { dir: owned("dir"), path: owned(path) })
}

fn plain_mesh(parts: &[&str], filename: &str) -> Step {
    send(
        parts,
        Payload::Mesh {
            filename: owned(filename),
            media_type: Some(owned("model/stl")),
            albedo: None,
            textured: false,
        },
    )
}

#[test]
fn entity_paths_grow_by_one_part() {
    let root = EntityPath::from_single_string("a/b");
    assert_eq!(root, path(&["a/b"]));
    assert_eq!(root.join("c"), path(&["a/b", "c"]));
    assert_eq!(root.clone(), root);
}

#[test]
fn poses_that_move_nothing_are_told_apart() {
    assert!(still().is_identity());
    assert!(Pose { xyz: vec3(-0.0, 0.0, -0.0), rpy: vec3(0.0, -0.0, 0.0) }.is_identity());
    assert!(!shifted().is_identity());
    assert!(!Pose { xyz: vec3(0.0, 0.0, 0.0), rpy: vec3(0.0, 0.0, 1e-300) }.is_identity());
    assert!(!Pose { xyz: vec3(f64::NAN, 0.0, 0.0), rpy: vec3(0.0, 0.0, 0.0) }.is_identity());
    assert!(vec3(1.0, 1.0, 1.0).is_one());
    assert!(!vec3(1.0, -1.0, 1.0).is_one());
    assert!(!vec3(1.0, 1.0, 1.0000001).is_one());
    assert_eq!(ONE, 1.0f64.to_bits());
}

#[test]
fn transforms_that_move_nothing_are_not_sent() {
    let mut tx = vec![];
    send_transform(&mut tx, path(&["a"]), &still());
    assert_eq!(tx, vec![]);
    send_transform(&mut tx, path(&["a"]), &shifted());
    assert_eq!(tx, vec![send(&["a"], Payload::Transform(shifted()))]);
}

#[test]
fn texts_are_sent_under_the_name_of_a_component() {
    let mut tx = vec![inertial(&["first"])];
    log_debug_format(&mut tx, path(&["a", "b"]), "axis", "z");
    assert_eq!(tx, vec![inertial(&["first"]), text(&["a", "b"], "axis", "z")]);
}

#[test]
fn a_joint_is_logged_with_all_its_parts() {
    let mut knee = joint("knee", "a", "b");
    knee.origin = shifted();
    knee.calibration = Some(owned("cal"));
    knee.dynamics = Some(owned("dyn"));
    knee.mimic = Some(owned("mim"));
    knee.safety_controller = Some(owned("safe"));
    let mut tx = vec![];
    log_joint(&mut tx, &path(&["k"]), &knee);
    let mut expected = vec![send(&["k"], Payload::Transform(shifted()))];
    expected.extend(fixed(&["k"]));
    expected.push(text(&["k"], "calibration", "cal"));
    expected.push(text(&["k"], "dynamics", "dyn"));
    expected.push(text(&["k"], "mimic", "mim"));
    expected.push(text(&["k"], "safety_controller", "safe"));
    assert_eq!(tx, expected);
}

#[test]
fn a_joint_is_logged_without_the_parts_it_lacks() {
    let mut knee = joint("knee", "a", "b");
    knee.mimic = Some(owned("mim"));
    let mut tx = vec![];
    log_joint(&mut tx, &path(&["k"]), &knee);
    let mut expected = fixed(&["k"]);
    expected.push(text(&["k"], "mimic", "mim"));
    assert_eq!(tx, expected);
}

#[test]
fn each_shape_is_logged_as_it_is() {
    let tree = tree(robot(vec![link("a")], vec![]));
    let (one, two) = (1.0f64.to_bits(), 2.0f64.to_bits());
    let cases = vec![
        (Geometry::Box { size: vec3(1.0, 2.0, 3.0) }, Payload::Box(vec3(1.0, 2.0, 3.0))),
        (
            Geometry::Cylinder { radius: one, length: two },
            Payload::Cylinder { radius: one, length: two },
        ),
        (
            Geometry::Capsule { radius: one, length: two },
            Payload::Capsule { radius: one, length: two },
        ),
        (sphere(2.0), Payload::Sphere { radius: two }),
    ];
    let paint = Material { name: owned("paint"), color: None, textured: true };
    for (geometry, payload) in cases {
        for material in [None, Some(&paint)] {
            let mut tx = vec![];
            let result = log_geometry(&tree, &mut tx, path(&["s"]), &geometry, material);
            assert_eq!(result, Ok(()));
            assert_eq!(tx, vec![send(&["s"], payload.clone())]);
        }
    }
}

#[test]
fn a_mesh_is_read_scaled_and_sent() {
    let tree = tree(robot(vec![link("a")], vec![]));
    let geometry =
        Geometry::Mesh { filename: owned("m.stl"), scale: Some(vec3(0.1, 1.0, 1.0)) };
    let red = Rgba { r: ONE, g: 0, b: 0, a: ONE };
    let paint = Material { name: owned("paint"), color: Some(red), textured: true };
    let mut tx = vec![];
    assert_eq!(log_geometry(&tree, &mut tx, path(&["m"]), &geometry, Some(&paint)), Ok(()));
    assert_eq!(
        tx,
        vec![
            read("m.stl"),
            send(&["m"], Payload::Scale(vec3(0.1, 1.0, 1.0))),
            send(
                &["m"],
                Payload::Mesh {
                    filename: owned("m.stl"),
                    media_type: Some(owned("model/stl")),
                    albedo: Some(red),
                    textured: true,
                },
            ),
        ]
    );
}

#[test]
fn a_scale_of_one_is_not_sent() {
    let tree = tree(robot(vec![link("a")], vec![]));
    for scale in [None, Some(vec3(1.0, 1.0, 1.0))] {
        let geometry = Geometry::Mesh { filename: owned("m.stl"), scale };
        let mut tx = vec![];
        assert_eq!(log_geometry(&tree, &mut tx, path(&["m"]), &geometry, None), Ok(()));
        assert_eq!(tx, vec![read("m.stl"), plain_mesh(&["m"], "m.stl")]);
    }
}

#[test]
fn a_mesh_that_cannot_be_found_is_not_sent() {
    let tree = match UrdfTree::new(robot(vec![link("a")], vec![]), None) {
        Ok(tree) => tree,
        Err(e) => panic!("{e:?}"),
    };
    let mut tx = vec![];
    assert_eq!(
        log_geometry(&tree, &mut tx, path(&["m"]), &mesh("m.stl"), None),
        Err(RobotError::NoRootDirectory(owned("m.stl")))
    );
    assert_eq!(
        log_geometry(&tree, &mut tx, path(&["m"]), &mesh("package://m.stl"), None),
        Err(RobotError::RosPackage(owned("package://m.stl")))
    );
    assert_eq!(tx, vec![]);
    assert_eq!(log_geometry(&tree, &mut tx, path(&["m"]), &mesh("file:///m.stl"), None), Ok(()));
    assert_eq!(tx[0], Step::ReadFile(ResourceFile::At(owned("/m.stl"))));
}

#[test]
fn a_link_is_logged_with_its_shapes() {
    let blue = Rgba { r: 0, g: 0, b: ONE, a: ONE };
    let mut base = link("base");
    base.visual = vec![
        visual(None, still(), sphere(1.0), None),
        visual(Some("shell"), shifted(), mesh("shell.stl"), Some("paint")),
        visual(None, still(), mesh("lid.stl"), Some("unknown")),
    ];
    base.collision = vec![
        collision(None, shifted(), mesh("shell.stl")),
        collision(Some("hull"), still(), sphere(2.0)),
    ];
    let mut model = robot(vec![base.clone()], vec![]);
    model.materials = vec![
        Material { name: owned("paint"), color: None, textured: false },
        Material { name: owned("paint"), color: Some(blue), textured: false },
    ];
    let tree = tree(model);
    let mut tx = vec![];
    assert_eq!(log_link(&tree, &mut tx, &base, &path(&["base"])), Ok(()));
    assert_eq!(
        tx,
        vec![
            inertial(&["base"]),
            send(&["base", "visual_0"], Payload::Sphere { radius: ONE }),
            send(&["base", "shell"], Payload::Transform(shifted())),
            read("shell.stl"),
            send(
                &["base", "shell"],
                Payload::Mesh {
                    filename: owned("shell.stl"),
                    media_type: Some(owned("model/stl")),
                    albedo: Some(blue),
                    textured: false,
                },
            ),
            read("lid.stl"),
            plain_mesh(&["base", "visual_2"], "lid.stl"),
            send(&["base", "collision_0"], Payload::Transform(shifted())),
            read("shell.stl"),
            plain_mesh(&["base", "collision_0"], "shell.stl"),
            send(&["base", "hull"], Payload::Sphere { radius: 2.0f64.to_bits() }),
        ]
    );
}

#[test]
fn logging_a_link_ends_at_the_first_error() {
    let mut base = link("base");
    base.visual = vec![
        visual(None, still(), sphere(1.0), None),
        visual(None, shifted(), mesh("package://m.stl"), None),
        visual(None, still(), sphere(1.0), None),
    ];
    base.collision = vec![collision(None, still(), sphere(1.0))];
    let tree = tree(robot(vec![base.clone()], vec![]));
    let mut tx = vec![];
    assert_eq!(
        log_link(&tree, &mut tx, &base, &path(&["base"])),
        Err(RobotError::RosPackage(owned("package://m.stl")))
    );
    assert_eq!(
        tx,
        vec![
            inertial(&["base"]),
            send(&["base", "visual_0"], Payload::Sphere { radius: ONE }),
            send(&["base", "visual_1"], Payload::Transform(shifted())),
        ]
    );
}

#[test]
fn unnamed_shapes_have_entities_of_their_own() {
    let mut base = link("base");
    for _ in 0..12 {
        base.visual.push(visual(None, still(), sphere(1.0), None));
        base.collision.push(collision(None, still(), sphere(1.0)));
    }
    let tree = tree(robot(vec![base.clone()], vec![]));
    let mut tx = vec![];
    assert_eq!(log_link(&tree, &mut tx, &base, &path(&["base"])), Ok(()));
    assert_eq!(tx.len(), 25);
    assert_eq!(tx[11], send(&["base", "visual_10"], Payload::Sphere { radius: ONE }));
    assert_eq!(tx[24], send(&["base", "collision_11"], Payload::Sphere { radius: ONE }));
    for i in 0..tx.len() {
        for k in 0..i {
            assert_ne!(tx[i], tx[k]);
        }
    }
}

#[test]
fn a_tree_hangs_on_the_link_that_is_no_child() {
    let model = robot(
        vec![link("hand"), link("base"), link("arm")],
        vec![joint("wrist", "arm", "hand"), joint("shoulder", "base", "arm")],
    );
    let tree = tree(model);
    assert_eq!(tree.root(), &link("base"));
    assert_eq!(tree.name(), "bot");
    assert_eq!(tree.urdf_dir(), &Some(owned("dir")));
    assert_eq!(tree.link_count(), 3);
}

#[test]
fn a_robot_without_a_root_is_no_tree() {
    let round = robot(
        vec![link("a"), link("b")],
        vec![joint("x", "a", "b"), joint("y", "b", "a")],
    );
    assert!(matches!(UrdfTree::new(round.clone(), None), Err(RobotError::NoRoot)));
    assert!(matches!(UrdfTree::new(robot(vec![], vec![]), None), Err(RobotError::NoRoot)));
    let mut tx = vec![];
    assert_eq!(log_robot(round, None, &mut tx), Err(RobotError::NoRoot));
    assert_eq!(tx, vec![]);
}

#[test]
fn a_robot_with_two_roots_is_no_tree() {
    let model = robot(
        vec![link("a"), link("b"), link("c")],
        vec![joint("x", "a", "c")],
    );
    assert!(matches!(UrdfTree::new(model, None), Err(RobotError::MultipleRoots)));
}

#[test]
fn the_directory_does_not_matter_to_the_tree() {
    let model = robot(vec![link("a"), link("b")], vec![joint("x", "a", "b")]);
    for dir in [None, Some(owned("")), Some(owned("dir"))] {
        match UrdfTree::new(model.clone(), dir.clone()) {
            Ok(tree) => {
                assert_eq!(tree.root(), &link("a"));
                assert_eq!(tree.urdf_dir(), &dir);
            }
            Err(e) => panic!("{e:?}"),
        }
    }
}

#[test]
fn of_links_with_one_name_the_last_counts() {
    let mut second = link("a");
    second.inertial = owned("second");
    let model = robot(vec![link("a"), link("b"), second.clone()], vec![joint("x", "a", "b")]);
    let tree = tree(model);
    assert_eq!(tree.root(), &second);
    assert_eq!(tree.link("a"), Some(&second));
    assert_eq!(tree.link("b"), Some(&link("b")));
    assert_eq!(tree.link("c"), None);
}

#[test]
fn links_joints_and_materials_are_found_by_name() {
    let red = Material { name: owned("red"), color: None, textured: true };
    let mut model = robot(
        vec![link("a"), link("b"), link("c")],
        vec![joint("x", "a", "b"), joint("y", "b", "d"), joint("z", "a", "c")],
    );
    model.materials = vec![red.clone()];
    let tree = tree(model);
    assert_eq!(tree.children("a"), vec![&joint("x", "a", "b"), &joint("z", "a", "c")]);
    assert_eq!(tree.children("b"), vec![&joint("y", "b", "d")]);
    assert_eq!(tree.children("c"), Vec::<&Joint>::new());
    assert_eq!(tree.material("red"), Some(&red));
    assert_eq!(tree.material("Red"), None);
}

#[test]
fn a_robot_is_walked_from_its_root() {
    let model = robot(
        vec![link("base"), link("left"), link("right"), link("hand")],
        vec![
            joint("l", "base", "left"),
            joint("r", "base", "right"),
            joint("w", "left", "hand"),
        ],
    );
    let mut tx = vec![];
    assert_eq!(log_robot(model.clone(), None, &mut tx), Ok(()));
    let mut expected = vec![inertial(&["bot", "base"])];
    expected.extend(fixed(&["bot", "base", "l"]));
    expected.push(inertial(&["bot", "base", "l", "left"]));
    expected.extend(fixed(&["bot", "base", "l", "left", "w"]));
    expected.push(inertial(&["bot", "base", "l", "left", "w", "hand"]));
    expected.extend(fixed(&["bot", "base", "r"]));
    expected.push(inertial(&["bot", "base", "r", "right"]));
    assert_eq!(tx, expected);

    let mut again = vec![];
    assert_eq!(try_log_robot(model, None, &mut again), Ok(()));
    assert_eq!(again, expected);
}

#[test]
fn a_walk_may_start_at_any_link() {
    let model = robot(
        vec![link("base"), link("left"), link("hand")],
        vec![joint("l", "base", "left"), joint("w", "left", "hand")],
    );
    let tree = tree(model);
    let mut tx = vec![inertial(&["before"])];
    assert_eq!(walk_tree(&tree, &mut tx, &path(&["p"]), "left"), Ok(()));
    let mut expected = vec![inertial(&["before"]), inertial(&["p", "left"])];
    expected.extend(fixed(&["p", "left", "w"]));
    expected.push(inertial(&["p", "left", "w", "hand"]));
    assert_eq!(tx, expected);
    assert_eq!(
        walk_tree(&tree, &mut tx, &path(&["p"]), "foot"),
        Err(RobotError::MissingLink(owned("foot")))
    );
    assert_eq!(tx, expected);
}

#[test]
fn a_walk_ends_at_a_missing_link() {
    let model = robot(
        vec![link("base"), link("right")],
        vec![joint("l", "base", "left"), joint("r", "base", "right")],
    );
    let mut tx = vec![];
    assert_eq!(log_robot(model, None, &mut tx), Err(RobotError::MissingLink(owned("left"))));
    let mut expected = vec![inertial(&["bot", "base"])];
    expected.extend(fixed(&["bot", "base", "l"]));
    assert_eq!(tx, expected);
}

#[test]
fn a_link_may_be_reached_twice() {
    let model = robot(
        vec![link("base"), link("arm")],
        vec![joint("l", "base", "arm"), joint("r", "base", "arm")],
    );
    let mut tx = vec![];
    assert_eq!(log_robot(model, None, &mut tx), Ok(()));
    let mut expected = vec![inertial(&["bot", "base"])];
    expected.extend(fixed(&["bot", "base", "l"]));
    expected.push(inertial(&["bot", "base", "l", "arm"]));
    expected.extend(fixed(&["bot", "base", "r"]));
    expected.push(inertial(&["bot", "base", "r", "arm"]));
    assert_eq!(tx, expected);
}

#[test]
fn a_walk_in_a_circle_is_broken_off() {
    let model = robot(
        vec![link("base"), link("a"), link("b")],
        vec![joint("in", "base", "a"), joint("x", "a", "b"), joint("y", "b", "a")],
    );
    let mut tx = vec![inertial(&["before"])];
    assert_eq!(try_log_robot(model, None, &mut tx), Err(RobotError::EndlessWalk));
    let mut expected = vec![inertial(&["before"]), inertial(&["bot", "base"])];
    expected.extend(fixed(&["bot", "base", "in"]));
    expected.push(inertial(&["bot", "base", "in", "a"]));
    expected.extend(fixed(&["bot", "base", "in", "a", "x"]));
    expected.push(inertial(&["bot", "base", "in", "a", "x", "b"]));
    expected.extend(fixed(&["bot", "base", "in", "a", "x", "b", "y"]));
    expected.push(inertial(&["bot", "base", "in", "a", "x", "b", "y", "a"]));
    assert_eq!(tx, expected);
}

#[test]
fn all_meshes_of_a_circle_are_read_before_it_is_broken_off() {
    let mut a = link("a");
    a.visual = vec![visual(None, still(), mesh("a.stl"), None)];
    let mut b = link("b");
    b.visual = vec![visual(None, still(), mesh("b.stl"), None)];
    let model = robot(
        vec![link("base"), a, b],
        vec![joint("in", "base", "a"), joint("x", "a", "b"), joint("y", "b", "a")],
    );
    let mut tx = vec![];
    assert_eq!(
        try_log_robot(model, Some(owned("dir")), &mut tx),
        Err(RobotError::EndlessWalk)
    );
    let reads: Vec<&Step> = tx.iter().filter(|s| matches!(s, Step::ReadFile(_))).collect();
    assert_eq!(reads, vec![&read("a.stl"), &read("b.stl"), &read("a.stl")]);
}

#[test]
fn an_error_before_the_circle_ends_the_walk() {
    let mut broken = link("a");
    broken.visual = vec![visual(None, still(), mesh("m.stl"), None)];
    let model = robot(
        vec![link("base"), broken, link("b")],
        vec![joint("in", "base", "a"), joint("x", "a", "b"), joint("y", "b", "a")],
    );
    let mut tx = vec![];
    assert_eq!(
        try_log_robot(model.clone(), None, &mut tx),
        Err(RobotError::NoRootDirectory(owned("m.stl")))
    );
    assert_eq!(tx.len(), 5);
    assert_eq!(
        try_log_robot(model, Some(owned("dir")), &mut tx),
        Err(RobotError::EndlessWalk)
    );
}

#[test]
fn a_circle_that_is_not_reached_does_not_matter() {
    let model = robot(
        vec![link("base"), link("a"), link("b")],
        vec![joint("x", "a", "b"), joint("y", "b", "a")],
    );
    let mut tx = vec![];
    assert_eq!(log_robot(model, None, &mut tx), Ok(()));
    assert_eq!(tx, vec![inertial(&["bot", "base"])]);
}

#[test]
fn in_a_tree_all_is_logged_once() {
    let model = robot(
        vec![link("base"), link("left"), link("right"), link("hand"), link("foot")],
        vec![
            joint("l", "base", "left"),
            joint("r", "base", "right"),
            joint("h", "left", "hand"),
            joint("f", "right", "foot"),
        ],
    );
    let mut tx = vec![];
    assert_eq!(log_robot(model.clone(), None, &mut tx), Ok(()));
    let count = |component: &str, name: &str| {
        tx.iter()
            .filter(|step| match step {
                Step::Send { entity_path, payload: Payload::DebugText { component: own, .. } } => {
                    own == component && entity_path.parts[entity_path.parts.len() - 1] == name
                }
                _ => false,
            })
            .count()
    };
    for link in &model.links {
        assert_eq!(count("inertial", &link.name), 1);
    }
    for joint in &model.joints {
        assert_eq!(count("joint_type", &joint.name), 1);
    }
}

fn texts_sent(steps: &[Step], name: &str) -> usize {
    steps
        .iter()
        .filter(|step| {
            matches!(
                step,
                Step::Send { payload: Payload::DebugText { component, .. }, .. }
                    if component.as_str() == name
            )
        })
        .count()
}

#[test]
fn of_a_tree_all_links_and_joints_are_logged() {
    let mut tx = vec![];
    let result = try_log_robot(
        robot(
            vec![link("hand"), link("base"), link("arm"), link("head"), link("finger")],
            vec![
                joint("j", "base", "arm"),
                joint("j", "base", "head"),
                joint("j", "arm", "hand"),
                joint("k", "hand", "finger"),
            ],
        ),
        None,
        &mut tx,
    );
    assert_eq!(result, Ok(()));
    assert_eq!(texts_sent(&tx, "inertial"), 5);
    assert_eq!(texts_sent(&tx, "joint_type"), 4);
}

#[test]
fn the_order_of_links_and_joints_does_not_matter_to_the_tree() {
    let links = vec![link("a"), link("b"), link("c")];
    let joints = vec![joint("x", "a", "b"), joint("y", "a", "c")];
    let turned = robot(
        links.iter().rev().cloned().collect(),
        joints.iter().rev().cloned().collect(),
    );
    let one = tree(robot(links, joints));
    let other = tree(turned);
    assert_eq!(one.root(), other.root());
    for name in ["a", "b", "c", "d"] {
        assert_eq!(one.link(name), other.link(name));
        let mut children = other.children(name);
        children.reverse();
        assert_eq!(one.children(name), children);
    }
}

#[test]
fn a_chain_of_all_links_is_walked_to_its_end() {
    let n = 40;
    let links = (0..n).map(|i| link(&format!("l{i}"))).collect();
    let joints = (1..n)
        .map(|i| joint(&format!("j{i}"), &format!("l{}", i - 1), &format!("l{i}")))
        .collect();
    let mut tx = vec![];
    assert_eq!(try_log_robot(robot(links, joints), None, &mut tx), Ok(()));
    assert_eq!(tx.len(), n + 3 * (n - 1));
    for step in &tx {
        match step {
            Step::Send { entity_path, .. } => {
                assert_eq!(entity_path.parts[0], "bot");
                assert_eq!(entity_path.parts[1], "l0");
            }
            Step::ReadFile(_) => panic!("no mesh to read"),
        }
    }
}

#[test]
fn each_mesh_follows_the_reading_of_its_file() {
    let mut base = link("base");
    base.visual = vec![
        visual(None, shifted(), mesh("a.stl"), None),
        visual(
            None,
            shifted(),
            Geometry::Mesh { filename: owned("b.stl"), scale: Some(vec3(2.0, 2.0, 2.0)) },
            None,
        ),
    ];
    base.collision = vec![collision(None, still(), mesh("a.stl"))];
    let mut tx = vec![];
    assert_eq!(log_robot(robot(vec![base], vec![]), Some(owned("dir")), &mut tx), Ok(()));
    let mut last_read = None;
    let mut meshes = 0;
    for step in &tx {
        match step {
            Step::ReadFile(file) => last_read = Some(file.clone()),
            Step::Send { payload: Payload::Mesh { filename, .. }, .. } => {
                meshes += 1;
                let file = ResourceFile::InDir { dir: owned("dir"), path: filename.clone() };
                assert_eq!(last_read, Some(file));
            }
            Step::Send { .. } => {}
        }
    }
    assert_eq!(meshes, 3);
}
