use urdf_loader::error::RobotError;
use urdf_loader::loader::{LoadError, UrdfDataLoader};
use urdf_loader::resource::ResourceFile;
use urdf_loader::robot::{Geometry, Pose, Rgba, Vec3};
use urdf_loader::step::{EntityPath, Payload, Step};
use urdf_loader::urdf::{read_urdf, to_robot};

const ARM: &str = r#"<?xml version="1.0"?>
<robot name="arm" xmlns:xacro="http://www.ros.org/wiki/xacro">
    <material name="blue"><color rgba="0.0 0.25 0.5 1.0"/></material>
    <material name="wood"><texture filename="wood.png"/></material>
    <link name="base">
        <inertial>
            <origin xyz="0 0 0.5" rpy="0 0 0"/>
            <mass value="2"/>
            <inertia ixx="1" ixy="0" ixz="0" iyy="1" iyz="0" izz="1"/>
        </inertial>
        <visual name="shell">
            <origin xyz="1 2 3" rpy="0.5 0 -0.5"/>
            <geometry><mesh filename="meshes/shell.stl" scale="2 2 2"/></geometry>
            <material name="blue"/>
        </visual>
        <visual>
            <geometry><box size="1 2 3"/></geometry>
        </visual>
        <collision>
            <geometry><cylinder radius="0.5" length="2"/></geometry>
        </collision>
    </link>
    <joint name="elbow" type="revolute">
        <origin xyz="0 0 1"/>
        <parent link="base"/>
        <child link="hand"/>
        <axis xyz="0 1 0"/>
        <limit lower="-1" upper="1" effort="10" velocity="2"/>
        <calibration rising="0.5"/>
        <dynamics damping="0.1" friction="0.2"/>
        <mimic joint="other" multiplier="2"/>
        <safety_controller k_velocity="3"/>
    </joint>
    <link name="hand">
        <visual><geometry><capsule radius="0.25" length="1"/></geometry></visual>
        <collision name="ball">
            <geometry><sphere radius="0.75"/></geometry>
        </collision>
        <collision>
            <geometry><mesh filename="file:///m.obj"/></geometry>
        </collision>
    </link>
</robot>"#;

fn owned(text: &str) -> String {
    text.to_owned()
}

fn bits(number: f64) -> u64 {
    number.to_bits()
}

fn vec3(x: f64, y: f64, z: f64) -> Vec3 {
    Vec3 { x: bits(x), y: bits(y), z: bits(z) }
}

fn send(parts: &[&str], payload: Payload) -> Step {
    Step::Send {
        entity_path: EntityPath { parts: parts.iter().map(|part| owned(part)).collect() },
        payload,
    }
}

fn text(parts: &[&str], component: &str, text: String) -> Step {
    send(parts, Payload::DebugText { component: owned(component), text })
}

fn arm_steps() -> Vec<Step> {
    let arm = urdf_rs::read_from_string(ARM).unwrap();
    let elbow = &arm.joints[0];
    let base = ["arm", "base"];
    let shell = ["arm", "base", "shell"];
    let joint = ["arm", "base", "elbow"];
    let hand = ["arm", "base", "elbow", "hand"];
    vec![
        text(&base, "inertial", format!("{:#?}", arm.links[0].inertial)),
        send(
            &shell,
            Payload::Transform(Pose { xyz: vec3(1.0, 2.0, 3.0), rpy: vec3(0.5, 0.0, -0.5) }),
        ),
        Step::ReadFile(ResourceFile::InDir {
            dir: owned("robots"),
            path: owned("meshes/shell.stl"),
        }),
        send(&shell, Payload::Scale(vec3(2.0, 2.0, 2.0))),
        send(
            &shell,
            Payload::Mesh {
                filename: owned("meshes/shell.stl"),
                media_type: Some(owned("model/stl")),
                albedo: Some(Rgba { r: bits(0.0), g: bits(0.25), b: bits(0.5), a: bits(1.0) }),
                textured: false,
            },
        ),
        send(&["arm", "base", "visual_1"], Payload::Box(vec3(1.0, 2.0, 3.0))),
        send(
            &["arm", "base", "collision_0"],
            Payload::Cylinder { radius: bits(0.5), length: bits(2.0) },
        ),
        send(
            &joint,
            Payload::Transform(Pose { xyz: vec3(0.0, 0.0, 1.0), rpy: vec3(0.0, 0.0, 0.0) }),
        ),
        text(&joint, "joint_type", owned("Revolute")),
        text(&joint, "axis", format!("{:#?}", elbow.axis)),
        text(&joint, "limit", format!("{:#?}", elbow.limit)),
        text(&joint, "calibration", format!("{:#?}", elbow.calibration.as_ref().unwrap())),
        text(&joint, "dynamics", format!("{:#?}", elbow.dynamics.as_ref().unwrap())),
        text(&joint, "mimic", format!("{:#?}", elbow.mimic.as_ref().unwrap())),
        text(
            &joint,
            "safety_controller",
            format!("{:#?}", elbow.safety_controller.as_ref().unwrap()),
        ),
        text(&hand, "inertial", format!("{:#?}", arm.links[1].inertial)),
        send(
            &["arm", "base", "elbow", "hand", "visual_0"],
            Payload::Capsule { radius: bits(0.25), length: bits(1.0) },
        ),
        send(&["arm", "base", "elbow", "hand", "ball"], Payload::Sphere { radius: bits(0.75) }),
        Step::ReadFile(ResourceFile::At(owned("/m.obj"))),
        send(
            &["arm", "base", "elbow", "hand", "collision_1"],
            Payload::Mesh {
                filename: owned("file:///m.obj"),
                media_type: Some(owned("model/obj")),
                albedo: None,
                textured: false,
            },
        ),
    ]
}

fn load(filepath: &str, contents: &str) -> (Result<(), LoadError>, Vec<Step>) {
    let mut tx = vec![];
    let result = UrdfDataLoader.load_from_path(filepath, contents, &mut tx);
    let mut again = vec![];
    let other = UrdfDataLoader.load_from_file_contents(filepath, contents.as_bytes(), &mut again);
    assert_eq!(format!("{other:?}"), format!("{result:?}"));
    assert_eq!(again, tx);
    (result, tx)
}

#[test]
fn the_loader_has_a_name() {
    assert_eq!(UrdfDataLoader.name(), "URDF Loader");
}

#[test]
fn a_robot_is_loaded_from_its_text() {
    let (result, tx) = load("robots/arm.urdf", ARM);
    assert!(matches!(result, Ok(())));
    assert_eq!(tx, arm_steps());
}

#[test]
fn steps_are_added_behind_those_that_are_there() {
    let first = send(&["first"], Payload::Sphere { radius: 0 });
    let mut tx = vec![first.clone()];
    let result = UrdfDataLoader.load_from_path("robots/arm.URDF", ARM, &mut tx);
    assert!(matches!(result, Ok(())));
    let mut expected = vec![first];
    expected.extend(arm_steps());
    assert_eq!(tx, expected);
}

#[test]
fn texts_are_those_of_debug_formatting() {
    let (_, tx) = load("robots/arm.urdf", ARM);
    assert_eq!(
        tx[9],
        text(
            &["arm", "base", "elbow"],
            "axis",
            owned("Axis {\n    xyz: Vec3(\n        [\n            0.0,\n            1.0,\n            0.0,\n        ],\n    ),\n}"),
        )
    );
}

#[test]
fn all_parts_of_a_robot_are_read() {
    let source = urdf_rs::read_from_string(ARM).unwrap();
    let robot = to_robot(&source);
    assert_eq!(robot.name, "arm");
    assert_eq!(robot.links.len(), 2);
    assert_eq!(robot.links[0].name, "base");
    assert_eq!(robot.links[0].inertial, format!("{:#?}", source.links[0].inertial));
    assert_eq!(robot.links[0].visual.len(), 2);
    assert_eq!(robot.links[0].visual[0].name, Some(owned("shell")));
    assert_eq!(robot.links[0].visual[0].origin.rpy, vec3(0.5, 0.0, -0.5));
    assert_eq!(robot.links[0].visual[0].material, Some(owned("blue")));
    assert_eq!(
        robot.links[0].visual[0].geometry,
        Geometry::Mesh { filename: owned("meshes/shell.stl"), scale: Some(vec3(2.0, 2.0, 2.0)) }
    );
    assert_eq!(robot.links[0].visual[1].name, None);
    assert_eq!(robot.links[0].visual[1].material, None);
    assert_eq!(
        robot.links[0].collision[0].geometry,
        Geometry::Cylinder { radius: bits(0.5), length: bits(2.0) }
    );
    assert_eq!(robot.links[1].collision[0].name, Some(owned("ball")));
    assert_eq!(
        robot.links[1].collision[1].geometry,
        Geometry::Mesh { filename: owned("file:///m.obj"), scale: None }
    );
    assert_eq!(robot.joints.len(), 1);
    assert_eq!(robot.joints[0].name, "elbow");
    assert_eq!(robot.joints[0].parent, "base");
    assert_eq!(robot.joints[0].child, "hand");
    assert_eq!(robot.joints[0].joint_type, "Revolute");
    assert_eq!(robot.materials.len(), 2);
    assert_eq!(robot.materials[0].name, "blue");
    assert!(!robot.materials[0].textured);
    assert_eq!(robot.materials[1].color, None);
    assert!(robot.materials[1].textured);
    assert_eq!(read_urdf(ARM).unwrap(), robot);
}

#[test]
fn visual_shapes_are_read_whatever_their_kind() {
    let source = r#"<robot name="r"><link name="a">
        <visual><geometry><box size="1 2 3"/></geometry></visual>
        <visual><geometry><cylinder radius="1" length="2"/></geometry></visual>
        <visual><geometry><capsule radius="3" length="4"/></geometry></visual>
        <visual><geometry><sphere radius="5"/></geometry></visual>
        <visual><geometry><mesh filename="m.stl"/></geometry></visual>
        <collision><origin xyz="0 0 -1" rpy="1 0 0"/>
            <geometry><box size="1 2 3"/></geometry></collision>
        <collision><geometry><capsule radius="3" length="4"/></geometry></collision>
    </link></robot>"#;
    let link = read_urdf(source).unwrap().links[0].clone();
    let shapes: Vec<Geometry> = link.visual.iter().map(|v| v.geometry.clone()).collect();
    assert_eq!(
        shapes,
        vec![
            Geometry::Box { size: vec3(1.0, 2.0, 3.0) },
            Geometry::Cylinder { radius: bits(1.0), length: bits(2.0) },
            Geometry::Capsule { radius: bits(3.0), length: bits(4.0) },
            Geometry::Sphere { radius: bits(5.0) },
            Geometry::Mesh { filename: owned("m.stl"), scale: None },
        ]
    );
    assert_eq!(link.collision[0].geometry, Geometry::Box { size: vec3(1.0, 2.0, 3.0) });
    assert_eq!(
        link.collision[0].origin,
        Pose { xyz: vec3(0.0, 0.0, -1.0), rpy: vec3(1.0, 0.0, 0.0) }
    );
    assert_eq!(
        link.collision[1].geometry,
        Geometry::Capsule { radius: bits(3.0), length: bits(4.0) }
    );
}

#[test]
fn only_urdf_files_are_loaded() {
    let (result, tx) = load("robots/arm.xml", ARM);
    assert!(matches!(result, Err(LoadError::Incompatible(path)) if path == "robots/arm.xml"));
    assert_eq!(tx, vec![]);
}

#[test]
fn the_name_of_a_file_is_looked_at_first() {
    let (result, _) = load("robots/arm.xml", "no robot");
    assert!(matches!(result, Err(LoadError::Incompatible(_))));
}

#[test]
fn a_text_without_a_robot_is_refused() {
    for source in ["", "no robot", "<robot", "<robot name=\"r\"><link/></robot>"] {
        let (result, tx) = load("arm.urdf", source);
        assert!(matches!(result, Err(LoadError::Parse(_))));
        assert_eq!(tx, vec![]);
        assert!(read_urdf(source).is_err());
    }
}

#[test]
fn an_unreadable_text_is_refused() {
    for source in [
        "<robot xmlns=\"u\" :name=\"r\"/>",
        "<robot xmlns:xmlns=\"u\"/>",
        "<robot xmlns=\"v\" xmlns:=\"\"><link name=\"a\"/></robot>",
    ] {
        let (result, tx) = load("arm.urdf", source);
        assert!(matches!(result, Err(LoadError::Unreadable)));
        assert_eq!(tx, vec![]);
    }
}

#[test]
fn what_is_odd_only_outside_of_kept_tags_is_read() {
    let brackets = "]".repeat(300);
    let sources = [
        owned("<robot name=\"r\"><!--xmlns:xmlns--><link name=\"a\"/></robot>"),
        format!("<robot name=\"r\"><!--{brackets}--><link name=\"a\"/></robot>"),
        format!("<robot name=\"r\" note=\"{brackets}\"><link name=\"a\"/></robot>"),
        format!("<robot name=\"r\">{brackets}<link name=\"a\"/></robot>"),
        format!("<robot name=\"r\"><link name=\"a\"/></robot><![CDATA[{brackets}]]>"),
        owned("<robot xmlns=\"u\" name=\"r\"><!-- :a=b --><link name=\"a\"/></robot>"),
        owned("<robot xmlns=\"u\" name=\"r\" note=' :a=\"b\"'><link name=\"a\"/></robot>"),
        owned("<robot xmlns=\"u\" name=\"r\"><g :a=\"b\"/><link name=\"a\"/></robot>"),
        owned("<robot name=\"r\"><g xmlns:xmlns=\"u\"/><link name=\"a\"/></robot>"),
        owned("<robot name=\"r\"><link name=\"a\"><g xmlns:=\"u\"/></link></robot>"),
        owned("<robot xmlns=\"u\" xmlns:p=\"u\" :name=\"r\"><link name=\"a\"/></robot>"),
        owned(
            "<robot xmlns=\"u&amp;v\" xmlns:p=\"u&#38;v\" :name=\"r\"><link name=\"a\"/></robot>",
        ),
        owned(
            "<robot name=\"r\" xmlns:xmlns=\"http://www.w3.org/XML/1998/namespace\"><link name=\"a\"/></robot>",
        ),
        owned("<?a xmlns:xmlns=\"u\"?><!DOCTYPE r><robot name=\"r\"><link name=\"a\"/></robot>"),
    ];
    for source in &sources {
        let (result, tx) = load("r.urdf", source);
        assert!(matches!(result, Ok(())), "{source}");
        assert_eq!(tx.len(), 1);
    }
}

#[test]
fn namespaces_do_not_stand_in_the_way() {
    let source = r#"<robot name="r" xmlns="u" xmlns:a="v" xmlns:b="w">
        <link name="base"/><a:gazebo b:reference="base"/></robot>"#;
    let (result, tx) = load("arm.urdf", source);
    assert!(matches!(result, Ok(())));
    assert_eq!(tx.len(), 1);
}

#[test]
fn prefixed_names_are_read_like_others() {
    let source = r#"<p:robot xmlns:p="u" xmlns:q="u" p:name="r">
        <q:link q:name="base" xmlns:q="v"/></p:robot>"#;
    let (result, tx) = load("arm.urdf", source);
    assert!(matches!(result, Ok(())));
    assert_eq!(tx.len(), 1);
    let (result, _) = load("arm.urdf", "<robot :name=\"r\"/>");
    assert!(matches!(result, Err(LoadError::Parse(_))));
    let (result, _) = load("arm.urdf", "<p:robot name=\"r\"/>");
    assert!(matches!(result, Err(LoadError::Parse(_))));
}

#[test]
fn rows_of_brackets_are_read_as_far_as_they_can_be_counted() {
    let row = "]".repeat(255);
    let source = format!("<robot name=\"r\"><link name=\"a\"/><![CDATA[{row}>]]></robot>");
    let (result, tx) = load("arm.urdf", &source);
    assert!(matches!(result, Ok(())));
    assert_eq!(tx.len(), 1);
    let row = "]".repeat(256);
    let source = format!("<robot name=\"r\"><link name=\"a\"/><![CDATA[{row}>]]></robot>");
    let (result, tx) = load("arm.urdf", &source);
    assert!(matches!(result, Err(LoadError::Unreadable)));
    assert_eq!(tx, vec![]);
}

#[test]
fn a_robot_that_is_no_tree_is_refused() {
    let (result, tx) = load("arm.urdf", "<robot name=\"r\"/>");
    assert!(matches!(result, Err(LoadError::Robot(RobotError::NoRoot))));
    assert_eq!(tx, vec![]);
    let (result, tx) =
        load("arm.urdf", "<robot name=\"r\"><link name=\"a\"/><link name=\"b\"/></robot>");
    assert!(matches!(result, Err(LoadError::Robot(RobotError::MultipleRoots))));
    assert_eq!(tx, vec![]);
}

#[test]
fn a_robot_that_leads_round_in_a_circle_is_broken_off() {
    let source = r#"<robot name="r"><link name="a"/><link name="b"/><link name="c"/>
        <joint name="x" type="fixed"><parent link="a"/><child link="b"/></joint>
        <joint name="y" type="fixed"><parent link="b"/><child link="c"/></joint>
        <joint name="z" type="fixed"><parent link="c"/><child link="b"/></joint></robot>"#;
    let (result, tx) = load("arm.urdf", source);
    assert!(matches!(result, Err(LoadError::Robot(RobotError::EndlessWalk))));
    assert_eq!(tx.len(), 13);
}

#[test]
fn what_comes_before_an_error_is_logged() {
    let source = r#"<robot name="r"><link name="a"><visual>
        <origin xyz="1 0 0"/>
        <geometry><mesh filename="package://p/m.stl"/></geometry>
        </visual></link></robot>"#;
    let (result, tx) = load("arm.urdf", source);
    assert!(matches!(
        result,
        Err(LoadError::Robot(RobotError::RosPackage(resource))) if resource == "package://p/m.stl"
    ));
    assert_eq!(tx.len(), 2);
}

#[test]
fn meshes_are_looked_for_beside_the_file() {
    let source = r#"<robot name="r"><link name="a"><visual>
        <geometry><mesh filename="m.stl"/></geometry></visual></link></robot>"#;
    for (filepath, dir) in [
        ("arm.urdf", ""),
        ("/arm.urdf", "/"),
        ("a/b/arm.urdf", "a/b"),
        ("a/b/arm.urdf/", "a/b"),
    ] {
        let (result, tx) = load(filepath, source);
        assert!(matches!(result, Ok(())));
        assert_eq!(
            tx[1],
            Step::ReadFile(ResourceFile::InDir { dir: owned(dir), path: owned("m.stl") })
        );
    }
}

#[test]
fn windows_paths_name_urdf_files_too() {
    let source = r#"<robot name="r"><link name="a"><visual>
        <geometry><mesh filename="C:\m.stl"/></geometry></visual></link></robot>"#;
    let (result, tx) = load("C:\\robots\\arm.urdf", source);
    assert!(matches!(result, Ok(())));
    match &tx[1] {
        Step::ReadFile(ResourceFile::InDir { dir, path }) => {
            assert!(dir.is_empty() || dir == "C:\\robots");
            assert_eq!(path, "C:\\m.stl");
        }
        step => panic!("{step:?}"),
    }
    match &tx[2] {
        Step::Send { payload: Payload::Mesh { media_type, .. }, .. } => {
            assert_eq!(media_type, &Some(owned("model/stl")));
        }
        step => panic!("{step:?}"),
    }
    let (result, _) = load("C:\\robots\\arm.xml", source);
    assert!(matches!(result, Err(LoadError::Incompatible(_))));
}

#[test]
fn replaced_bytes_load_like_their_replacement() {
    let contents = b"<robot name=\"r\xff\"><link name=\"a\"/></robot>".to_vec();
    let replaced = String::from_utf8_lossy(&contents).into_owned();
    let mut one = vec![];
    let mut other = vec![];
    let a = UrdfDataLoader.load_from_file_contents("arm.urdf", &contents, &mut one);
    let b = UrdfDataLoader.load_from_file_contents("arm.urdf", replaced.as_bytes(), &mut other);
    assert!(matches!((a, b), (Ok(()), Ok(()))));
    assert_eq!(one, other);
}

#[test]
fn bytes_that_are_no_text_are_replaced() {
    let mut contents = b"<robot name=\"r".to_vec();
    contents.push(0xff);
    contents.extend_from_slice(b"\"><link name=\"a\"/></robot>");
    let mut tx = vec![];
    let result = UrdfDataLoader.load_from_file_contents("arm.urdf", &contents, &mut tx);
    assert!(matches!(result, Ok(())));
    match &tx[0] {
        Step::Send { entity_path, .. } => {
            assert_eq!(entity_path.parts, vec![owned("r\u{fffd}"), owned("a")]);
        }
        Step::ReadFile(_) => panic!("no mesh to read"),
    }
}

#[test]
fn names_beyond_ascii_are_kept() {
    let (result, tx) =
        load("arm.urdf", "<robot name=\"grün\"><link name=\"größe\"/></robot>");
    assert!(matches!(result, Ok(())));
    match &tx[0] {
        Step::Send { entity_path, .. } => {
            assert_eq!(entity_path.parts, vec![owned("grün"), owned("größe")]);
        }
        Step::ReadFile(_) => panic!("no mesh to read"),
    }
}

#[test]
fn many_entities_are_replaced() {
    let many = "&amp;&#65;x".repeat(20_000);
    let (result, steps) = load(
        "r.urdf",
        &format!("<robot name=\"{many}\"><link name=\"a\"/></robot>"),
    );
    assert!(result.is_ok());
    match &steps[0] {
        Step::Send { entity_path, .. } => {
            assert_eq!(entity_path.parts, vec!["&Ax".repeat(20_000), owned("a")]);
        }
        Step::ReadFile(_) => panic!("a file is read first"),
    }
}

#[test]
fn meshes_with_a_scheme_are_found_from_anywhere() {
    let robot = "<robot name=\"r\"><link name=\"a\"><visual><geometry>\
        <mesh filename=\"file:///m.stl\"/></geometry></visual></link></robot>";
    let (result, steps) = load("r.urdf", robot);
    assert!(result.is_ok());
    assert_eq!(steps.len(), 3);
    for filepath in ["/a/b/r.urdf", "C:\\a\\r.urdf", "a\\b/r.URDF"] {
        let (result, others) = load(filepath, robot);
        assert!(result.is_ok());
        assert_eq!(steps, others);
    }
}
