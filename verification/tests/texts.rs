use urdf_loader::error::RobotError;
use urdf_loader::path::{is_urdf_extension, is_urdf_file};
use urdf_loader::resource::{load_ros_resource, mesh_media_type, ResourceFile};
use urdf_loader::text::{
    characters, eq_ignore_ascii_case, joined, same_text, split_once, to_decimal,
};
use urdf_loader::xml::is_readable;

fn owned(text: &str) -> String {
    text.to_owned()
}

#[test]
fn urdf_files_are_known_by_their_extension() {
    assert!(is_urdf_file("robot.urdf"));
    assert!(is_urdf_file("/opt/robots/arm.v2.urdf"));
    assert!(is_urdf_file("robots/arm.urdf/"));
    assert!(is_urdf_file("robots/arm.urdf/."));
    assert!(is_urdf_file("./arm.urdf"));
}

#[test]
fn the_extension_may_be_in_upper_case() {
    assert!(is_urdf_file("robot.URDF"));
    assert!(is_urdf_file("robot.Urdf"));
    assert!(is_urdf_extension(&Some(owned("uRDf"))));
}

#[test]
fn other_files_are_not_urdf_files() {
    assert!(!is_urdf_file(""));
    assert!(!is_urdf_file("urdf"));
    assert!(!is_urdf_file(".urdf"));
    assert!(!is_urdf_file("robot.xacro"));
    assert!(!is_urdf_file("robot.urdf.xml"));
    assert!(!is_urdf_file("robot.urdf/meshes"));
    assert!(!is_urdf_file("robot.urdf/.."));
    assert!(!is_urdf_file("robot.urdf2"));
    assert!(!is_urdf_extension(&None));
    assert!(!is_urdf_extension(&Some(owned("xml"))));
}

#[test]
fn a_file_resource_is_read_from_its_path() {
    assert_eq!(
        load_ros_resource(&None, "file:///meshes/arm.stl"),
        Ok(ResourceFile::At(owned("/meshes/arm.stl")))
    );
    assert_eq!(
        load_ros_resource(&Some(owned("robots")), "file://arm.stl"),
        Ok(ResourceFile::At(owned("arm.stl")))
    );
    assert_eq!(
        load_ros_resource(&None, "file://a://b"),
        Ok(ResourceFile::At(owned("a://b")))
    );
}

#[test]
fn a_package_resource_is_not_supported() {
    assert_eq!(
        load_ros_resource(&Some(owned("robots")), "package://arm/arm.stl"),
        Err(RobotError::RosPackage(owned("package://arm/arm.stl")))
    );
}

#[test]
fn an_unknown_scheme_is_reported() {
    assert_eq!(
        load_ros_resource(&Some(owned("robots")), "https://host/arm.stl"),
        Err(RobotError::UnknownScheme {
            scheme: owned("https"),
            resource: owned("https://host/arm.stl"),
        })
    );
    assert_eq!(
        load_ros_resource(&None, "://arm.stl"),
        Err(RobotError::UnknownScheme { scheme: owned(""), resource: owned("://arm.stl") })
    );
    assert_eq!(
        load_ros_resource(&None, "FILE://arm.stl"),
        Err(RobotError::UnknownScheme {
            scheme: owned("FILE"),
            resource: owned("FILE://arm.stl"),
        })
    );
}

#[test]
fn a_relative_resource_starts_from_the_directory() {
    assert_eq!(
        load_ros_resource(&Some(owned("robots")), "meshes/arm.stl"),
        Ok(ResourceFile::InDir { dir: owned("robots"), path: owned("meshes/arm.stl") })
    );
    assert_eq!(
        load_ros_resource(&Some(owned("")), "file:/arm.stl"),
        Ok(ResourceFile::InDir { dir: owned(""), path: owned("file:/arm.stl") })
    );
    assert_eq!(
        load_ros_resource(&None, "meshes/arm.stl"),
        Err(RobotError::NoRootDirectory(owned("meshes/arm.stl")))
    );
}

#[test]
fn media_types_are_guessed_from_names() {
    assert_eq!(mesh_media_type("meshes/arm.stl"), Some(owned("model/stl")));
    assert_eq!(mesh_media_type("meshes/ARM.STL"), Some(owned("model/stl")));
    assert_eq!(mesh_media_type("arm.obj"), Some(owned("model/obj")));
    assert_eq!(mesh_media_type("arm.Obj"), Some(owned("model/obj")));
    assert_eq!(mesh_media_type("arm.glb"), Some(owned("model/gltf-binary")));
    assert_eq!(mesh_media_type("arm.dae"), Some(owned("model/vnd.collada+xml")));
    assert_eq!(mesh_media_type("arm"), None);
    assert_eq!(mesh_media_type("arm.no-such-type"), None);
}

#[test]
fn errors_are_put_into_words() {
    assert_eq!(RobotError::NoRoot.message(), "No root link found in URDF");
    assert_eq!(RobotError::MultipleRoots.message(), "Multiple roots in URDF");
    assert_eq!(
        RobotError::MissingLink(owned("left_arm 2's ~")).message(),
        "Link \"left_arm 2's ~\" missing from map"
    );
    assert_eq!(
        RobotError::MissingLink(owned("left \"arm\"")).message(),
        "Link \"left \\\"arm\\\"\" missing from map"
    );
    assert_eq!(
        RobotError::RosPackage(owned("package://arm/arm.stl")).message(),
        "ROS package resources are not supported: package://arm/arm.stl"
    );
    assert_eq!(
        RobotError::UnknownScheme {
            scheme: owned("https"),
            resource: owned("https://host/arm.stl"),
        }
        .message(),
        "Unknown resource scheme: \"https\" in https://host/arm.stl"
    );
    assert_eq!(
        RobotError::EndlessWalk.message(),
        "Joints lead round in a circle in URDF"
    );
    assert_eq!(
        RobotError::NoRootDirectory(owned("arm.stl")).message(),
        "No root directory set for URDF, cannot load resource: arm.stl"
    );
}

#[test]
fn texts_are_compared_and_joined() {
    assert!(same_text("", ""));
    assert!(same_text("grün", "grün"));
    assert!(!same_text("arm", "Arm"));
    assert!(!same_text("arm", "arms"));
    assert!(eq_ignore_ascii_case("uRdF", "URDF"));
    assert!(!eq_ignore_ascii_case("É", "é"));
    assert!(!eq_ignore_ascii_case("urd", "urdf"));
    assert!(!eq_ignore_ascii_case("[", "{"));
    assert_eq!(joined("visual_", "3"), "visual_3");
    assert_eq!(characters("aé\n"), vec!['a', 'é', '\n']);
}

#[test]
fn texts_are_split_at_the_first_delimiter() {
    assert_eq!(split_once("a://b://c", "://"), Some((owned("a"), owned("b://c"))));
    assert_eq!(split_once("é::x", "::"), Some((owned("é"), owned("x"))));
    assert_eq!(split_once("://", "://"), Some((owned(""), owned(""))));
    assert_eq!(split_once("a:/b", "://"), None);
    assert_eq!(split_once("", "://"), None);
}

#[test]
fn split_parts_make_up_the_text_again() {
    let text = "scheme://host/path";
    let (before, behind) = split_once(text, "://").unwrap();
    assert_eq!(joined(&joined(&before, "://"), &behind), text);
    assert_eq!(split_once(&before, "://"), None);
}

#[test]
fn numbers_are_written_in_decimal() {
    assert_eq!(to_decimal(0), "0");
    assert_eq!(to_decimal(9), "9");
    assert_eq!(to_decimal(10), "10");
    assert_eq!(to_decimal(1203), "1203");
    assert_eq!(to_decimal(4294967295), "4294967295");
}

#[test]
fn files_are_read_at_their_full_paths() {
    let file = |dir: &str, path: &str| {
        ResourceFile::InDir { dir: owned(dir), path: owned(path) }.full_path()
    };
    assert_eq!(ResourceFile::At(owned("a/b.stl")).full_path(), "a/b.stl");
    assert_eq!(file("robots", "/meshes/a.stl"), "/meshes/a.stl");
    assert_eq!(file("", "a.stl"), "a.stl");
    assert_eq!(file("/", "a.stl"), "/a.stl");
    let joined = file("robots", "meshes/a.stl");
    assert!(joined == "robots/meshes/a.stl" || joined == "robots\\meshes/a.stl");
}

#[test]
fn paths_of_any_platform_have_their_extension() {
    assert!(is_urdf_file("C:\\robots\\arm.urdf"));
    assert!(is_urdf_file("C:arm.URDF"));
    assert!(is_urdf_file("robots\\arm.urdf"));
    assert!(!is_urdf_file("C:\\robots\\arm.xml"));
    assert!(!is_urdf_file("C:\\robots\\arm"));
    assert_eq!(mesh_media_type("C:\\meshes\\arm.stl"), Some(owned("model/stl")));
    assert_eq!(mesh_media_type("C:\\meshes\\arm"), None);
}

#[test]
fn ordinary_texts_are_readable() {
    assert!(is_readable(""));
    assert!(is_readable("<robot name=\"r\"><link name=\"a\"/></robot>"));
    assert!(is_readable("<robot xmlns=\"http://www.ros.org\" name=\"r\"/>"));
    assert!(is_readable("<robot xmlns:xacro=\"http://www.ros.org/wiki/xacro\" name=\"r\"/>"));
    assert!(is_readable("<robot xmlns:a=\"u\" xmlns:b=\"v\" name=\"r\"/>"));
    assert!(is_readable("<!-- Note : xmlns is not used --><robot name=\"r\"/>"));
    assert!(is_readable("<p:robot xmlns:p=\"u\"><p:link p:name=\"a\"></p:link ></p:robot>"));
}

#[test]
fn long_rows_of_brackets_in_cdata_are_not_readable() {
    let longest = "]".repeat(255);
    assert!(is_readable(&format!("<a><![CDATA[{longest}>]]></a>")));
    assert!(is_readable(&format!("<a><![CDATA[{longest} {longest}>]]></a>")));
    assert!(!is_readable(&format!("<a><![CDATA[{longest}]>]]></a>")));
    assert!(is_readable(&format!("<a>{longest}]</a>")));
    assert!(is_readable(&format!("<a b='{longest}]'/>")));
    assert!(is_readable(&format!("<a><!--{longest}]--></a>")));
    assert!(is_readable(&format!("<a></a><![CDATA[{longest}]]]>")));
}

#[test]
fn odd_namespaces_are_not_readable() {
    assert!(!is_readable("<robot xmlns:xmlns=\"u\"/>"));
    assert!(!is_readable("<robot xmlns:=\"u\"/>"));
    assert!(!is_readable("<robot xmlns: \t=\"u\"/>"));
    assert!(!is_readable("<robot xmlns=\"u\" :name=\"r\"/>"));
    assert!(!is_readable("<robot xmlns = \"u\":name=\"r\"/>"));
    assert!(!is_readable("<robot xmlns=\"u\"><link :name=\"r\"/></robot>"));
    assert!(!is_readable("<robot xmlns=\"u\"><joint><a :b=\"r\"/></joint></robot>"));
    assert!(!is_readable("<robot xmlns:xmlns=\"&#x75;\" xmlns:p=\"v\"><p:link/></robot>"));
    assert!(is_readable("<robot :name=\"r\"/>"));
    assert!(is_readable("<robot xmlns=\"u\" xmlns:p=\"u\" :name=\"r\"/>"));
    assert!(is_readable("<robot xmlns=\"&lt;+&#x2B;\" xmlns:p=\"&#60;&#+43;+\" :name=\"r\"/>"));
    assert!(!is_readable("<robot xmlns=\"a\" xmlns:p=\"&#98;\" :name=\"r\"/>"));
    assert!(is_readable("<robot xmlns=\"u\"><link><gazebo :a=\"b\"/></link></robot>"));
    assert!(is_readable("<robot xmlns=\"u\" a='&nothing;' :name=\"r\"/>"));
}

#[test]
fn entities_are_looked_at_however_many_there_are() {
    let many = "&amp;&#65;x".repeat(20_000);
    assert!(is_readable(&format!("<robot name=\"{many}\"/>")));
    assert!(is_readable(&format!("<robot name=\"{many}&amp\"/>")));
    assert!(is_readable(&format!("<p:robot xmlns:p=\"{many}\"/>")));
}
