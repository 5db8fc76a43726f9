//! Where two loadings come to the same.

use vstd::prelude::*;
use vstd::utf8::{decode_utf8, encode_utf8, valid_utf8};

use crate::ends::law_found_link_has_its_name;
use crate::loader::{
    contents_loaded_as, loaded, loaded_as, loaded_contents, lossy_text, LoadError, Reading,
};
use crate::log::{collisions_log, link_log, visuals_log};
use crate::path::{common_extension, has_common_extension, is_portable, urdf_extension};
use crate::robot::{views, GeometryView, JointView, LinkView, RobotView};
use crate::step::Step;
use crate::text::split_at_first;
use crate::tree::{tree_of, TreeView};
use crate::urdf::urdf_document;
use crate::walk::{robot_log, walk, walk_joints};
use crate::xml::{readable, unambiguous};

verus! {

/// Whether a shape is found wherever the robot's file stands: it is no mesh, or a mesh that is
/// given with a scheme.
pub open spec fn is_rooted(geometry: GeometryView) -> bool {
    geometry matches GeometryView::Mesh { filename, .. } ==> split_at_first(filename, "://"@)
        is Some
}

/// Whether all shapes of a link are found wherever the robot's file stands.
pub open spec fn is_rooted_link(link: LinkView) -> bool {
    &&& forall|k: int|
        0 <= k < link.visual.len() ==> is_rooted((#[trigger] link.visual[k]).geometry)
    &&& forall|k: int|
        0 <= k < link.collision.len() ==> is_rooted((#[trigger] link.collision[k]).geometry)
}

/// Whether all shapes of a robot are found wherever its file stands.
pub open spec fn is_rooted_robot(robot: RobotView) -> bool {
    forall|i: int| 0 <= i < robot.links.len() ==> is_rooted_link(#[trigger] robot.links[i])
}

/// The same tree, with its file in another directory.
spec fn moved(tree: TreeView, dir: Option<Seq<char>>) -> TreeView {
    TreeView { urdf_dir: dir, ..tree }
}

proof fn lemma_link_moved(
    tree: TreeView,
    dir: Option<Seq<char>>,
    link: LinkView,
    path: Seq<Seq<char>>,
)
    requires
        is_rooted_link(link),
    ensures
        link_log(moved(tree, dir), link, path) == link_log(tree, link, path),
{
    lemma_visuals_moved(tree, dir, link, path, link.visual.len());
    lemma_collisions_moved(tree, dir, link, path, link.collision.len());
}

proof fn lemma_visuals_moved(
    tree: TreeView,
    dir: Option<Seq<char>>,
    link: LinkView,
    path: Seq<Seq<char>>,
    n: nat,
)
    requires
        is_rooted_link(link),
        n <= link.visual.len(),
    ensures
        visuals_log(moved(tree, dir), path, link.visual, n) == visuals_log(
            tree,
            path,
            link.visual,
            n,
        ),
    decreases n,
{
    if n > 0 {
        lemma_visuals_moved(tree, dir, link, path, (n - 1) as nat);
        assert(is_rooted(link.visual[n - 1].geometry));
    }
}

proof fn lemma_collisions_moved(
    tree: TreeView,
    dir: Option<Seq<char>>,
    link: LinkView,
    path: Seq<Seq<char>>,
    n: nat,
)
    requires
        is_rooted_link(link),
        n <= link.collision.len(),
    ensures
        collisions_log(moved(tree, dir), path, link.collision, n) == collisions_log(
            tree,
            path,
            link.collision,
            n,
        ),
    decreases n,
{
    if n > 0 {
        lemma_collisions_moved(tree, dir, link, path, (n - 1) as nat);
        assert(is_rooted(link.collision[n - 1].geometry));
    }
}

proof fn lemma_walk_moved(
    tree: TreeView,
    dir: Option<Seq<char>>,
    p: Seq<Seq<char>>,
    link: Seq<char>,
    depth: nat,
)
    requires
        is_rooted_robot(tree.robot),
    ensures
        walk(moved(tree, dir), p, link, depth) == walk(tree, p, link, depth),
    decreases depth, 0nat,
{
    if let Some(found) = tree.link(link) {
        let path = p.push(link);
        let joints = tree.children(link);
        law_found_link_has_its_name(tree.robot.links, link);
        let i = choose|i: int| 0 <= i < tree.robot.links.len() && tree.robot.links[i] == found;
        assert(is_rooted_link(tree.robot.links[i]));
        lemma_link_moved(tree, dir, found, path);
        if depth > 0 {
            lemma_joints_moved(tree, dir, path, joints, joints.len(), (depth - 1) as nat);
        }
    }
}

proof fn lemma_joints_moved(
    tree: TreeView,
    dir: Option<Seq<char>>,
    p: Seq<Seq<char>>,
    joints: Seq<JointView>,
    n: nat,
    depth: nat,
)
    requires
        is_rooted_robot(tree.robot),
    ensures
        walk_joints(moved(tree, dir), p, joints, n, depth) == walk_joints(
            tree,
            p,
            joints,
            n,
            depth,
        ),
    decreases depth, n + 1,
{
    if n > 0 {
        let joint = joints[n - 1];
        lemma_joints_moved(tree, dir, p, joints, (n - 1) as nat, depth);
        lemma_walk_moved(tree, dir, p.push(joint.name), joint.child, depth);
    }
}

/// Where all meshes of a robot are given with a scheme, the directory of its file makes no
/// difference.
pub proof fn law_schemes_need_no_directory(
    robot: RobotView,
    a: Option<Seq<char>>,
    b: Option<Seq<char>>,
)
    requires
        is_rooted_robot(robot),
    ensures
        robot_log(robot, a) == robot_log(robot, b),
{
    if let Ok(tree) = tree_of(robot, a) {
        assert(tree_of(robot, b)->Ok_0 == moved(tree, b));
        lemma_walk_moved(tree, b, seq![robot.name], tree.root, robot.links.len());
    }
}

/// Whether two calls gave the same: success, or an error of the same kind with the same words.
pub open spec fn same_result(a: Result<(), LoadError>, b: Result<(), LoadError>) -> bool {
    match (a, b) {
        (Ok(_), Ok(_)) => true,
        (Err(LoadError::Incompatible(p)), Err(LoadError::Incompatible(q))) => p@ == q@,
        (Err(LoadError::Unreadable), Err(LoadError::Unreadable)) => true,
        (Err(LoadError::Parse(_)), Err(LoadError::Parse(_))) => true,
        (Err(LoadError::Robot(e)), Err(LoadError::Robot(f))) => e@ == f@,
        _ => false,
    }
}

/// Loading one file twice comes to the same, if both times its path and its text are read in the
/// same way.
pub proof fn law_loading_follows_the_reading(
    filepath: Seq<char>,
    text: Seq<char>,
    reading: Reading,
    before: Seq<Step>,
    after_a: Seq<Step>,
    a: Result<(), LoadError>,
    after_b: Seq<Step>,
    b: Result<(), LoadError>,
)
    requires
        loaded_as(filepath, text, reading, before, after_a, a),
        loaded_as(filepath, text, reading, before, after_b, b),
    ensures
        views(after_a) == views(after_b),
        same_result(a, b),
{
}

/// Loading from contents that are valid UTF-8 comes to the same as loading from the text that they
/// encode, if both times the path and the text are read in the same way.
pub proof fn law_contents_are_read_like_their_text(
    filepath: Seq<char>,
    contents: Seq<u8>,
    reading: Reading,
    before: Seq<Step>,
    after_a: Seq<Step>,
    a: Result<(), LoadError>,
    after_b: Seq<Step>,
    b: Result<(), LoadError>,
)
    requires
        valid_utf8(contents),
        contents_loaded_as(filepath, contents, reading, before, after_a, a),
        loaded_as(filepath, decode_utf8(contents), reading, before, after_b, b),
    ensures
        views(after_a) == views(after_b),
        same_result(a, b),
{
}

/// Loading from contents comes to the same as loading from the bytes of the text that is made of
/// them, if both times the path and the text are read in the same way.
pub proof fn law_contents_are_read_like_their_lossy_text(
    filepath: Seq<char>,
    contents: Seq<u8>,
    reading: Reading,
    before: Seq<Step>,
    after_a: Seq<Step>,
    a: Result<(), LoadError>,
    after_b: Seq<Step>,
    b: Result<(), LoadError>,
)
    requires
        contents_loaded_as(filepath, contents, reading, before, after_a, a),
        contents_loaded_as(
            filepath,
            encode_utf8(lossy_text(contents)),
            reading,
            before,
            after_b,
            b,
        ),
    ensures
        views(after_a) == views(after_b),
        same_result(a, b),
{
    let text = lossy_text(contents);
    vstd::utf8::encode_utf8_valid_utf8(text);
    vstd::utf8::encode_utf8_decode_utf8(text);
}

/// Whatever may come of loading from contents that are valid UTF-8 may come of loading from the
/// text that they encode.
pub proof fn law_contents_may_load_like_their_text(
    filepath: Seq<char>,
    contents: Seq<u8>,
    before: Seq<Step>,
    after: Seq<Step>,
    result: Result<(), LoadError>,
)
    requires
        valid_utf8(contents),
        loaded_contents(filepath, contents, before, after, result),
    ensures
        loaded(filepath, decode_utf8(contents), before, after, result),
{
    let reading = choose|reading: Reading| #[trigger]
        contents_loaded_as(filepath, contents, reading, before, after, result);
    assert(loaded_as(filepath, decode_utf8(contents), reading, before, after, result));
}

/// Whether what comes of loading is the same everywhere. The file has the same extension on every
/// platform, and one of these holds: it is not that of URDF files; the text cannot be read; or in
/// the text the same is found in every process, and that is no robot, or one whose shapes are found
/// wherever its file stands, or every platform finds the same directory in the path.
pub open spec fn is_determined(filepath: Seq<char>, text: Seq<char>) -> bool {
    &&& has_common_extension(filepath)
    &&& {
        ||| !urdf_extension(common_extension(filepath))
        ||| !readable(text)
        ||| unambiguous(text) && (is_portable(filepath) || (urdf_document(text) matches Some(robot)
            ==> is_rooted_robot(robot)))
    }
}

/// Loading one file twice comes to the same, where what comes of it is the same everywhere.
pub proof fn law_loading_is_repeatable(
    filepath: Seq<char>,
    text: Seq<char>,
    before: Seq<Step>,
    after_a: Seq<Step>,
    a: Result<(), LoadError>,
    after_b: Seq<Step>,
    b: Result<(), LoadError>,
)
    requires
        is_determined(filepath, text),
        loaded(filepath, text, before, after_a, a),
        loaded(filepath, text, before, after_b, b),
    ensures
        views(after_a) == views(after_b),
        same_result(a, b),
{
    let x = choose|reading: Reading| #[trigger]
        loaded_as(filepath, text, reading, before, after_a, a);
    let y = choose|reading: Reading| #[trigger]
        loaded_as(filepath, text, reading, before, after_b, b);
    if unambiguous(text) {
        assert(x.document == y.document);
        if let Some(robot) = x.document {
            if is_rooted_robot(robot) {
                law_schemes_need_no_directory(robot, x.dir, y.dir);
            }
        }
    }
}

/// Loading from contents that are valid UTF-8 comes to the same as loading from the text that they
/// encode, where what comes of it is the same everywhere.
pub proof fn law_contents_load_like_their_text(
    filepath: Seq<char>,
    contents: Seq<u8>,
    before: Seq<Step>,
    after_a: Seq<Step>,
    a: Result<(), LoadError>,
    after_b: Seq<Step>,
    b: Result<(), LoadError>,
)
    requires
        is_determined(filepath, decode_utf8(contents)),
        valid_utf8(contents),
        loaded_contents(filepath, contents, before, after_a, a),
        loaded(filepath, decode_utf8(contents), before, after_b, b),
    ensures
        views(after_a) == views(after_b),
        same_result(a, b),
{
    let text = decode_utf8(contents);
    law_contents_may_load_like_their_text(filepath, contents, before, after_a, a);
    law_loading_is_repeatable(filepath, text, before, after_a, a, after_b, b);
}

/// Loading from contents comes to the same as loading from the bytes of the text that is made of
/// them, where what comes of it is the same everywhere: what is no UTF-8 is replaced, and is no
/// error by itself.
pub proof fn law_contents_load_like_their_lossy_text(
    filepath: Seq<char>,
    contents: Seq<u8>,
    before: Seq<Step>,
    after_a: Seq<Step>,
    a: Result<(), LoadError>,
    after_b: Seq<Step>,
    b: Result<(), LoadError>,
)
    requires
        is_determined(filepath, lossy_text(contents)),
        loaded_contents(filepath, contents, before, after_a, a),
        loaded_contents(filepath, encode_utf8(lossy_text(contents)), before, after_b, b),
    ensures
        views(after_a) == views(after_b),
        same_result(a, b),
{
    let text = lossy_text(contents);
    let reading = choose|reading: Reading| #[trigger]
        contents_loaded_as(filepath, contents, reading, before, after_a, a);
    assert(loaded_as(filepath, text, reading, before, after_a, a));
    vstd::utf8::encode_utf8_valid_utf8(text);
    vstd::utf8::encode_utf8_decode_utf8(text);
    law_contents_may_load_like_their_text(filepath, encode_utf8(text), before, after_b, b);
    law_loading_is_repeatable(filepath, text, before, after_a, a, after_b, b);
}

} // verus!
