//! A robot arranged as a tree of links.

use vstd::prelude::*;

use crate::error::{RobotError, RobotErrorView};
use crate::index::{
    add_name, find, has_name, names, new_index, new_set, positions, put, NameIndex, NameSet,
};
use crate::robot::{
    views, Joint, JointView, Link, LinkView, Material, MaterialView, RobotView, UrdfRobot,
};
use crate::text::opt_chars;

verus! {

/// The last of the links with the name `name`.
pub open spec fn find_link(links: Seq<LinkView>, name: Seq<char>) -> Option<LinkView>
    decreases links.len(),
{
    if links.len() == 0 {
        None
    } else if links.last().name == name {
        Some(links.last())
    } else {
        find_link(links.drop_last(), name)
    }
}

/// The last of the materials with the name `name`.
pub open spec fn find_material(materials: Seq<MaterialView>, name: Seq<char>) -> Option<
    MaterialView,
>
    decreases materials.len(),
{
    if materials.len() == 0 {
        None
    } else if materials.last().name == name {
        Some(materials.last())
    } else {
        find_material(materials.drop_last(), name)
    }
}

/// The joints that start at the link `parent`, in the order of the robot.
pub open spec fn joints_from(joints: Seq<JointView>, parent: Seq<char>) -> Seq<JointView> {
    joints.filter(|joint: JointView| joint.parent == parent)
}

/// Whether some joint leads to the link `name`.
pub open spec fn is_child(joints: Seq<JointView>, name: Seq<char>) -> bool {
    exists|i: int| 0 <= i < joints.len() && #[trigger] joints[i].child == name
}

impl RobotView {
    /// Whether `name` is a link to which no joint leads.
    pub open spec fn is_root(self, name: Seq<char>) -> bool {
        find_link(self.links, name) is Some && !is_child(self.joints, name)
    }
}

/// What a `UrdfTree` stands for.
pub struct TreeView {
    pub urdf_dir: Option<Seq<char>>,
    pub robot: RobotView,
    pub root: Seq<char>,
}

impl TreeView {
    /// The link `name`.
    pub open spec fn link(self, name: Seq<char>) -> Option<LinkView> {
        find_link(self.robot.links, name)
    }

    /// The joints that start at the link `name`.
    pub open spec fn children(self, name: Seq<char>) -> Seq<JointView> {
        joints_from(self.robot.joints, name)
    }

    /// The material `name`.
    pub open spec fn material(self, name: Seq<char>) -> Option<MaterialView> {
        find_material(self.robot.materials, name)
    }
}

/// The tree of a robot, which hangs on the one link that is no joint's child.
pub open spec fn tree_of(robot: RobotView, urdf_dir: Option<Seq<char>>) -> Result<
    TreeView,
    RobotErrorView,
> {
    if forall|name: Seq<char>| !robot.is_root(name) {
        Err(RobotErrorView::NoRoot)
    } else if exists|a: Seq<char>, b: Seq<char>|
        a != b && #[trigger] robot.is_root(a) && #[trigger] robot.is_root(b) {
        Err(RobotErrorView::MultipleRoots)
    } else {
        Ok(TreeView { urdf_dir, robot, root: choose|name: Seq<char>| robot.is_root(name) })
    }
}

/// A robot with a way to find its links, the joints of a link, and its materials by name.
pub struct UrdfTree {
    /// The directory of the robot's file, from which relative paths to meshes start.
    urdf_dir: Option<String>,
    robot: UrdfRobot,
    root: usize,
    links: NameIndex,
    groups: Vec<Vec<usize>>,
    children: NameIndex,
    materials: NameIndex,
}

/// Whether `index` finds each link by its name.
spec fn indexes_links(index: NameIndex, links: Seq<LinkView>) -> bool {
    forall|name: Seq<char>| #[trigger]
        find_link(links, name) == (if positions(index).contains_key(name) {
            Some(links[positions(index)[name] as int])
        } else {
            None
        }) && (positions(index).contains_key(name) ==> positions(index)[name] < links.len()
            && links[positions(index)[name] as int].name == name)
}

/// Whether `index` finds each material by its name.
spec fn indexes_materials(index: NameIndex, materials: Seq<MaterialView>) -> bool {
    forall|name: Seq<char>| #[trigger]
        find_material(materials, name) == (if positions(index).contains_key(name) {
            Some(materials[positions(index)[name] as int])
        } else {
            None
        }) && (positions(index).contains_key(name) ==> positions(index)[name] < materials.len())
}

/// The joints at the given positions.
spec fn picked(joints: Seq<JointView>, at: Seq<usize>) -> Seq<JointView> {
    at.map_values(|i: usize| joints[i as int])
}

/// Whether `index` finds for each link the group of the joints that start there. Groups hold
/// positions in `all`, of which `joints` is the part dealt with.
spec fn indexes_joints(
    index: NameIndex,
    groups: Seq<Vec<usize>>,
    joints: Seq<JointView>,
    all: Seq<JointView>,
) -> bool {
    &&& forall|name: Seq<char>| #[trigger]
        joints_from(joints, name) == (if positions(index).contains_key(name) {
            picked(all, groups[positions(index)[name] as int]@)
        } else {
            seq![]
        })
    &&& forall|name: Seq<char>| #[trigger]
        positions(index).contains_key(name) ==> positions(index)[name] < groups.len()
    &&& forall|a: Seq<char>, b: Seq<char>|
        #![trigger positions(index)[a], positions(index)[b]]
        positions(index).contains_key(a) && positions(index).contains_key(b) && a != b
            ==> positions(index)[a] != positions(index)[b]
    &&& forall|g: int, k: int|
        0 <= g < groups.len() && 0 <= k < groups[g].len() ==> #[trigger] groups[g]@[k]
            < all.len()
}

impl View for UrdfTree {
    type V = TreeView;

    closed spec fn view(&self) -> TreeView {
        TreeView {
            urdf_dir: opt_chars(self.urdf_dir),
            robot: self.robot@,
            root: self.robot@.links[self.root as int].name,
        }
    }
}

proof fn lemma_views_push<T: View>(s: Seq<T>, i: int)
    requires
        0 <= i < s.len(),
    ensures
        views(s).take(i + 1) == views(s).take(i).push(s[i]@),
        views(s).take(i + 1).drop_last() == views(s).take(i),
        views(s).take(i + 1).last() == s[i]@,
{
    assert(views(s).take(i + 1) =~= views(s).take(i).push(s[i]@));
    assert(views(s).take(i + 1).drop_last() =~= views(s).take(i));
}

/// Enters each link under its name; of links with one name the last counts.
fn index_links(links: &Vec<Link>) -> (index: NameIndex)
    ensures
        indexes_links(index, views(links@)),
{
    let mut index: NameIndex = new_index();
    let mut i: usize = 0;
    while i < links.len()
        invariant
            i <= links.len(),
            indexes_links(index, views(links@).take(i as int)),
        decreases links.len() - i,
    {
        put(&mut index, links[i].name.clone(), i);
        proof {
            lemma_views_push(links@, i as int);
            let done = views(links@).take(i as int);
            let more = views(links@).take(i + 1);
            assert forall|name: Seq<char>| #[trigger]
                find_link(more, name) == (if positions(index).contains_key(name) {
                    Some(more[positions(index)[name] as int])
                } else {
                    None
                }) && (positions(index).contains_key(name) ==> positions(index)[name] < more.len()
                    && more[positions(index)[name] as int].name == name) by {
                assert(find_link(done, name) == find_link(more.drop_last(), name));
            }
        }
        i = i + 1;
    }
    assert(views(links@).take(i as int) =~= views(links@));
    index
}

/// Enters each material under its name; of materials with one name the last counts.
fn index_materials(materials: &Vec<Material>) -> (index: NameIndex)
    ensures
        indexes_materials(index, views(materials@)),
{
    let mut index: NameIndex = new_index();
    let mut i: usize = 0;
    while i < materials.len()
        invariant
            i <= materials.len(),
            indexes_materials(index, views(materials@).take(i as int)),
        decreases materials.len() - i,
    {
        put(&mut index, materials[i].name.clone(), i);
        proof {
            lemma_views_push(materials@, i as int);
            let done = views(materials@).take(i as int);
            let more = views(materials@).take(i + 1);
            assert forall|name: Seq<char>| #[trigger]
                find_material(more, name) == (if positions(index).contains_key(name) {
                    Some(more[positions(index)[name] as int])
                } else {
                    None
                }) && (positions(index).contains_key(name) ==> positions(index)[name]
                    < more.len()) by {
                assert(find_material(done, name) == find_material(more.drop_last(), name));
            }
        }
        i = i + 1;
    }
    assert(views(materials@).take(i as int) =~= views(materials@));
    index
}

/// Groups the joints by the link at which they start.
fn index_joints(joints: &Vec<Joint>) -> (table: (NameIndex, Vec<Vec<usize>>))
    ensures
        indexes_joints(table.0, table.1@, views(joints@), views(joints@)),
{
    let mut index: NameIndex = new_index();
    let mut groups: Vec<Vec<usize>> = Vec::new();
    let mut i: usize = 0;
    proof {
        reveal(Seq::filter);
        assert forall|name: Seq<char>| #[trigger]
            joints_from(views(joints@).take(0), name) == Seq::<JointView>::empty() by {}
    }
    while i < joints.len()
        invariant
            i <= joints.len(),
            indexes_joints(index, groups@, views(joints@).take(i as int), views(joints@)),
        decreases joints.len() - i,
    {
        let ghost index0 = index;
        let ghost groups0 = groups@;
        let ghost all = views(joints@);
        let ghost parent = joints@[i as int].parent@;
        match find(&index, joints[i].parent.as_str()) {
            Some(g) => {
                groups[g].push(i);
            },
            None => {
                let mut group: Vec<usize> = Vec::new();
                group.push(i);
                put(&mut index, joints[i].parent.clone(), groups.len());
                groups.push(group);
            },
        }
        proof {
            lemma_views_push(joints@, i as int);
            let done = all.take(i as int);
            let more = all.take(i + 1);
            assert forall|name: Seq<char>| #[trigger]
                joints_from(more, name) == (if positions(index).contains_key(name) {
                    picked(all, groups@[positions(index)[name] as int]@)
                } else {
                    seq![]
                }) by {
                reveal(Seq::filter);
                assert(joints_from(done, name) == joints_from(more.drop_last(), name));
                if name == parent {
                    let now = groups@[positions(index)[name] as int]@;
                    assert(picked(all, now) =~= joints_from(done, name).push(all[i as int]));
                } else if positions(index).contains_key(name) {
                    assert(positions(index0).contains_key(name));
                    let g = positions(index)[name] as int;
                    if positions(index0).contains_key(parent) {
                        assert(positions(index0)[parent] != positions(index0)[name]);
                    }
                    assert(groups@[g] == groups0[g]);
                }
            }
            assert forall|name: Seq<char>| #[trigger]
                positions(index).contains_key(name) implies positions(index)[name]
                < groups.len() by {
                if name != parent {
                    assert(positions(index0).contains_key(name));
                }
            }
            assert forall|a: Seq<char>, b: Seq<char>|
                #![trigger positions(index)[a], positions(index)[b]]
                positions(index).contains_key(a) && positions(index).contains_key(b) && a
                    != b implies positions(index)[a] != positions(index)[b] by {
                if positions(index0).contains_key(a) && positions(index0).contains_key(b) {
                    assert(positions(index0)[a] != positions(index0)[b]);
                }
            }
            assert forall|g: int, k: int|
                0 <= g < groups.len() && 0 <= k < groups@[g].len() implies #[trigger] groups@[g]@[k]
                < all.len() by {
                if g < groups0.len() && k < groups0[g].len() {
                    assert(groups0[g]@[k] < all.len());
                    assert(groups@[g]@[k] == groups0[g]@[k]);
                }
            }
        }
        i = i + 1;
    }
    assert(views(joints@).take(i as int) =~= views(joints@));
    (index, groups)
}

/// The names of the links to which a joint leads.
fn child_links(joints: &Vec<Joint>) -> (set: NameSet)
    ensures
        forall|name: Seq<char>| #[trigger]
            names(set).contains(name) == is_child(views(joints@), name),
{
    let mut set: NameSet = new_set();
    let mut i: usize = 0;
    while i < joints.len()
        invariant
            i <= joints.len(),
            forall|name: Seq<char>| #[trigger]
                names(set).contains(name) == is_child(views(joints@).take(i as int), name),
        decreases joints.len() - i,
    {
        let ghost before = set;
        add_name(&mut set, joints[i].child.clone());
        proof {
            let done = views(joints@).take(i as int);
            let more = views(joints@).take(i + 1);
            assert forall|name: Seq<char>| #[trigger]
                names(set).contains(name) == is_child(more, name) by {
                assert(names(before).contains(name) == is_child(done, name));
                if is_child(done, name) {
                    let k = choose|k: int|
                        0 <= k < done.len() && #[trigger] done[k].child == name;
                    assert(more[k].child == name);
                }
                if name == joints@[i as int].child@ {
                    assert(more[i as int].child == name);
                }
                if is_child(more, name) {
                    let k = choose|k: int|
                        0 <= k < more.len() && #[trigger] more[k].child == name;
                    if k < i {
                        assert(done[k].child == name);
                    }
                }
            }
        }
        i = i + 1;
    }
    assert(views(joints@).take(i as int) =~= views(joints@));
    set
}

impl UrdfTree {
    /// Whether the tables of the tree agree with its robot.
    #[verifier::type_invariant]
    spec fn wf(self) -> bool {
        &&& self.root < self.robot@.links.len()
        &&& positions(self.links).contains_key(self.robot@.links[self.root as int].name)
        &&& positions(self.links)[self.robot@.links[self.root as int].name] == self.root
        &&& indexes_links(self.links, self.robot@.links)
        &&& indexes_materials(self.materials, self.robot@.materials)
        &&& indexes_joints(self.children, self.groups@, self.robot@.joints, self.robot@.joints)
    }

    /// Arranges a robot as a tree. `urdf_dir` is the directory of the robot's file.
    pub fn new(robot: UrdfRobot, urdf_dir: Option<String>) -> (tree: Result<UrdfTree, RobotError>)
        ensures
            match tree {
                Ok(tree) => tree_of(robot@, opt_chars(urdf_dir)) == Ok::<TreeView, RobotErrorView>(
                    tree@,
                ),
                Err(e) => tree_of(robot@, opt_chars(urdf_dir)) == Err::<TreeView, RobotErrorView>(
                    e@,
                ),
            },
    {
        let materials: NameIndex = index_materials(&robot.materials);
        let links: NameIndex = index_links(&robot.links);
        let (children, groups) = index_joints(&robot.joints);
        let child_links: NameSet = child_links(&robot.joints);
        let ghost model = robot@;

        let mut root: Option<usize> = None;
        let mut i: usize = 0;
        while i < robot.links.len()
            invariant
                i <= robot.links.len(),
                model == robot@,
                indexes_links(links, model.links),
                forall|name: Seq<char>| #[trigger]
                    names(child_links).contains(name) == is_child(model.joints, name),
                root matches Some(r) ==> r < i && model.is_root(model.links[r as int].name)
                    && positions(links)[model.links[r as int].name] == r,
                forall|name: Seq<char>|
                    #![trigger model.is_root(name)]
                    model.is_root(name) && positions(links)[name] < i ==> root is Some
                        && model.links[root->0 as int].name == name,
            decreases robot.links.len() - i,
        {
            let name: &str = robot.links[i].name.as_str();
            assert(model.links[i as int].name == name@);
            let is_last: bool = match find(&links, name) {
                Some(at) => at == i,
                None => false,
            };
            assert(is_last ==> find_link(model.links, name@) is Some);
            if is_last && !has_name(&child_links, name) {
                assert(model.is_root(name@));
                if root.is_some() {
                    proof {
                        let other = model.links[root->0 as int].name;
                        assert(model.is_root(other) && model.is_root(name@) && other != name@);
                    }
                    return Err(RobotError::MultipleRoots);
                }
                root = Some(i);
            }
            proof {
                assert forall|n: Seq<char>|
                    #![trigger model.is_root(n)]
                    model.is_root(n) && positions(links)[n] < i + 1 implies root is Some
                    && model.links[root->0 as int].name == n by {
                    assert(find_link(model.links, n) is Some);
                    if positions(links)[n] == i {
                        assert(model.links[i as int].name == n);
                    }
                }
            }
            i = i + 1;
        }
        match root {
            None => {
                assert forall|name: Seq<char>| !model.is_root(name) by {
                    if model.is_root(name) {
                        assert(find_link(model.links, name) is Some);
                    }
                }
                Err(RobotError::NoRoot)
            },
            Some(root) => {
                proof {
                    let only = model.links[root as int].name;
                    assert forall|name: Seq<char>| model.is_root(name) implies name == only by {
                        assert(find_link(model.links, name) is Some);
                    }
                    assert(model.is_root(only));
                    assert(find_link(model.links, only) is Some);
                }
                Ok(UrdfTree { urdf_dir, robot, root, links, groups, children, materials })
            },
        }
    }

    /// The directory of the robot's file.
    pub fn urdf_dir(&self) -> (dir: &Option<String>)
        ensures
            opt_chars(*dir) == self@.urdf_dir,
    {
        &self.urdf_dir
    }

    /// The name of the robot.
    pub fn name(&self) -> (name: &str)
        ensures
            name@ == self@.robot.name,
    {
        self.robot.name.as_str()
    }

    /// The number of links that the robot lists.
    pub fn link_count(&self) -> (n: usize)
        ensures
            n == self@.robot.links.len(),
    {
        self.robot.links.len()
    }

    /// The link to which no joint leads.
    pub fn root(&self) -> (root: &Link)
        ensures
            root@.name == self@.root,
            self@.link(self@.root) == Some(root@),
    {
        proof {
            use_type_invariant(self);
            assert(find_link(self@.robot.links, self@.root) == self@.link(self@.root));
        }
        &self.robot.links[self.root]
    }

    /// Finds a link by its name.
    pub fn link(&self, name: &str) -> (link: Option<&Link>)
        ensures
            match link {
                Some(link) => self@.link(name@) == Some(link@),
                None => self@.link(name@) is None,
            },
    {
        proof {
            use_type_invariant(self);
            assert(find_link(self@.robot.links, name@) == self@.link(name@));
        }
        match find(&self.links, name) {
            Some(at) => Some(&self.robot.links[at]),
            None => None,
        }
    }

    /// Finds a material by its name.
    pub fn material(&self, name: &str) -> (material: Option<&Material>)
        ensures
            match material {
                Some(material) => self@.material(name@) == Some(material@),
                None => self@.material(name@) is None,
            },
    {
        proof {
            use_type_invariant(self);
            assert(find_material(self@.robot.materials, name@) == self@.material(name@));
        }
        match find(&self.materials, name) {
            Some(at) => Some(&self.robot.materials[at]),
            None => None,
        }
    }

    /// The joints that start at the link `name`, in the order of the robot.
    pub fn children(&self, name: &str) -> (joints: Vec<&Joint>)
        ensures
            views(joints@) == self@.children(name@),
    {
        proof {
            use_type_invariant(self);
            assert(joints_from(self@.robot.joints, name@) == self@.children(name@));
        }
        let mut joints: Vec<&Joint> = Vec::new();
        if let Some(g) = find(&self.children, name) {
            let group: &Vec<usize> = &self.groups[g];
            let mut k: usize = 0;
            while k < group.len()
                invariant
                    k <= group.len(),
                    forall|m: int| 0 <= m < group.len() ==> #[trigger] group@[m]
                        < self.robot.joints.len(),
                    views(joints@) == picked(self.robot@.joints, group@.take(k as int)),
                decreases group.len() - k,
            {
                let ghost before = joints@;
                let joint: &Joint = &self.robot.joints[group[k]];
                joints.push(joint);
                proof {
                    let all = self.robot@.joints;
                    assert(views(joints@) =~= views(before).push(joint@));
                    assert(picked(all, group@.take(k + 1)) =~= picked(
                        all,
                        group@.take(k as int),
                    ).push(all[group@[k as int] as int]));
                }
                k = k + 1;
            }
            assert(group@.take(k as int) =~= group@);
        }
        assert(views(joints@) =~= self@.children(name@));
        joints
    }
}

} // verus!
