//! The deployment: from the list of modules and the real filesystem to the
//! mount plan of the merged view.

use vstd::prelude::*;
use crate::custom::{CustomModule, CustomView};
use crate::fs::{resolved, FsNode};
use crate::module_list::{
    loaded, magisk_bins, tmp_path, tmp_path_spec, zygisk_bins, ModuleInfo, ModuleList,
};
use crate::mount::dir_plan;
use crate::name::{append, SLASH};
use crate::name_map::find;
use crate::node::Node;
use crate::ops::{ops_view, MountOp, OpView, Workspace};
use crate::source::sources_view;
use crate::merge::paths_view;
use crate::tree::{base_value, conflicts_of, tree_module, tree_of};
use crate::words::{bytes, text};

verus! {

/// Where a deployment finds its files: the staging area, the name of the
/// directory below the temporary root in which the modules lie, and whether
/// the machine has 64 bits.
#[derive(Clone, Debug, PartialEq, Eq)]
pub struct Environment {
    pub ws: Workspace,
    pub modules: Vec<u8>,
    pub wide: bool,
}

/// One part of a deployment: the operations that mount one tree at `dest`.
/// Where an operation of a part fails that is not `fatal`, the rest of that
/// part is given up and the next part is begun; where the part is `fatal`,
/// the deployment has failed.
#[derive(Clone, Debug, PartialEq, Eq)]
pub struct MountSection {
    pub dest: Vec<u8>,
    pub ops: Vec<MountOp>,
    pub fatal: bool,
}

/// What a deployment is planned to do and what it found: the parts that
/// mount the merged view, and the conflicts between the sources, each
/// given by the path of an entry that lost its name to a source of higher
/// rank.
#[derive(Clone, Debug, PartialEq, Eq)]
pub struct Deployment {
    pub sections: Vec<MountSection>,
    pub conflicts: Vec<Vec<u8>>,
}

/// A part of a deployment as a mathematical value.
pub ghost struct SectionView {
    pub dest: Seq<u8>,
    pub ops: Seq<OpView>,
    pub fatal: bool,
}

impl MountSection {
    /// The part as a mathematical value.
    pub open spec fn view(&self) -> SectionView {
        SectionView { dest: self.dest@, ops: ops_view(self.ops@), fatal: self.fatal }
    }
}

/// The views of a list of parts.
pub open spec fn sections_view(v: Seq<MountSection>) -> Seq<SectionView> {
    Seq::new(v.len(), |i: int| v[i]@)
}

/// The views of a list of virtual trees.
pub open spec fn custom_views(v: Seq<CustomModule>) -> Seq<CustomView> {
    Seq::new(v.len(), |i: int| v[i]@)
}

/// The virtual trees of a deployment: first the tools, where a directory
/// for them is asked for, then the library, where one is asked for.
pub open spec fn injected(
    zygisk_lib: Option<Seq<u8>>,
    magisk_path: Option<Seq<u8>>,
    root: FsNode,
    env: Environment,
) -> Seq<CustomView> {
    let tools = match magisk_path {
        Some(p) => seq![CustomView::Dir { children: magisk_bins(p, env.ws.tmp@) }],
        None => Seq::empty(),
    };
    let library = match zygisk_lib {
        Some(lib) => seq![
            CustomView::Dir {
                children: zygisk_bins(
                    lib,
                    env.ws.tmp@,
                    resolved(root, text("/system/bin/linker")) is Some,
                    resolved(root, text("/system/bin/linker64")) is Some,
                    env.wide,
                ),
            },
        ],
        None => Seq::empty(),
    };
    tools + library
}

/// `list` holds the sources of the deployment: the modules that take part,
/// in their order, and the virtual trees that were asked for.
pub open spec fn is_source_list(
    list: ModuleList,
    infos: Seq<ModuleInfo>,
    zygisk_lib: Option<Seq<u8>>,
    magisk_path: Option<Seq<u8>>,
    root: FsNode,
    env: Environment,
) -> bool {
    &&& list.wf()
    &&& sources_view(list.modules@) == loaded(infos, tmp_path_spec(env.ws.tmp@, env.modules@))
    &&& custom_views(list.customs@) == injected(zygisk_lib, magisk_path, root, env)
}

/// The value behind an optional byte string.
pub open spec fn opt_view(v: Option<&Vec<u8>>) -> Option<Seq<u8>> {
    match v {
        Some(b) => Some(b@),
        None => None,
    }
}

/// Gathers the sources of a deployment: the modules of the list that take
/// part, the tools where `magisk_path` asks for them, and the library where
/// `zygisk_lib` asks for it.
pub fn load_sources<'a>(
    module_list: &'a Vec<ModuleInfo>,
    zygisk_lib: Option<&Vec<u8>>,
    magisk_path: Option<&Vec<u8>>,
    root: &FsNode,
    env: &Environment,
) -> (list: ModuleList<'a>)
    requires
        forall|i: int| 0 <= i < module_list.len() ==> (#[trigger] module_list[i]).wf(),
        root.wf(),
    ensures
        is_source_list(list, module_list@, opt_view(zygisk_lib), opt_view(magisk_path), *root, *env),
{
    let modules_dir = tmp_path(&env.ws.tmp, &env.modules);
    let mut list = ModuleList::from_module_infos(module_list, &modules_dir);
    proof {
        assert(custom_views(list.customs@) =~= Seq::<CustomView>::empty());
    }
    match magisk_path {
        Some(p) => {
            list.inject_magisk_bins(p, &env.ws.tmp);
            proof {
                assert(custom_views(list.customs@) =~= seq![
                    CustomView::Dir { children: magisk_bins(p@, env.ws.tmp@) },
                ]);
            }
        },
        None => {},
    }
    let ghost tools = custom_views(list.customs@);
    let ghost before = list.customs@;
    match zygisk_lib {
        Some(lib) => {
            list.inject_zygisk_bins(lib, &env.ws.tmp, root, env.wide);
            proof {
                assert(list.customs@.drop_last() == before);
                assert(custom_views(list.customs@) =~= tools.push(list.customs@.last()@)) by {
                    assert forall|i: int| 0 <= i < before.len() implies list.customs@[i] == before[i] by {
                        assert(list.customs@.drop_last()[i] == list.customs@[i]);
                    }
                }
                assert(tools.push(list.customs@.last()@) =~= tools + seq![list.customs@.last()@]);
            }
        },
        None => {
            proof {
                assert(tools =~= tools + Seq::<CustomView>::empty());
            }
        },
    }
    list
}

/// The children that are left when the child `name` is taken out.
pub open spec fn without(names: Seq<Vec<u8>>, values: Seq<Node>, name: Seq<u8>) -> (Seq<Vec<u8>>, Seq<Node>) {
    let p = find(names, name);
    if 0 <= p < names.len() {
        (names.remove(p), values.remove(p))
    } else {
        (names, values)
    }
}

/// Whether a tree can be mounted with nothing staged above it: anything
/// but a symbolic link can.
pub open spec fn mounts_alone(node: Node) -> bool {
    !(node is File && node->src is Some && node->is_link)
}

/// The path of a mount point of its own: a slash and the name.
pub open spec fn part_dest(name: Seq<u8>) -> Seq<u8> {
    seq![SLASH] + name
}

/// The part that mounts the child `name` at a mount point of its own:
/// none where there is no such child, or where it cannot be mounted alone.
pub open spec fn part_sections(
    names: Seq<Vec<u8>>,
    values: Seq<Node>,
    name: Seq<u8>,
    root: FsNode,
    ws: Workspace,
) -> Seq<SectionView> {
    let p = find(names, name);
    if 0 <= p < names.len() && p < values.len() && mounts_alone(values[p]) {
        seq![
            SectionView {
                dest: part_dest(name),
                ops: values[p].plan(part_dest(name), resolved(root, part_dest(name)), text("/"), false, ws),
                fatal: false,
            },
        ]
    } else {
        Seq::empty()
    }
}

/// The parts of the deployment of the logical tree of `/system`. The
/// children `product`, `vendor` and `system_ext` are taken out of the tree,
/// in this order, and each is mounted at a mount point of its own, in a
/// part that may fail. What is left of the tree is mounted at `/system`, in
/// a part that must not fail.
pub open spec fn mount_sections(tree: Node, root: FsNode, ws: Workspace) -> Seq<SectionView> {
    let n0 = tree->children.names@;
    let v0 = tree->children.values@;
    let (n1, v1) = without(n0, v0, text("product"));
    let (n2, v2) = without(n1, v1, text("vendor"));
    let (n3, v3) = without(n2, v2, text("system_ext"));
    part_sections(n0, v0, text("product"), root, ws) + part_sections(n1, v1, text("vendor"), root, ws)
        + part_sections(n2, v2, text("system_ext"), root, ws) + seq![
        SectionView {
            dest: text("/system"),
            ops: dir_plan(
                n3,
                v3,
                tree->exist,
                tree->replace,
                text("/system"),
                resolved(root, text("/system")),
                text("/"),
                false,
                ws,
            ),
            fatal: true,
        },
    ]
}

/// Takes the child `name` out of the tree and, where it can be mounted
/// alone, adds the part that mounts it at a mount point of its own.
pub fn plan_part(tree: &mut Node, name: &Vec<u8>, root: &FsNode, ws: &Workspace, sections: &mut Vec<MountSection>)
    requires
        old(tree).wf(),
        *old(tree) is Dir,
        old(tree).mountable(false),
        root.wf(),
    ensures
        final(tree).wf(),
        *final(tree) is Dir,
        final(tree).mountable(false),
        (*final(tree))->exist == (*old(tree))->exist,
        (*final(tree))->replace == (*old(tree))->replace,
        ((*final(tree))->children.names@, (*final(tree))->children.values@) == without(
            (*old(tree))->children.names@,
            (*old(tree))->children.values@,
            name@,
        ),
        sections_view(final(sections)@) == sections_view(old(sections)@) + part_sections(
            (*old(tree))->children.names@,
            (*old(tree))->children.values@,
            name@,
            *root,
            *ws,
        ),
{
    let ghost names = tree->children.names@;
    let ghost values = tree->children.values@;
    let ghost staged = crate::mount::is_staged(tree->exist, tree->replace);
    let ghost start = sections_view(sections@);
    proof {
        crate::name_map::lemma_find(names, name@);
    }
    let part = tree.extract(name);
    match part {
        Some(node) => {
            let ghost p = find(names, name@);
            proof {
                assert(values[p].wf());
                assert(values[p].mountable(staged));
                assert forall|i: int| 0 <= i < tree->children.values@.len() implies (
                #[trigger] tree->children.values@[i]).mountable(staged) by {
                    let j = if i < p { i } else { i + 1 };
                    assert(tree->children.values@[i] == values[j]);
                }
            }
            let alone = match &node {
                Node::File { src: Some(_), is_link: true } => false,
                _ => true,
            };
            if alone {
                let mut dest: Vec<u8> = Vec::new();
                dest.push(SLASH);
                append(&mut dest, name);
                proof {
                    assert(dest@ =~= part_dest(name@));
                    node.lemma_mountable(staged);
                }
                let base = root.resolve(&dest);
                let ops = node.mount(&dest, base, &bytes("/"), ws);
                sections.push(MountSection { dest, ops, fatal: false });
                proof {
                    assert(sections_view(sections@) =~= start + part_sections(names, values, name@, *root, *ws));
                }
            } else {
                proof {
                    assert(sections_view(sections@) =~= start + part_sections(names, values, name@, *root, *ws));
                }
            }
        },
        None => {
            proof {
                assert(sections_view(sections@) =~= start + part_sections(names, values, name@, *root, *ws));
            }
        },
    }
}

/// The parts of the deployment of the logical tree of `/system`.
pub fn plan_mounts(tree: Node, root: &FsNode, ws: &Workspace) -> (sections: Vec<MountSection>)
    requires
        tree.wf(),
        tree is Dir,
        tree.mountable(false),
        root.wf(),
    ensures
        sections_view(sections@) == mount_sections(tree, *root, *ws),
{
    let mut tree = tree;
    let ghost first = tree;
    let mut sections: Vec<MountSection> = Vec::new();
    proof {
        assert(sections_view(sections@) =~= Seq::<SectionView>::empty());
    }
    plan_part(&mut tree, &bytes("product"), root, ws, &mut sections);
    plan_part(&mut tree, &bytes("vendor"), root, ws, &mut sections);
    plan_part(&mut tree, &bytes("system_ext"), root, ws, &mut sections);
    let ghost parts = sections_view(sections@);
    let dest = bytes("/system");
    let base = root.resolve(&dest);
    let ops = tree.mount(&dest, base, &bytes("/"), ws);
    sections.push(MountSection { dest, ops, fatal: true });
    proof {
        assert(sections_view(sections@) =~= mount_sections(first, *root, *ws));
    }
    sections
}

/// `list` holds the sources of the deployment, `tree` is the logical tree
/// that their merge below `system` gives over the real `/system`,
/// `sections` are the parts that mount that tree, and `conflicts` are the
/// conflicts of that merge.
pub open spec fn deploys(
    list: ModuleList,
    tree: Node,
    sections: Seq<SectionView>,
    conflicts: Seq<Seq<u8>>,
    infos: Seq<ModuleInfo>,
    zygisk_lib: Option<Seq<u8>>,
    magisk_path: Option<Seq<u8>>,
    root: FsNode,
    env: Environment,
) -> bool {
    &&& is_source_list(list, infos, zygisk_lib, magisk_path, root, env)
    &&& tree.wf()
    &&& tree@ == tree_of(list@.below(text("system")), resolved(root, text("/system")))
    &&& sections == mount_sections(tree, root, env.ws)
    &&& conflicts == conflicts_of(tree, list@.below(text("system")))
}

/// `sections` and `conflicts` are the deployment of the modules: the parts
/// that mount the logical tree which the merge of the sources below
/// `system` gives over the real `/system`, and the conflicts of that merge.
pub open spec fn is_deployment(
    sections: Seq<SectionView>,
    conflicts: Seq<Seq<u8>>,
    infos: Seq<ModuleInfo>,
    zygisk_lib: Option<Seq<u8>>,
    magisk_path: Option<Seq<u8>>,
    root: FsNode,
    env: Environment,
) -> bool {
    exists|list: ModuleList, tree: Node| #[trigger]
        deploys(list, tree, sections, conflicts, infos, zygisk_lib, magisk_path, root, env)
}

/// Plans the deployment of the modules over the real filesystem `root`:
/// gathers the sources, merges what they hold below `system` into one
/// logical tree, using the virtual trees up, lays out the parts that mount
/// it, and records the conflicts between the sources.
pub fn deploy_plan(
    module_list: &Vec<ModuleInfo>,
    zygisk_lib: Option<&Vec<u8>>,
    magisk_path: Option<&Vec<u8>>,
    root: &FsNode,
    env: &Environment,
) -> (plan: Deployment)
    requires
        forall|i: int| 0 <= i < module_list.len() ==> (#[trigger] module_list[i]).wf(),
        root.wf(),
    ensures
        is_deployment(
            sections_view(plan.sections@),
            paths_view(plan.conflicts@),
            module_list@,
            opt_view(zygisk_lib),
            opt_view(magisk_path),
            *root,
            *env,
        ),
{
    let mut list = load_sources(module_list, zygisk_lib, magisk_path, root, env);
    let ghost sources = list;
    let mut iter = list.iter(&bytes("system"));
    let base = root.resolve(&bytes("/system"));
    let mut conflicts: Vec<Vec<u8>> = Vec::new();
    let tree = tree_module(base, &mut iter, &mut conflicts);
    let ghost built = tree;
    let sections = plan_mounts(tree, root, &env.ws);
    proof {
        assert(base_value(base) == resolved(*root, text("/system")));
        assert(is_source_list(sources, module_list@, opt_view(zygisk_lib), opt_view(magisk_path), *root, *env));
        assert(sections_view(sections@) == mount_sections(built, *root, env.ws));
        assert(paths_view(conflicts@) =~= conflicts_of(built, sources@.below(text("system"))));
        assert(deploys(
            sources,
            built,
            sections_view(sections@),
            paths_view(conflicts@),
            module_list@,
            opt_view(zygisk_lib),
            opt_view(magisk_path),
            *root,
            *env,
        ));
    }
    Deployment { sections, conflicts }
}

} // verus!
