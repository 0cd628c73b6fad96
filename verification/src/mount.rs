//! The mount plan of a logical tree: the staging directories, mirrored
//! content and bind mounts that make the tree visible at its real path.

use vstd::prelude::*;
use crate::fs::FsNode;
use crate::mirror::{mirror_entries, mirror_entries_plan};
use crate::name::{join, join_spec, name_copy};
use crate::node::Node;
use crate::ops::{ops_view, push_op, MountOp, OpView, Workspace};
use crate::tree::{base_child, base_value};

verus! {

/// Whether a directory gets a staging directory of its own: it does unless
/// the real directory is there unmodified and is not replaced.
pub open spec fn is_staged(exist: bool, replace: bool) -> bool {
    !exist || replace
}

/// The path whose attributes a staging directory takes: the real path where
/// something is there, else the nearest path above it where something is.
pub open spec fn attr_source(path: Seq<u8>, base: Option<FsNode>, above: Seq<u8>) -> Seq<u8> {
    if base is Some {
        path
    } else {
        above
    }
}

/// The entries of the real object, where it is a directory.
pub open spec fn base_is_dir(base: Option<FsNode>) -> bool {
    base is Some && base->0 is Dir
}

impl Node {
    /// No symbolic link stands where nothing is staged: every link of the
    /// tree is the child of a directory that gets a staging directory, or,
    /// for the node itself, `parent_tmpfs` is set.
    pub open spec fn mountable(&self, parent_tmpfs: bool) -> bool
        decreases self,
    {
        match self {
            Node::Dir { children, exist, replace } => forall|i: int|
                0 <= i < children.values@.len() ==> (#[trigger] children.values@[i]).mountable(
                    is_staged(*exist, *replace),
                ),
            Node::File { src, is_link } => src is Some && *is_link ==> parent_tmpfs,
        }
    }

    /// What may stand where nothing is staged may also stand in a staging
    /// directory; and for a directory it makes no difference.
    pub proof fn lemma_mountable(&self, parent_tmpfs: bool)
        requires
            self.mountable(parent_tmpfs),
        ensures
            self.mountable(true),
            self is Dir ==> self.mountable(false),
    {
    }

    /// The operations that make this node visible at `path`. `base` is the
    /// real object at `path`, if there is one; `above` is the nearest path
    /// above `path` at which something is; `parent_tmpfs` says that the
    /// directory above has a staging directory.
    ///
    /// A deletion needs nothing. A file is bound over an empty file in the
    /// staging directory above, or, where nothing is staged, gives its
    /// attributes to the real path and is bound over it. A link is made in
    /// the staging directory above.
    ///
    /// A directory that is staged first gets its staging directory, with
    /// the attributes of the real path or of the nearest one above it. Then
    /// come its children in the order of their names. Then, unless the
    /// directory is replaced, the entries of the real directory that are no
    /// children are reproduced in the staging directory. At last, where the
    /// directory above is not staged, the staging directory is bound over
    /// the real path.
    pub open spec fn plan(
        &self,
        path: Seq<u8>,
        base: Option<FsNode>,
        above: Seq<u8>,
        parent_tmpfs: bool,
        ws: Workspace,
    ) -> Seq<OpView>
        decreases self, 0nat,
    {
        match self {
            Node::Dir { children, exist, replace } => dir_plan(
                children.names@,
                children.values@,
                *exist,
                *replace,
                path,
                base,
                above,
                parent_tmpfs,
                ws,
            ),
            Node::File { src: None, .. } => Seq::empty(),
            Node::File { src: Some(src), is_link: false } => {
                if parent_tmpfs {
                    seq![
                        OpView::CreateFile { path: ws.staging(path) },
                        OpView::BindMount { source: src@, target: ws.staging(path) },
                    ]
                } else {
                    seq![
                        OpView::CloneAttr { from: src@, to: path },
                        OpView::BindMount { source: src@, target: path },
                    ]
                }
            },
            Node::File { src: Some(src), is_link: true } => seq![
                OpView::Symlink { target: src@, link: ws.staging(path) },
            ],
        }
    }
}

impl Node {
    /// Adds to the plan the operations that make this node visible at
    /// `path`. `base` is the real object at `path`, if there is one;
    /// `above` is the nearest path above `path` at which something is;
    /// `parent_tmpfs` says that the directory above has a staging
    /// directory.
    pub fn do_mount(
        &self,
        path: &Vec<u8>,
        base: Option<&FsNode>,
        above: &Vec<u8>,
        parent_tmpfs: bool,
        ws: &Workspace,
        ops: &mut Vec<MountOp>,
    )
        requires
            self.wf(),
            base is Some ==> base->0.wf(),
            self.mountable(parent_tmpfs),
        ensures
            ops_view(final(ops)@) == ops_view(old(ops)@) + self.plan(
                path@,
                base_value(base),
                above@,
                parent_tmpfs,
                *ws,
            ),
        decreases self,
    {
        let ghost start = ops_view(ops@);
        let ghost b = base_value(base);
        match self {
            Node::Dir { children, exist, replace } => {
                let staged = !*exist || *replace;
                let source: &Vec<u8> = if base.is_some() {
                    path
                } else {
                    above
                };
                let worker = ws.staging_path(path);
                if staged {
                    push_op(ops, MountOp::MakeDirs { path: name_copy(&worker) });
                    push_op(ops, MountOp::CloneAttr { from: name_copy(source), to: name_copy(&worker) });
                }
                let ghost setup = setup_plan(staged, path@, source@, *ws);
                proof {
                    assert(ops_view(ops@) =~= start + setup + Seq::<OpView>::empty());
                }
                let mut i: usize = 0;
                while i < children.values.len()
                    invariant
                        i <= children.values.len(),
                        self.wf(),
                        *self == (Node::Dir { children: *children, exist: *exist, replace: *replace }),
                        staged == is_staged(*exist, *replace),
                        self.mountable(parent_tmpfs),
                        base is Some ==> base->0.wf(),
                        b == base_value(base),
                        ops_view(ops@) == start + setup + children_plan(
                            children.names@,
                            children.values@,
                            path@,
                            b,
                            source@,
                            staged,
                            *ws,
                            i as nat,
                        ),
                    decreases children.values.len() - i,
                {
                    let name = &children.names[i];
                    let child_path = join(path, name);
                    let child_base = match base {
                        Some(r) => r.lookup(name),
                        None => None,
                    };
                    let ghost before = children_plan(
                        children.names@,
                        children.values@,
                        path@,
                        b,
                        source@,
                        staged,
                        *ws,
                        i as nat,
                    );
                    proof {
                        assert(children.values@[i as int].wf());
                        assert(children.values@[i as int].mountable(staged));
                    }
                    children.values[i].do_mount(&child_path, child_base, source, staged, ws, ops);
                    proof {
                        let step = children.values@[i as int].plan(
                            child_path@,
                            base_child(b, name@),
                            source@,
                            staged,
                            *ws,
                        );
                        assert(ops_view(ops@) =~= start + setup + (before + step));
                    }
                    i += 1;
                }
                let ghost inner = children_plan(
                    children.names@,
                    children.values@,
                    path@,
                    b,
                    source@,
                    staged,
                    *ws,
                    children.values@.len(),
                );
                let ghost mirror = mirror_part(children.names@, *exist, *replace, path@, b, *ws);
                proof {
                    assert(names_dom(children.names@) =~= children.dom());
                }
                if staged && !*replace {
                    match base {
                        Some(FsNode::Dir { entries }) => {
                            mirror_entries(entries, path, &worker, Some(children), ops);
                        },
                        _ => {},
                    }
                }
                proof {
                    assert(ops_view(ops@) =~= start + setup + inner + mirror);
                }
                if staged && !parent_tmpfs {
                    push_op(ops, MountOp::BindMount { source: worker, target: name_copy(path) });
                }
                proof {
                    let finish = finish_plan(staged, parent_tmpfs, path@, *ws);
                    assert(ops_view(ops@) =~= start + (setup + inner + mirror + finish));
                }
            },
            Node::File { src, is_link } => {
                match src {
                    None => {
                        proof {
                            assert(ops_view(ops@) =~= start + Seq::<OpView>::empty());
                        }
                    },
                    Some(source) => {
                        if *is_link {
                            let worker = ws.staging_path(path);
                            push_op(ops, MountOp::Symlink { target: name_copy(source), link: worker });
                        } else if parent_tmpfs {
                            let worker = ws.staging_path(path);
                            push_op(ops, MountOp::CreateFile { path: name_copy(&worker) });
                            push_op(ops, MountOp::BindMount { source: name_copy(source), target: worker });
                        } else {
                            push_op(ops, MountOp::CloneAttr { from: name_copy(source), to: name_copy(path) });
                            push_op(ops, MountOp::BindMount { source: name_copy(source), target: name_copy(path) });
                        }
                        proof {
                            assert(ops_view(ops@) =~= start + self.plan(path@, b, above@, parent_tmpfs, *ws));
                        }
                    },
                }
            },
        }
    }

    /// The plan that makes this tree visible at `dest`, where nothing above
    /// it is staged. `base` is the real object at `dest`, if there is one,
    /// and `above` the nearest path above `dest` at which something is.
    pub fn mount(&self, dest: &Vec<u8>, base: Option<&FsNode>, above: &Vec<u8>, ws: &Workspace) -> (ops: Vec<
        MountOp,
    >)
        requires
            self.wf(),
            base is Some ==> base->0.wf(),
            self.mountable(false),
        ensures
            ops_view(ops@) == self.plan(dest@, base_value(base), above@, false, *ws),
    {
        let mut ops: Vec<MountOp> = Vec::new();
        self.do_mount(dest, base, above, false, ws, &mut ops);
        proof {
            assert(ops_view(ops@) =~= self.plan(dest@, base_value(base), above@, false, *ws));
        }
        ops
    }
}

/// The names that a list of names holds.
pub open spec fn names_dom(names: Seq<Vec<u8>>) -> Set<Seq<u8>> {
    Set::new(|n: Seq<u8>| crate::name_map::find(names, n) < names.len())
}

/// The operations that give a staged directory its staging directory.
pub open spec fn setup_plan(staged: bool, path: Seq<u8>, source: Seq<u8>, ws: Workspace) -> Seq<OpView> {
    if staged {
        seq![
            OpView::MakeDirs { path: ws.staging(path) },
            OpView::CloneAttr { from: source, to: ws.staging(path) },
        ]
    } else {
        Seq::empty()
    }
}

/// The operations that reproduce in the staging directory what the real
/// directory holds beside the children: none where the directory is not
/// staged, is replaced, or has no real directory at its path.
pub open spec fn mirror_part(
    names: Seq<Vec<u8>>,
    exist: bool,
    replace: bool,
    path: Seq<u8>,
    base: Option<FsNode>,
    ws: Workspace,
) -> Seq<OpView> {
    if is_staged(exist, replace) && !replace && base_is_dir(base) {
        mirror_entries_plan(
            base->0->entries.names@,
            base->0->entries.values@,
            path,
            ws.staging(path),
            base->0->entries.values@.len(),
            names_dom(names),
        )
    } else {
        Seq::empty()
    }
}

/// The operation that binds a staging directory over the real path, where
/// the directory is staged and the one above it is not.
pub open spec fn finish_plan(staged: bool, parent_tmpfs: bool, path: Seq<u8>, ws: Workspace) -> Seq<OpView> {
    if staged && !parent_tmpfs {
        seq![OpView::BindMount { source: ws.staging(path), target: path }]
    } else {
        Seq::empty()
    }
}

/// The operations for a directory with the given children: its staging
/// directory, its children, the mirrored rest, and the bind over the real
/// path.
pub open spec fn dir_plan(
    names: Seq<Vec<u8>>,
    values: Seq<Node>,
    exist: bool,
    replace: bool,
    path: Seq<u8>,
    base: Option<FsNode>,
    above: Seq<u8>,
    parent_tmpfs: bool,
    ws: Workspace,
) -> Seq<OpView>
    decreases values, values.len() + 1,
{
    let staged = is_staged(exist, replace);
    let source = attr_source(path, base, above);
    setup_plan(staged, path, source, ws) + children_plan(names, values, path, base, source, staged, ws, values.len())
        + mirror_part(names, exist, replace, path, base, ws) + finish_plan(staged, parent_tmpfs, path, ws)
}

/// The operations for the first `n` children of the directory at `path`,
/// in their order.
pub open spec fn children_plan(
    names: Seq<Vec<u8>>,
    values: Seq<Node>,
    path: Seq<u8>,
    base: Option<FsNode>,
    source: Seq<u8>,
    staged: bool,
    ws: Workspace,
    n: nat,
) -> Seq<OpView>
    decreases values, n,
{
    if n == 0 || n > values.len() || n > names.len() {
        Seq::empty()
    } else {
        let name = names[n - 1]@;
        children_plan(names, values, path, base, source, staged, ws, (n - 1) as nat) + values[n - 1].plan(
            join_spec(path, name),
            base_child(base, name),
            source,
            staged,
            ws,
        )
    }
}

} // verus!
