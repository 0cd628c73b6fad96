//! The filesystem operations that a mount plan is made of, and the paths of
//! the staging area.

use vstd::prelude::*;
use crate::name::{append, name_copy, SLASH};

verus! {

/// One filesystem operation of a mount plan, for the caller to carry out.
#[derive(Clone, Debug, PartialEq, Eq)]
pub enum MountOp {
    /// Make the directory `path` and every missing directory above it,
    /// with no permission bits.
    MakeDirs { path: Vec<u8> },
    /// Make the directory `path`, with no permission bits.
    MakeDir { path: Vec<u8> },
    /// Make an empty file at `path`, with no permission bits.
    CreateFile { path: Vec<u8> },
    /// Give `to` the owner, mode and security label of `from`.
    CloneAttr { from: Vec<u8>, to: Vec<u8> },
    /// Bind-mount `source` over `target`.
    BindMount { source: Vec<u8>, target: Vec<u8> },
    /// Make at `link` a symbolic link that points at `target`.
    Symlink { target: Vec<u8>, link: Vec<u8> },
}

/// An operation as a mathematical value.
pub ghost enum OpView {
    MakeDirs { path: Seq<u8> },
    MakeDir { path: Seq<u8> },
    CreateFile { path: Seq<u8> },
    CloneAttr { from: Seq<u8>, to: Seq<u8> },
    BindMount { source: Seq<u8>, target: Seq<u8> },
    Symlink { target: Seq<u8>, link: Seq<u8> },
}

impl MountOp {
    /// The operation as a mathematical value.
    pub open spec fn view(&self) -> OpView {
        match self {
            MountOp::MakeDirs { path } => OpView::MakeDirs { path: path@ },
            MountOp::MakeDir { path } => OpView::MakeDir { path: path@ },
            MountOp::CreateFile { path } => OpView::CreateFile { path: path@ },
            MountOp::CloneAttr { from, to } => OpView::CloneAttr { from: from@, to: to@ },
            MountOp::BindMount { source, target } => OpView::BindMount { source: source@, target: target@ },
            MountOp::Symlink { target, link } => OpView::Symlink { target: target@, link: link@ },
        }
    }

    /// Whether the plan is given up when this operation fails. Attributes
    /// are cloned as well as can be: a failure there is passed over. Every
    /// other failure ends the plan.
    pub fn is_fatal(&self) -> (r: bool)
        ensures
            r == !(self@ is CloneAttr),
    {
        match self {
            MountOp::CloneAttr { .. } => false,
            _ => true,
        }
    }
}

/// The views of a list of operations.
pub open spec fn ops_view(ops: Seq<MountOp>) -> Seq<OpView> {
    Seq::new(ops.len(), |i: int| ops[i]@)
}

/// Adds one operation to the end of a plan.
pub fn push_op(ops: &mut Vec<MountOp>, op: MountOp)
    ensures
        ops_view(final(ops)@) == ops_view(old(ops)@).push(op@),
{
    ops.push(op);
    proof {
        assert(ops_view(ops@) =~= ops_view(old(ops)@).push(op@));
    }
}

/// Where the staging area lies: a temporary root, and the name of the
/// scratch directory below it.
#[derive(Clone, Debug, PartialEq, Eq)]
pub struct Workspace {
    pub tmp: Vec<u8>,
    pub worker: Vec<u8>,
}

impl Workspace {
    /// The staging path that mirrors the real path `path`: the temporary
    /// root, a slash, the scratch directory, and the real path.
    pub open spec fn staging(&self, path: Seq<u8>) -> Seq<u8> {
        self.tmp@.push(SLASH) + self.worker@ + path
    }

    /// The staging path that mirrors the real path `path`.
    pub fn staging_path(&self, path: &Vec<u8>) -> (r: Vec<u8>)
        ensures
            r@ == self.staging(path@),
    {
        let mut r = name_copy(&self.tmp);
        r.push(SLASH);
        append(&mut r, &self.worker);
        append(&mut r, path);
        r
    }
}

} // verus!
