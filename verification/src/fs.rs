//! Snapshots of directory trees as they lie on disk.

use vstd::prelude::*;
use crate::name::{copy_range, find_slash, first_slash, lemma_first_slash};
use crate::name_map::NameMap;

verus! {

/// One object of a directory tree on disk: a module's content, or the live
/// filesystem that the modules are laid over.
#[derive(Debug, PartialEq, Eq)]
pub enum FsNode {
    /// A directory with its entries by name.
    Dir { entries: NameMap<FsNode> },
    /// A regular file, or any other object that is none of the rest.
    File,
    /// A symbolic link and the path it points at.
    Symlink { target: Vec<u8> },
    /// A whiteout: the mark that the name must not exist in the merged view.
    Whiteout,
}

/// The greatest height among the first `n` of `nodes`.
pub open spec fn max_height(nodes: Seq<FsNode>, n: nat) -> nat
    decreases nodes, n,
{
    if n == 0 || n > nodes.len() {
        0
    } else {
        let h = nodes[n - 1].height();
        let rest = max_height(nodes, (n - 1) as nat);
        if h > rest { h } else { rest }
    }
}

/// Each of the first `n` nodes is at most as high as `max_height` says.
pub proof fn lemma_max_height(nodes: Seq<FsNode>, n: nat, i: int)
    requires
        0 <= i < n <= nodes.len(),
    ensures
        nodes[i].height() <= max_height(nodes, n),
    decreases n,
{
    if i < n - 1 {
        lemma_max_height(nodes, (n - 1) as nat, i);
    }
}

impl FsNode {
    /// Every directory of the tree keeps its entries sorted by name.
    pub open spec fn wf(&self) -> bool
        decreases self,
    {
        match self {
            FsNode::Dir { entries } => {
                &&& entries.wf()
                &&& forall|i: int| 0 <= i < entries.values@.len() ==> (#[trigger] entries.values@[i]).wf()
            },
            _ => true,
        }
    }

    /// The number of directory levels below and including this node.
    pub open spec fn height(&self) -> nat
        decreases self,
    {
        match self {
            FsNode::Dir { entries } => 1 + max_height(entries.values@, entries.values@.len()),
            _ => 0,
        }
    }

    /// Whether the directory has an entry `name`; no other node has entries.
    pub open spec fn has_entry(&self, name: Seq<u8>) -> bool {
        match self {
            FsNode::Dir { entries } => entries.has(name),
            _ => false,
        }
    }

    /// The entry `name` of the directory.
    pub open spec fn entry(&self, name: Seq<u8>) -> FsNode
        recommends
            self.has_entry(name),
    {
        self->entries.value(name)
    }

    /// The entry `name` of the directory, where there is one.
    pub open spec fn child(&self, name: Seq<u8>) -> Option<FsNode> {
        if self.has_entry(name) {
            Some(self.entry(name))
        } else {
            None
        }
    }

    /// Whether every directory of the tree keeps its entries sorted by
    /// name: whether the snapshot is well formed.
    pub fn is_wf(&self) -> (r: bool)
        ensures
            r == self.wf(),
        decreases self,
    {
        match self {
            FsNode::Dir { entries } => {
                if !entries.is_sorted() {
                    return false;
                }
                let mut i: usize = 0;
                while i < entries.values.len()
                    invariant
                        i <= entries.values.len(),
                        entries.wf(),
                        *self == (FsNode::Dir { entries: *entries }),
                        forall|k: int| 0 <= k < i ==> (#[trigger] entries.values@[k]).wf(),
                    decreases entries.values.len() - i,
                {
                    proof {
                        assert(decreases_to!(*self => self->entries));
                        assert(decreases_to!(self->entries => self->entries.values));
                        assert(decreases_to!(self->entries.values => self->entries.values@));
                        assert(decreases_to!(self->entries.values@ => self->entries.values@[i as int]));
                        assert(self->entries.values@[i as int] == entries.values@[i as int]);
                    }
                    if !entries.values[i].is_wf() {
                        return false;
                    }
                    i += 1;
                }
                true
            },
            _ => true,
        }
    }

    /// A directory without entries.
    pub fn empty_dir() -> (r: FsNode)
        ensures
            r.wf(),
            r is Dir,
            forall|n: Seq<u8>| !r.has_entry(n),
    {
        let entries = NameMap::new();
        proof {
            assert forall|n: Seq<u8>| !entries.has(n) by {
                crate::name_map::lemma_find(entries.names@, n);
            }
        }
        FsNode::Dir { entries }
    }

    /// Adds the entry `name` to a directory. On a node that is no directory,
    /// or where the name is taken, nothing changes and the answer is `false`.
    pub fn add(&mut self, name: Vec<u8>, node: FsNode) -> (added: bool)
        requires
            old(self).wf(),
            node.wf(),
        ensures
            final(self).wf(),
            added == (*old(self) is Dir && !old(self).has_entry(name@)),
            !added ==> *final(self) == *old(self),
            added ==> *final(self) is Dir
                && (*final(self))->entries@ == (*old(self))->entries@.insert(name@, node),
    {
        match self {
            FsNode::Dir { entries } => {
                let ghost before = *entries;
                let back = entries.insert_new(name, node);
                proof {
                    if back is None {
                        let p = before.place_for(name@);
                        assert forall|i: int| 0 <= i < entries.values@.len() implies (#[trigger] entries.values@[i]).wf() by {
                            if i < p {
                                assert(entries.values@[i] == before.values@[i]);
                            } else if i > p {
                                assert(entries.values@[i] == before.values@[i - 1]);
                            }
                        }
                    }
                }
                back.is_none()
            },
            _ => false,
        }
    }

    /// The entry `name` of this node, if it is a directory that has one.
    pub fn lookup(&self, name: &Vec<u8>) -> (r: Option<&FsNode>)
        requires
            self.wf(),
        ensures
            r is Some <==> self.has_entry(name@),
            r is Some ==> *r->0 == self.entry(name@) && r->0.wf() && r->0.height() < self.height(),
    {
        match self {
            FsNode::Dir { entries } => {
                let (i, found) = entries.search(name);
                if found {
                    proof {
                        lemma_max_height(entries.values@, entries.values@.len(), i as int);
                    }
                    Some(&entries.values[i])
                } else {
                    None
                }
            },
            _ => None,
        }
    }
}

/// The object that `path` leads to from `node`. The path is cut at its
/// slashes; an empty component is passed over, and every other names an
/// entry of the directory reached so far.
pub open spec fn resolved(node: FsNode, path: Seq<u8>) -> Option<FsNode>
    decreases path.len(),
{
    let k = first_slash(path);
    if path.len() == 0 {
        Some(node)
    } else if k == 0 {
        resolved(node, path.skip(1))
    } else if 0 < k <= path.len() {
        match node.child(path.take(k)) {
            Some(c) => if k < path.len() {
                resolved(c, path.skip(k + 1))
            } else {
                Some(c)
            },
            None => None,
        }
    } else {
        None
    }
}

impl FsNode {
    /// The object that `path` leads to from this node, if there is one.
    pub fn resolve(&self, path: &Vec<u8>) -> (r: Option<&FsNode>)
        requires
            self.wf(),
        ensures
            r is Some <==> resolved(*self, path@) is Some,
            r is Some ==> *r->0 == resolved(*self, path@)->0 && r->0.wf(),
    {
        proof {
            assert(path@.skip(0) =~= path@);
        }
        self.resolve_from(path, 0)
    }

    /// `resolve` for the part of `path` that starts at `start`.
    pub fn resolve_from(&self, path: &Vec<u8>, start: usize) -> (r: Option<&FsNode>)
        requires
            self.wf(),
            start <= path.len(),
        ensures
            r is Some <==> resolved(*self, path@.skip(start as int)) is Some,
            r is Some ==> *r->0 == resolved(*self, path@.skip(start as int))->0 && r->0.wf(),
        decreases path.len() - start,
    {
        let ghost tail = path@.skip(start as int);
        if start == path.len() {
            return Some(self);
        }
        let k = find_slash(path, start);
        proof {
            lemma_first_slash(tail);
        }
        if k == start {
            proof {
                assert(tail.skip(1) =~= path@.skip(start + 1));
            }
            return self.resolve_from(path, start + 1);
        }
        let head = copy_range(path, start, k);
        proof {
            assert(head@ =~= tail.take(k - start));
        }
        match self.lookup(&head) {
            Some(c) => {
                if k < path.len() {
                    proof {
                        assert(tail.skip(k - start + 1) =~= path@.skip(k + 1));
                    }
                    c.resolve_from(path, k + 1)
                } else {
                    Some(c)
                }
            },
            None => None,
        }
    }
}

} // verus!
