//! The sources that contribute to one directory of the merged view, and
//! which of them wins each name.

use vstd::prelude::*;
use crate::custom::CustomModule;
use crate::fs::{lemma_max_height, max_height, FsNode};
use crate::name::join_spec;
use crate::name_map::{lemma_find, NameMap};

verus! {

/// A real directory that contributes to one level of the merge: its path,
/// and its entries.
pub struct Source<'a> {
    pub path: Vec<u8>,
    pub dir: &'a NameMap<FsNode>,
}

/// A real source as a mathematical value.
pub ghost struct SourceView {
    pub path: Seq<u8>,
    pub dir: NameMap<FsNode>,
}

impl<'a> Source<'a> {
    /// The source as a mathematical value.
    pub open spec fn view(&self) -> SourceView {
        SourceView { path: self.path@, dir: *self.dir }
    }
}

/// The views of a list of real sources.
pub open spec fn sources_view(v: Seq<Source>) -> Seq<SourceView> {
    Seq::new(v.len(), |i: int| v[i]@)
}

/// The entries of a real directory are sorted at every level.
pub open spec fn dir_wf(dir: NameMap<FsNode>) -> bool {
    &&& dir.wf()
    &&& forall|i: int| 0 <= i < dir.values@.len() ==> (#[trigger] dir.values@[i]).wf()
}

/// The number of directory levels in a real directory, itself included.
pub open spec fn dir_height(dir: NameMap<FsNode>) -> nat {
    1 + max_height(dir.values@, dir.values@.len())
}

/// The greatest height among the first `n` virtual nodes.
pub open spec fn max_custom_height(nodes: Seq<CustomModule>, n: nat) -> nat
    decreases nodes, n,
{
    if n == 0 || n > nodes.len() {
        0
    } else {
        let h = custom_height(nodes[n - 1]);
        let rest = max_custom_height(nodes, (n - 1) as nat);
        if h > rest { h } else { rest }
    }
}

/// The number of directory levels below and including a virtual node.
pub open spec fn custom_height(node: CustomModule) -> nat
    decreases node,
{
    match node {
        CustomModule::Dir { children } => 1 + max_custom_height(children.values@, children.values@.len()),
        CustomModule::File { .. } => 0,
    }
}

/// Each of the first `n` virtual nodes is at most as high as
/// `max_custom_height` says.
pub proof fn lemma_max_custom_height(nodes: Seq<CustomModule>, n: nat, i: int)
    requires
        0 <= i < n <= nodes.len(),
    ensures
        custom_height(nodes[i]) <= max_custom_height(nodes, n),
    decreases n,
{
    if i < n - 1 {
        lemma_max_custom_height(nodes, (n - 1) as nat, i);
    }
}

/// The place of the last source that has an entry `name`, or -1 where none
/// has one. The last source of a list is read first, so this is the source
/// that wins the name.
pub open spec fn real_top(mods: Seq<SourceView>, name: Seq<u8>) -> int
    decreases mods.len(),
{
    if mods.len() == 0 {
        -1
    } else if mods.last().dir.has(name) {
        mods.len() - 1
    } else {
        real_top(mods.drop_last(), name)
    }
}

/// The child `name` of a virtual tree: a directory that has a child of
/// that name has it, and nothing else has one.
pub open spec fn custom_child(c: CustomModule, name: Seq<u8>) -> Option<CustomModule> {
    match c {
        CustomModule::Dir { children } => if children.has(name) {
            Some(children.value(name))
        } else {
            None
        },
        CustomModule::File { .. } => None,
    }
}

/// The place of the last virtual tree that has a child `name`, or -1.
pub open spec fn custom_top(customs: Seq<CustomModule>, name: Seq<u8>) -> int
    decreases customs.len(),
{
    if customs.len() == 0 {
        -1
    } else if custom_child(customs.last(), name) is Some {
        customs.len() - 1
    } else {
        custom_top(customs.drop_last(), name)
    }
}

/// The subdirectories `name` of those sources that have one, in the order
/// of the sources, each with its path.
pub open spec fn open_real(mods: Seq<SourceView>, name: Seq<u8>) -> Seq<SourceView>
    decreases mods.len(),
{
    if mods.len() == 0 {
        Seq::empty()
    } else {
        let rest = open_real(mods.drop_last(), name);
        let s = mods.last();
        if s.dir.has(name) && s.dir.value(name) is Dir {
            rest.push(SourceView { path: join_spec(s.path, name), dir: s.dir.value(name)->entries })
        } else {
            rest
        }
    }
}

/// The children `name` of those virtual trees that have one, in their
/// order.
pub open spec fn open_custom(customs: Seq<CustomModule>, name: Seq<u8>) -> Seq<CustomModule>
    decreases customs.len(),
{
    if customs.len() == 0 {
        Seq::empty()
    } else {
        let rest = open_custom(customs.drop_last(), name);
        match custom_child(customs.last(), name) {
            Some(c) => rest.push(c),
            None => rest,
        }
    }
}

/// `real_top` names a source that has the name, and no later one has it.
pub proof fn lemma_real_top(mods: Seq<SourceView>, name: Seq<u8>)
    ensures
        -1 <= real_top(mods, name) < mods.len(),
        real_top(mods, name) >= 0 ==> mods[real_top(mods, name)].dir.has(name),
        forall|i: int| real_top(mods, name) < i < mods.len() ==> !(#[trigger] mods[i]).dir.has(name),
    decreases mods.len(),
{
    if mods.len() != 0 && !mods.last().dir.has(name) {
        lemma_real_top(mods.drop_last(), name);
        assert forall|i: int| real_top(mods, name) < i < mods.len() implies !(#[trigger] mods[i]).dir.has(name) by {
            if i < mods.len() - 1 {
                assert(mods.drop_last()[i] == mods[i]);
            }
        }
    }
}

/// `custom_top` names a virtual tree that has the name, and no later one
/// has it.
pub proof fn lemma_custom_top(customs: Seq<CustomModule>, name: Seq<u8>)
    ensures
        -1 <= custom_top(customs, name) < customs.len(),
        custom_top(customs, name) >= 0 ==> custom_child(customs[custom_top(customs, name)], name) is Some,
        forall|i: int|
            custom_top(customs, name) < i < customs.len() ==> custom_child(#[trigger] customs[i], name) is None,
    decreases customs.len(),
{
    if customs.len() != 0 && custom_child(customs.last(), name) is None {
        lemma_custom_top(customs.drop_last(), name);
        assert forall|i: int| custom_top(customs, name) < i < customs.len() implies custom_child(
            #[trigger] customs[i],
            name,
        ) is None by {
            if i < customs.len() - 1 {
                assert(customs.drop_last()[i] == customs[i]);
            }
        }
    }
}

/// Sources that lack a name can be cut off the end of the list without
/// changing who wins the name or what its subdirectories are.
pub proof fn lemma_real_take(mods: Seq<SourceView>, k: int, name: Seq<u8>)
    requires
        0 <= k <= mods.len(),
        forall|i: int| k <= i < mods.len() ==> !(#[trigger] mods[i]).dir.has(name),
    ensures
        real_top(mods.take(k), name) == real_top(mods, name),
        open_real(mods.take(k), name) == open_real(mods, name),
    decreases mods.len() - k,
{
    if k < mods.len() {
        let shorter = mods.drop_last();
        assert(!mods[mods.len() - 1].dir.has(name));
        assert forall|i: int| k <= i < shorter.len() implies !(#[trigger] shorter[i]).dir.has(name) by {
            assert(shorter[i] == mods[i]);
        }
        lemma_real_take(shorter, k, name);
        assert(shorter.take(k) =~= mods.take(k));
    } else {
        assert(mods.take(k) =~= mods);
    }
}

/// A list of virtual trees can lose trees that lack a name at its end, and
/// its other trees can change under other names, without changing who wins
/// the name or what stands below it.
pub proof fn lemma_custom_agree(a: Seq<CustomModule>, b: Seq<CustomModule>, name: Seq<u8>)
    requires
        b.len() <= a.len(),
        forall|i: int| 0 <= i < b.len() ==> custom_child(#[trigger] b[i], name) == custom_child(a[i], name),
        forall|i: int| b.len() <= i < a.len() ==> custom_child(#[trigger] a[i], name) is None,
    ensures
        custom_top(b, name) == custom_top(a, name),
        open_custom(b, name) == open_custom(a, name),
    decreases a.len(),
{
    if a.len() > 0 {
        let shorter = a.drop_last();
        if b.len() == a.len() {
            let b2 = b.drop_last();
            assert forall|i: int| 0 <= i < b2.len() implies custom_child(#[trigger] b2[i], name) == custom_child(
                shorter[i],
                name,
            ) by {
                assert(b2[i] == b[i]);
                assert(shorter[i] == a[i]);
            }
            assert(custom_child(b[b.len() - 1], name) == custom_child(a[a.len() - 1], name));
            lemma_custom_agree(shorter, b2, name);
        } else {
            assert(custom_child(a[a.len() - 1], name) is None);
            assert forall|i: int| 0 <= i < b.len() implies custom_child(#[trigger] b[i], name) == custom_child(
                shorter[i],
                name,
            ) by {
                assert(shorter[i] == a[i]);
            }
            assert forall|i: int| b.len() <= i < shorter.len() implies custom_child(
                #[trigger] shorter[i],
                name,
            ) is None by {
                assert(shorter[i] == a[i]);
            }
            lemma_custom_agree(shorter, b, name);
        }
    } else {
        assert(b =~= a);
    }
}

/// The greatest height among the real sources.
pub open spec fn real_height(mods: Seq<SourceView>) -> nat
    decreases mods.len(),
{
    if mods.len() == 0 {
        0
    } else {
        let h = dir_height(mods.last().dir);
        let rest = real_height(mods.drop_last());
        if h > rest { h } else { rest }
    }
}

/// The greatest height among the virtual trees.
pub open spec fn customs_height(customs: Seq<CustomModule>) -> nat
    decreases customs.len(),
{
    if customs.len() == 0 {
        0
    } else {
        let h = custom_height(customs.last());
        let rest = customs_height(customs.drop_last());
        if h > rest { h } else { rest }
    }
}

/// Every subdirectory that `open_real` finds is well formed and lower than
/// the highest of the sources.
pub proof fn lemma_open_real(mods: Seq<SourceView>, name: Seq<u8>)
    requires
        forall|i: int| 0 <= i < mods.len() ==> dir_wf(#[trigger] mods[i].dir),
    ensures
        forall|i: int| 0 <= i < open_real(mods, name).len() ==> dir_wf(#[trigger] open_real(mods, name)[i].dir),
        mods.len() > 0 ==> real_height(open_real(mods, name)) < real_height(mods),
        mods.len() == 0 ==> open_real(mods, name).len() == 0,
    decreases mods.len(),
{
    if mods.len() != 0 {
        let shorter = mods.drop_last();
        assert forall|i: int| 0 <= i < shorter.len() implies dir_wf(#[trigger] shorter[i].dir) by {
            assert(shorter[i] == mods[i]);
        }
        lemma_open_real(shorter, name);
        let s = mods.last();
        assert(dir_wf(mods[mods.len() - 1].dir));
        let rest = open_real(shorter, name);
        if s.dir.has(name) && s.dir.value(name) is Dir {
            let i = s.dir.place(name);
            lemma_find(s.dir.names@, name);
            lemma_max_height(s.dir.values@, s.dir.values@.len(), i);
            let sub = SourceView { path: join_spec(s.path, name), dir: s.dir.value(name)->entries };
            assert(rest.push(sub).drop_last() =~= rest);
            assert(s.dir.values@[i].wf());
        }
    }
}

/// Every child that `open_custom` finds is well formed, and lower than the
/// highest of the virtual trees.
pub proof fn lemma_open_custom(customs: Seq<CustomModule>, name: Seq<u8>)
    requires
        forall|i: int| 0 <= i < customs.len() ==> (#[trigger] customs[i]).wf(),
    ensures
        forall|i: int| 0 <= i < open_custom(customs, name).len() ==> (#[trigger] open_custom(customs, name)[i]).wf(),
        customs_height(customs) > 0 ==> customs_height(open_custom(customs, name)) < customs_height(customs),
        customs_height(customs) == 0 ==> open_custom(customs, name).len() == 0,
        custom_top(customs, name) >= 0 ==> customs_height(customs) > 0,
    decreases customs.len(),
{
    if customs.len() != 0 {
        let shorter = customs.drop_last();
        assert forall|i: int| 0 <= i < shorter.len() implies (#[trigger] shorter[i]).wf() by {
            assert(shorter[i] == customs[i]);
        }
        lemma_open_custom(shorter, name);
        let c = customs.last();
        assert(customs[customs.len() - 1].wf());
        let rest = open_custom(shorter, name);
        match custom_child(c, name) {
            Some(child) => {
                let children = c->children;
                let i = children.place(name);
                lemma_find(children.names@, name);
                lemma_max_custom_height(children.values@, children.values@.len(), i);
                assert(rest.push(child).drop_last() =~= rest);
                assert(children.values@[i].wf());
            },
            None => {},
        }
    }
}

} // verus!
