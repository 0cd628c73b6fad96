//! Virtual entry trees: files and links that no module directory backs.

use vstd::prelude::*;
use crate::name::{copy_range, find_slash, first_slash};
use crate::name_map::{
    find, lemma_find, lemma_find_insert, lemma_find_shift, lemma_find_sorted, NameMap,
};

verus! {

/// One node of a virtual tree.
#[derive(Debug, PartialEq, Eq)]
pub enum CustomModule {
    /// A directory with its children by name.
    Dir { children: NameMap<CustomModule> },
    /// A leaf: the path that stands for it, and whether it is to be a
    /// symbolic link to that path.
    File { path: Vec<u8>, is_link: bool },
}

/// A virtual tree as a mathematical value.
pub ghost enum CustomView {
    Dir { children: Map<Seq<u8>, CustomView> },
    File { path: Seq<u8>, is_link: bool },
}

/// The children of a virtual directory as a map from names to subtrees.
pub open spec fn children_view(names: Seq<Vec<u8>>, values: Seq<CustomModule>) -> Map<Seq<u8>, CustomView>
    decreases values, 0nat,
{
    Map::new(
        |n: Seq<u8>| find(names, n) < names.len() && find(names, n) < values.len(),
        |n: Seq<u8>|
            {
                let i = find(names, n);
                if 0 <= i < values.len() {
                    values[i].view()
                } else {
                    arbitrary()
                }
            },
    )
}

impl CustomModule {
    /// The tree as a mathematical value.
    pub open spec fn view(&self) -> CustomView
        decreases self, 1nat,
    {
        match self {
            CustomModule::Dir { children } => CustomView::Dir {
                children: children_view(children.names@, children.values@),
            },
            CustomModule::File { path, is_link } => CustomView::File { path: path@, is_link: *is_link },
        }
    }

    /// Every directory of the tree keeps its children sorted by name.
    pub open spec fn wf(&self) -> bool
        decreases self,
    {
        match self {
            CustomModule::Dir { children } => {
                &&& children.wf()
                &&& forall|i: int| 0 <= i < children.values@.len() ==> (#[trigger] children.values@[i]).wf()
            },
            _ => true,
        }
    }
}

/// The children of a directory after the leaf `(target, is_link)` was put
/// at `path` below it. The path is cut at its first slash. An empty first
/// component is passed over. Another first component names a directory,
/// which is made where the name is free and left alone where the name is a
/// leaf; the rest of the path is put below it. A path without a slash names
/// the leaf itself, which is put only where the name is free.
pub open spec fn inserted(
    dir: Map<Seq<u8>, CustomView>,
    path: Seq<u8>,
    target: Seq<u8>,
    is_link: bool,
) -> Map<Seq<u8>, CustomView>
    decreases path.len(),
{
    let k = first_slash(path);
    if 0 <= k < path.len() {
        let head = path.take(k);
        let rest = path.skip(k + 1);
        if k == 0 {
            inserted(dir, rest, target, is_link)
        } else if !dir.contains_key(head) {
            dir.insert(head, CustomView::Dir { children: inserted(Map::empty(), rest, target, is_link) })
        } else {
            match dir[head] {
                CustomView::Dir { children } => dir.insert(
                    head,
                    CustomView::Dir { children: inserted(children, rest, target, is_link) },
                ),
                CustomView::File { .. } => dir,
            }
        }
    } else if dir.contains_key(path) {
        dir
    } else {
        dir.insert(path, CustomView::File { path: target, is_link })
    }
}

/// Whether a leaf put at `path` below the directory finds its place free:
/// no leaf stands where the path needs a directory, and the last name is
/// not taken.
pub open spec fn insert_accepted(dir: Map<Seq<u8>, CustomView>, path: Seq<u8>) -> bool
    decreases path.len(),
{
    let k = first_slash(path);
    if 0 <= k < path.len() {
        let head = path.take(k);
        let rest = path.skip(k + 1);
        if k == 0 {
            insert_accepted(dir, rest)
        } else if !dir.contains_key(head) {
            insert_accepted(Map::empty(), rest)
        } else {
            match dir[head] {
                CustomView::Dir { children } => insert_accepted(children, rest),
                CustomView::File { .. } => false,
            }
        }
    } else {
        !dir.contains_key(path)
    }
}

impl NameMap<CustomModule> {
    /// The map is sorted, and so is every directory below it.
    pub open spec fn tree_wf(&self) -> bool {
        &&& self.wf()
        &&& forall|i: int| 0 <= i < self.values@.len() ==> (#[trigger] self.values@[i]).wf()
    }

    /// The children as a map from names to subtrees.
    pub open spec fn tree_view(&self) -> Map<Seq<u8>, CustomView> {
        children_view(self.names@, self.values@)
    }

    /// Puts the leaf `(target, is_link)` at the slash-separated `path` below
    /// this directory, making the directories on the way. Where the place is
    /// taken, or a leaf stands in the way, nothing changes and the answer is
    /// `false`.
    pub fn insert_entry(&mut self, path: &Vec<u8>, target: &Vec<u8>, is_link: bool) -> (accepted: bool)
        requires
            old(self).tree_wf(),
        ensures
            final(self).tree_wf(),
            final(self).tree_view() == inserted(old(self).tree_view(), path@, target@, is_link),
            accepted == insert_accepted(old(self).tree_view(), path@),
    {
        proof {
            assert(path@.skip(0) =~= path@);
        }
        self.insert_from(path, 0, target, is_link)
    }

    /// `insert_entry` for the part of `path` that starts at `start`.
    pub fn insert_from(&mut self, path: &Vec<u8>, start: usize, target: &Vec<u8>, is_link: bool) -> (accepted: bool)
        requires
            old(self).tree_wf(),
            start <= path.len(),
        ensures
            final(self).tree_wf(),
            final(self).tree_view() == inserted(old(self).tree_view(), path@.skip(start as int), target@, is_link),
            accepted == insert_accepted(old(self).tree_view(), path@.skip(start as int)),
        decreases path.len() - start,
    {
        let ghost tail = path@.skip(start as int);
        let ghost before = *self;
        let k = find_slash(path, start);
        if k == path.len() {
            let name = copy_range(path, start, k);
            proof {
                assert(name@ =~= tail);
            }
            let (p, found) = self.search(&name);
            if found {
                proof {
                    lemma_find(self.names@, name@);
                }
                return false;
            }
            let leaf = CustomModule::File { path: crate::name::name_copy(target), is_link };
            proof {
                lemma_find(self.names@, name@);
                self.lemma_tree_insert(name, leaf, p as int);
            }
            self.names.insert(p, name);
            self.values.insert(p, leaf);
            return true;
        }
        proof {
            assert(tail.skip(k - start + 1) =~= path@.skip(k + 1));
        }
        if k == start {
            return self.insert_from(path, k + 1, target, is_link);
        }
        let head = copy_range(path, start, k);
        proof {
            assert(head@ =~= tail.take(k - start));
        }
        let (p, found) = self.search(&head);
        proof {
            lemma_find(self.names@, head@);
        }
        if !found {
            let mut children: NameMap<CustomModule> = NameMap::new();
            proof {
                assert(children.tree_view() =~= Map::<Seq<u8>, CustomView>::empty());
            }
            let accepted = children.insert_from(path, k + 1, target, is_link);
            let sub = CustomModule::Dir { children };
            proof {
                self.lemma_tree_insert(head, sub, p as int);
            }
            self.names.insert(p, head);
            self.values.insert(p, sub);
            accepted
        } else {
            let mut child = self.values.remove(p);
            let accepted = match &mut child {
                CustomModule::Dir { children } => children.insert_from(path, k + 1, target, is_link),
                CustomModule::File { .. } => false,
            };
            proof {
                before.lemma_tree_update(p as int, child);
                assert(before.values@.remove(p as int).insert(p as int, child) =~= before.values@.update(p as int, child));
                if !(child is Dir) {
                    assert(before.values@.update(p as int, child) =~= before.values@);
                }
            }
            self.values.insert(p, child);
            accepted
        }
    }

    /// Putting a new name with a well-formed subtree at its place adds one
    /// entry to the children and keeps the tree well formed.
    pub proof fn lemma_tree_insert(&self, name: Vec<u8>, sub: CustomModule, p: int)
        requires
            self.tree_wf(),
            sub.wf(),
            0 <= p <= self.names.len(),
            forall|i: int| 0 <= i < p ==> crate::name::name_lt(#[trigger] self.names@[i]@, name@),
            forall|i: int| p <= i < self.names.len() ==> crate::name::name_lt(name@, #[trigger] self.names@[i]@),
        ensures
            crate::name_map::strictly_sorted(self.names@.insert(p, name)),
            forall|i: int| 0 <= i < self.values@.len() + 1 ==> (#[trigger] self.values@.insert(p, sub)[i]).wf(),
            children_view(self.names@.insert(p, name), self.values@.insert(p, sub))
                == self.tree_view().insert(name@, sub.view()),
    {
        let names2 = self.names@.insert(p, name);
        let values2 = self.values@.insert(p, sub);
        lemma_find_insert(self.names@, name, p);
        assert forall|i: int| 0 <= i < values2.len() implies (#[trigger] values2[i]).wf() by {
            if i < p {
                assert(values2[i] == self.values@[i]);
            } else if i > p {
                assert(values2[i] == self.values@[i - 1]);
            }
        }
        assert forall|n: Seq<u8>| #[trigger]
            children_view(names2, values2).contains_key(n) == self.tree_view().insert(
                name@,
                sub.view(),
            ).contains_key(n) by {
            lemma_find_shift(self.names@, name, p, n);
        }
        assert forall|n: Seq<u8>| children_view(names2, values2).contains_key(n) implies #[trigger]
            children_view(names2, values2)[n] == self.tree_view().insert(name@, sub.view())[n] by {
            lemma_find_shift(self.names@, name, p, n);
        }
        assert(children_view(names2, values2) =~= self.tree_view().insert(name@, sub.view()));
    }

    /// Replacing the subtree at place `p` replaces the entry of that name.
    pub proof fn lemma_tree_update(&self, p: int, sub: CustomModule)
        requires
            self.tree_wf(),
            0 <= p < self.names.len(),
        ensures
            children_view(self.names@, self.values@.update(p, sub)) == self.tree_view().insert(
                self.names@[p]@,
                sub.view(),
            ),
    {
        let values2 = self.values@.update(p, sub);
        assert forall|n: Seq<u8>| children_view(self.names@, values2).contains_key(n) implies #[trigger]
            children_view(self.names@, values2)[n] == self.tree_view().insert(self.names@[p]@, sub.view())[n] by {
            lemma_find(self.names@, n);
            lemma_find_sorted(self.names@, p);
        }
        lemma_find_sorted(self.names@, p);
        assert(children_view(self.names@, values2) =~= self.tree_view().insert(self.names@[p]@, sub.view()));
    }
}

} // verus!
