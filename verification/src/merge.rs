//! The merge of one directory level: which entries the sources yield
//! together, each name once, the first source that has it winning.

use vstd::prelude::*;
use crate::custom::{children_view, CustomModule, CustomView};
use crate::fs::FsNode;
use crate::name::{join, join_spec, name_copy, name_lt};
use crate::name_map::{find, lemma_find, lemma_find_remove, lemma_find_sorted, NameMap};
use crate::node::path_view;
use crate::source::{
    custom_child, custom_top, customs_height, dir_wf, lemma_custom_agree, lemma_custom_top,
    lemma_open_custom, lemma_open_real, lemma_real_take, lemma_real_top, open_custom, open_real,
    real_height, real_top, sources_view, Source, SourceView,
};

verus! {

/// What is left to merge at one directory level: the real sources and the
/// virtual trees that contribute, the last of each list first in rank and
/// every real source before every virtual one, and the names that were
/// yielded already.
pub ghost struct MergeState {
    pub modules: Seq<SourceView>,
    pub customs: Seq<CustomModule>,
    pub seen: Set<Seq<u8>>,
}

/// One merged entry as a mathematical value.
pub ghost enum EntryView {
    /// A subdirectory, with what is to be merged below it.
    Dir { name: Seq<u8>, sub: MergeState },
    /// A leaf; without a path it is a deletion.
    File { name: Seq<u8>, path: Option<Seq<u8>>, is_link: bool },
}

/// Every name of the list was yielded already.
pub open spec fn exhausted(names: Seq<Vec<u8>>, seen: Set<Seq<u8>>) -> bool {
    forall|i: int| 0 <= i < names.len() ==> seen.contains(#[trigger] names[i]@)
}

/// `name` is the first name of the sorted list that was not yielded yet.
pub open spec fn first_unseen(names: Seq<Vec<u8>>, seen: Set<Seq<u8>>, name: Seq<u8>) -> bool {
    &&& exists|i: int| 0 <= i < names.len() && #[trigger] names[i]@ == name
    &&& !seen.contains(name)
    &&& forall|i: int| 0 <= i < names.len() && name_lt(#[trigger] names[i]@, name) ==> seen.contains(names[i]@)
}

/// The names of the children of a virtual tree; a leaf has none.
pub open spec fn custom_names(c: CustomModule) -> Seq<Vec<u8>> {
    match c {
        CustomModule::Dir { children } => children.names@,
        CustomModule::File { .. } => Seq::empty(),
    }
}

/// The number of entries in all the real sources together.
pub open spec fn real_total(mods: Seq<SourceView>) -> nat
    decreases mods.len(),
{
    if mods.len() == 0 {
        0
    } else {
        real_total(mods.drop_last()) + mods.last().dir.names@.len()
    }
}

/// The number of children in all the virtual trees together.
pub open spec fn custom_total(customs: Seq<CustomModule>) -> nat
    decreases customs.len(),
{
    if customs.len() == 0 {
        0
    } else {
        custom_total(customs.drop_last()) + custom_names(customs.last()).len()
    }
}

/// Virtual trees of which none has more children than before have no more
/// children together.
pub proof fn lemma_custom_total(a: Seq<CustomModule>, b: Seq<CustomModule>)
    requires
        a.len() == b.len(),
        forall|i: int| 0 <= i < a.len() ==> custom_names(#[trigger] b[i]).len() <= custom_names(a[i]).len(),
    ensures
        custom_total(b) <= custom_total(a),
    decreases a.len(),
{
    if a.len() > 0 {
        let a2 = a.drop_last();
        let b2 = b.drop_last();
        assert forall|i: int| 0 <= i < a2.len() implies custom_names(#[trigger] b2[i]).len() <= custom_names(
            a2[i],
        ).len() by {
            assert(b2[i] == b[i]);
            assert(a2[i] == a[i]);
        }
        lemma_custom_total(a2, b2);
        assert(custom_names(b[b.len() - 1]).len() <= custom_names(a[a.len() - 1]).len());
    }
}

impl MergeState {
    /// Every source is sorted at every level.
    pub open spec fn wf(self) -> bool {
        &&& forall|i: int| 0 <= i < self.modules.len() ==> dir_wf(#[trigger] self.modules[i].dir)
        &&& forall|i: int| 0 <= i < self.customs.len() ==> (#[trigger] self.customs[i]).wf()
    }

    /// Some source has an entry `name`.
    pub open spec fn offers(self, name: Seq<u8>) -> bool {
        real_top(self.modules, name) >= 0 || custom_top(self.customs, name) >= 0
    }

    /// The merge has yet to yield `name`.
    pub open spec fn emits(self, name: Seq<u8>) -> bool {
        self.offers(name) && !self.seen.contains(name)
    }

    /// What is to be merged below the subdirectory `name`: the
    /// subdirectories of that name of all real sources that have one, and
    /// what the virtual trees hold under the name.
    pub open spec fn below(self, name: Seq<u8>) -> MergeState {
        MergeState {
            modules: open_real(self.modules, name),
            customs: open_custom(self.customs, name),
            seen: Set::empty(),
        }
    }

    /// The entry that the merge yields for `name`. The last real source
    /// that has the name decides; where no real source has it, the last
    /// virtual tree that has it decides. A directory stands for the
    /// directories of that name of all sources. A file stands at its path
    /// in the source, a symbolic link brings its target, and a whiteout is
    /// a deletion.
    pub open spec fn entry(self, name: Seq<u8>) -> EntryView
        recommends
            self.offers(name),
    {
        let t = real_top(self.modules, name);
        if t >= 0 {
            let s = self.modules[t];
            match s.dir.value(name) {
                FsNode::Dir { .. } => EntryView::Dir { name, sub: self.below(name) },
                FsNode::File => EntryView::File { name, path: Some(join_spec(s.path, name)), is_link: false },
                FsNode::Symlink { target } => EntryView::File { name, path: Some(target@), is_link: true },
                FsNode::Whiteout => EntryView::File { name, path: None, is_link: false },
            }
        } else {
            custom_entry(custom_child(self.customs[custom_top(self.customs, name)], name)->0, name, self.below(name))
        }
    }

    /// What loses to the entry `name`: the entries of that name, other than
    /// directories, of the real sources of lower rank than the one that
    /// wins and, where a leaf wins, the leaves of that name of the virtual
    /// trees of lower rank. Each is given by its path: a real entry by the
    /// path at which it lies, a virtual leaf by the path it stands for.
    pub open spec fn losers(self, name: Seq<u8>) -> Seq<Seq<u8>> {
        let t = real_top(self.modules, name);
        let c = custom_top(self.customs, name);
        if t >= 0 {
            real_losers(self.modules.take(t), name) + (if self.entry(name) is File {
                custom_leaves(self.customs, name)
            } else {
                Seq::empty()
            })
        } else if c >= 0 && self.entry(name) is File {
            custom_leaves(self.customs.take(c), name)
        } else {
            Seq::empty()
        }
    }

    /// The number of directory levels that the sources reach down.
    pub open spec fn height(self) -> nat {
        let r = real_height(self.modules);
        let c = customs_height(self.customs);
        if r > c { r } else { c }
    }

    /// What is to be merged below a name that some source has is well
    /// formed and less high.
    pub proof fn lemma_below(self, name: Seq<u8>)
        requires
            self.wf(),
        ensures
            self.below(name).wf(),
            self.offers(name) ==> self.below(name).height() < self.height(),
    {
        lemma_open_real(self.modules, name);
        lemma_open_custom(self.customs, name);
        lemma_real_top(self.modules, name);
        lemma_custom_top(self.customs, name);
    }
}

/// The entry that a virtual node gives under `name`: a directory with what
/// is to be merged below it, or the leaf that the node is.
pub open spec fn custom_entry(node: CustomModule, name: Seq<u8>, sub: MergeState) -> EntryView {
    match node {
        CustomModule::Dir { .. } => EntryView::Dir { name, sub },
        CustomModule::File { path, is_link } => EntryView::File { name, path: Some(path@), is_link },
    }
}

/// The paths of the entries `name` of those real sources that hold
/// something other than a directory under the name, in the order of the
/// sources.
pub open spec fn real_losers(mods: Seq<SourceView>, name: Seq<u8>) -> Seq<Seq<u8>>
    decreases mods.len(),
{
    if mods.len() == 0 {
        Seq::empty()
    } else {
        let rest = real_losers(mods.drop_last(), name);
        let s = mods.last();
        if s.dir.has(name) && !(s.dir.value(name) is Dir) {
            rest.push(join_spec(s.path, name))
        } else {
            rest
        }
    }
}

/// The paths that the leaves `name` of those virtual trees stand for that
/// hold a leaf under the name, in the order of the trees.
pub open spec fn custom_leaves(customs: Seq<CustomModule>, name: Seq<u8>) -> Seq<Seq<u8>>
    decreases customs.len(),
{
    if customs.len() == 0 {
        Seq::empty()
    } else {
        let rest = custom_leaves(customs.drop_last(), name);
        match custom_child(customs.last(), name) {
            Some(CustomModule::File { path, .. }) => rest.push(path@),
            _ => rest,
        }
    }
}

/// Lists of virtual trees that agree under a name, but for trees at the
/// end of the longer one that hold no child under it, hold the same leaves
/// under it.
pub proof fn lemma_leaves_agree(a: Seq<CustomModule>, b: Seq<CustomModule>, name: Seq<u8>)
    requires
        b.len() <= a.len(),
        forall|i: int| 0 <= i < b.len() ==> custom_child(#[trigger] b[i], name) == custom_child(a[i], name),
        forall|i: int| b.len() <= i < a.len() ==> custom_child(#[trigger] a[i], name) is None,
    ensures
        custom_leaves(b, name) == custom_leaves(a, name),
    decreases a.len(),
{
    if a.len() > 0 {
        let shorter = a.drop_last();
        if b.len() == a.len() {
            let b2 = b.drop_last();
            assert forall|i: int| 0 <= i < b2.len() implies custom_child(#[trigger] b2[i], name) == custom_child(
                shorter[i],
                name,
            ) by {
                assert(b2[i] == b[i]);
                assert(shorter[i] == a[i]);
            }
            assert(custom_child(b[b.len() - 1], name) == custom_child(a[a.len() - 1], name));
            lemma_leaves_agree(shorter, b2, name);
        } else {
            assert(custom_child(a[a.len() - 1], name) is None);
            assert forall|i: int| 0 <= i < b.len() implies custom_child(#[trigger] b[i], name) == custom_child(
                shorter[i],
                name,
            ) by {
                assert(shorter[i] == a[i]);
            }
            assert forall|i: int| b.len() <= i < shorter.len() implies custom_child(
                #[trigger] shorter[i],
                name,
            ) is None by {
                assert(shorter[i] == a[i]);
            }
            lemma_leaves_agree(shorter, b, name);
        }
    } else {
        assert(b =~= a);
    }
}

/// What stands to lose to the entry `name` once it is yielded, seen from
/// the merge as it is right after: the entries of that name, other than
/// directories, of the real sources below the one in reading, and the
/// leaves of that name that the virtual trees still hold.
pub open spec fn lost_now(t: MergeState, name: Seq<u8>) -> Seq<Seq<u8>> {
    (if t.modules.len() > 0 {
        real_losers(t.modules.drop_last(), name)
    } else {
        Seq::empty()
    }) + custom_leaves(t.customs, name)
}

/// The source that wins `name` is the last that is left once the name is
/// yielded: the real source at place `reals - 1`, with every virtual tree
/// still there, or, where no real source has the name, the virtual tree at
/// place `customs - 1`.
pub open spec fn won(s: MergeState, reals: int, customs: int, name: Seq<u8>) -> bool {
    if reals > 0 {
        real_top(s.modules, name) == reals - 1 && customs == s.customs.len()
    } else {
        real_top(s.modules, name) < 0 && custom_top(s.customs, name) == customs - 1
    }
}

/// What the virtual tree at place `i` holds under `name` after the name
/// was yielded: nothing where a directory was yielded, since all that
/// stood under the name went below it, and nothing in the tree that the
/// entry was taken from; else what it held before.
pub open spec fn left_under(s: MergeState, is_dir: bool, reals: int, customs: int, i: int, name: Seq<u8>) -> Option<
    CustomModule,
> {
    if is_dir || (reals == 0 && i == customs - 1) {
        None
    } else {
        custom_child(s.customs[i], name)
    }
}

/// `t` is what is left of `s` after entries were read: names were yielded,
/// real sources that were read to their end were given up, and of the
/// virtual trees only children of yielded names are gone.
pub open spec fn advances(s: MergeState, t: MergeState) -> bool {
    &&& forall|n: Seq<u8>| s.seen.contains(n) ==> #[trigger] t.seen.contains(n)
    &&& t.modules.len() <= s.modules.len()
    &&& t.customs.len() <= s.customs.len()
    &&& t.modules == s.modules.take(t.modules.len() as int)
    &&& forall|i: int|
        t.modules.len() <= i < s.modules.len() ==> exhausted((#[trigger] s.modules[i]).dir.names@, t.seen)
    &&& forall|i: int, n: Seq<u8>|
        0 <= i < t.customs.len() && !t.seen.contains(n) ==> #[trigger] custom_child(t.customs[i], n)
            == custom_child(s.customs[i], n)
    &&& forall|i: int, n: Seq<u8>|
        t.customs.len() <= i < s.customs.len() && (#[trigger] custom_child(s.customs[i], n)) is Some
            ==> t.seen.contains(n)
}

/// Reading entries changes nothing for a name that is still to come.
pub proof fn lemma_stable(s: MergeState, t: MergeState, name: Seq<u8>)
    requires
        advances(s, t),
        !t.seen.contains(name),
    ensures
        t.offers(name) == s.offers(name),
        real_top(t.modules, name) == real_top(s.modules, name),
        custom_top(t.customs, name) == custom_top(s.customs, name),
        t.below(name).modules == s.below(name).modules,
        t.below(name).customs == s.below(name).customs,
        t.offers(name) ==> t.entry(name) == s.entry(name),
        t.losers(name) == s.losers(name),
{
    assert forall|k: int| t.modules.len() <= k < s.modules.len() implies !(#[trigger] s.modules[k]).dir.has(name) by {
        lemma_find(s.modules[k].dir.names@, name);
    }
    assert forall|i: int| 0 <= i < t.customs.len() implies custom_child(#[trigger] t.customs[i], name)
        == custom_child(s.customs[i], name) by {}
    assert forall|i: int| t.customs.len() <= i < s.customs.len() implies custom_child(
        #[trigger] s.customs[i],
        name,
    ) is None by {}
    lemma_real_take(s.modules, t.modules.len() as int, name);
    lemma_custom_agree(s.customs, t.customs, name);
    lemma_real_top(s.modules, name);
    lemma_custom_top(s.customs, name);
    lemma_custom_top(t.customs, name);
    lemma_leaves_agree(s.customs, t.customs, name);
    let top = real_top(s.modules, name);
    let c = custom_top(s.customs, name);
    if top >= 0 {
        assert(t.modules.take(top) =~= s.modules.take(top));
    } else if c >= 0 {
        let sc = s.customs.take(c);
        let tc = t.customs.take(c);
        assert forall|i: int| 0 <= i < tc.len() implies custom_child(#[trigger] tc[i], name) == custom_child(
            sc[i],
            name,
        ) by {
            assert(tc[i] == t.customs[i]);
            assert(sc[i] == s.customs[i]);
        }
        lemma_leaves_agree(sc, tc, name);
    }
}

/// Reading nothing is a way of reading on.
pub proof fn lemma_advances_self(s: MergeState)
    ensures
        advances(s, s),
{
    assert(s.modules.take(s.modules.len() as int) =~= s.modules);
}

/// Reading on after reading is reading.
pub proof fn lemma_advances(a: MergeState, b: MergeState, c: MergeState)
    requires
        advances(a, b),
        advances(b, c),
    ensures
        advances(a, c),
{
    assert(c.modules =~= a.modules.take(c.modules.len() as int));
    assert forall|n: Seq<u8>| a.seen.contains(n) implies #[trigger] c.seen.contains(n) by {
        assert(b.seen.contains(n));
    }
    assert forall|i: int| c.modules.len() <= i < a.modules.len() implies exhausted(
        (#[trigger] a.modules[i]).dir.names@,
        c.seen,
    ) by {
        if i < b.modules.len() {
            assert(b.modules[i] == a.modules[i]);
            assert(exhausted(b.modules[i].dir.names@, c.seen));
        } else {
            assert(exhausted(a.modules[i].dir.names@, b.seen));
            assert forall|k: int| 0 <= k < a.modules[i].dir.names@.len() implies c.seen.contains(
                #[trigger] a.modules[i].dir.names@[k]@,
            ) by {
                assert(b.seen.contains(a.modules[i].dir.names@[k]@));
            }
        }
    }
    assert forall|i: int, n: Seq<u8>| 0 <= i < c.customs.len() && !c.seen.contains(n) implies #[trigger] custom_child(
        c.customs[i],
        n,
    ) == custom_child(a.customs[i], n) by {
        if b.seen.contains(n) {
            assert(c.seen.contains(n));
        }
        assert(custom_child(b.customs[i], n) == custom_child(a.customs[i], n));
    }
    assert forall|i: int, n: Seq<u8>|
        c.customs.len() <= i < a.customs.len() && (#[trigger] custom_child(a.customs[i], n)) is Some implies c.seen.contains(
        n,
    ) by {
        if i < b.customs.len() {
            if !b.seen.contains(n) {
                assert(custom_child(b.customs[i], n) == custom_child(a.customs[i], n));
            } else {
                assert(c.seen.contains(n));
            }
        } else {
            assert(b.seen.contains(n));
            assert(c.seen.contains(n));
        }
    }
}

/// One entry of the merged view of a directory.
pub enum ModuleEntry<'a> {
    /// A subdirectory, with the merge of what the sources hold below it.
    Dir { name: Vec<u8>, iter: ModuleIterator<'a> },
    /// A leaf: a file at `path`, a symbolic link to `path`, or without a
    /// path a deletion.
    File { name: Vec<u8>, path: Option<Vec<u8>>, is_link: bool },
}

/// The merge of one directory level, yielding its entries one by one. It
/// owns its virtual trees and takes out of them what it reads.
pub struct ModuleIterator<'a> {
    /// The real sources that are not read to their end; the last is read
    /// first.
    pub modules: Vec<Source<'a>>,
    /// The virtual trees that still hold children; they are read after the
    /// real sources, the last first.
    pub customs: Vec<CustomModule>,
    /// How many entries of the real source in reading were read.
    pub pos: usize,
    /// The names yielded so far.
    pub collected: NameMap<()>,
}

/// What became of one entry that was read from the sources.
pub enum Step<'a> {
    /// It is an entry of the merged directory.
    Entry(ModuleEntry<'a>),
    /// It was dropped, because a source of higher rank holds its name. For
    /// a directory this is the way of the merge; for anything else it is a
    /// conflict between the sources.
    Dropped { name: Vec<u8>, is_dir: bool },
    /// No entry was left to read.
    End,
}

impl<'a> ModuleEntry<'a> {
    /// The entry as a mathematical value.
    pub open spec fn view(&self) -> EntryView {
        match self {
            ModuleEntry::Dir { name, iter } => EntryView::Dir { name: name@, sub: iter@ },
            ModuleEntry::File { name, path, is_link } => EntryView::File {
                name: name@,
                path: path_view(*path),
                is_link: *is_link,
            },
        }
    }

    /// The name of the entry.
    pub open spec fn name(&self) -> Seq<u8> {
        match self {
            ModuleEntry::Dir { name, .. } => name@,
            ModuleEntry::File { name, .. } => name@,
        }
    }
}

/// The subdirectories `name` of the real sources that have one, each with
/// its path.
pub fn open_dir<'a>(mods: &Vec<Source<'a>>, name: &Vec<u8>) -> (r: Vec<Source<'a>>)
    requires
        forall|i: int| 0 <= i < mods.len() ==> dir_wf(#[trigger] *mods[i].dir),
    ensures
        sources_view(r@) == open_real(sources_view(mods@), name@),
{
    let mut r: Vec<Source<'a>> = Vec::new();
    let mut i: usize = 0;
    let ghost all = sources_view(mods@);
    proof {
        assert(sources_view(r@) =~= open_real(all.take(0), name@));
    }
    while i < mods.len()
        invariant
            i <= mods.len(),
            all == sources_view(mods@),
            forall|k: int| 0 <= k < mods.len() ==> dir_wf(#[trigger] *mods[k].dir),
            sources_view(r@) == open_real(all.take(i as int), name@),
        decreases mods.len() - i,
    {
        let dir: &'a NameMap<FsNode> = mods[i].dir;
        let ghost before = sources_view(r@);
        proof {
            assert(dir_wf(*mods[i as int].dir));
            assert(all.take(i + 1).drop_last() =~= all.take(i as int));
            assert(all.take(i + 1).last() == mods[i as int]@);
        }
        let (p, found) = dir.search(name);
        if found {
            match &dir.values[p] {
                FsNode::Dir { entries } => {
                    let path = join(&mods[i].path, name);
                    r.push(Source { path, dir: entries });
                    proof {
                        assert(sources_view(r@) =~= before.push(
                            SourceView { path: join_spec(mods[i as int].path@, name@), dir: *entries },
                        ));
                    }
                },
                _ => {},
            }
        }
        i += 1;
    }
    proof {
        assert(all.take(mods.len() as int) =~= all);
    }
    r
}

/// `b` is the virtual tree `a` with its child `name` taken out; a tree
/// without such a child is as it was.
pub open spec fn taken(a: CustomModule, b: CustomModule, name: Seq<u8>) -> bool {
    match custom_child(a, name) {
        Some(_) => {
            let p = find(a->children.names@, name);
            &&& b is Dir
            &&& b->children.names@ == a->children.names@.remove(p)
            &&& b->children.values@ == a->children.values@.remove(p)
        },
        None => b == a,
    }
}

/// The view of a virtual tree without its child `name`.
pub open spec fn view_without(v: CustomView, name: Seq<u8>) -> CustomView {
    match v {
        CustomView::Dir { children } => CustomView::Dir { children: children.remove(name) },
        CustomView::File { .. } => v,
    }
}

/// A virtual tree whose child was taken out is well formed, lacks the
/// name, holds every other child as before, and has the view of the old
/// tree without that name.
pub proof fn lemma_taken(a: CustomModule, b: CustomModule, name: Seq<u8>)
    requires
        a.wf(),
        taken(a, b, name),
    ensures
        b.wf(),
        custom_child(b, name) is None,
        forall|n: Seq<u8>| n != name ==> #[trigger] custom_child(b, n) == custom_child(a, n),
        b@ == view_without(a@, name),
        custom_names(b).len() <= custom_names(a).len(),
        custom_child(a, name) is Some ==> custom_names(b).len() == custom_names(a).len() - 1,
{
    match custom_child(a, name) {
        Some(_) => {
            let names = a->children.names@;
            let values = a->children.values@;
            let p = find(names, name);
            lemma_find(names, name);
            let names2 = names.remove(p);
            let values2 = values.remove(p);
            lemma_find_remove(names, p, name);
            assert forall|i: int| 0 <= i < values2.len() implies (#[trigger] values2[i]).wf() by {
                let j = if i < p { i } else { i + 1 };
                assert(values2[i] == values[j]);
            }
            assert forall|n: Seq<u8>| n != name implies #[trigger] custom_child(b, n) == custom_child(a, n) by {
                lemma_find_remove(names, p, n);
                lemma_find(names, n);
            }
            let left = children_view(names2, values2);
            let right = children_view(names, values).remove(name);
            assert forall|n: Seq<u8>| #[trigger] left.contains_key(n) == right.contains_key(n) by {
                lemma_find_remove(names, p, n);
                lemma_find(names, n);
            }
            assert forall|n: Seq<u8>| left.contains_key(n) implies #[trigger] left[n] == right[n] by {
                lemma_find_remove(names, p, n);
                lemma_find(names, n);
            }
            assert(left =~= right);
        },
        None => {
            match a {
                CustomModule::Dir { children } => {
                    assert(children_view(children.names@, children.values@).remove(name) =~= children_view(
                        children.names@,
                        children.values@,
                    ));
                },
                CustomModule::File { .. } => {},
            }
        },
    }
}

/// Takes out of every virtual tree of the list the child `name`, and hands
/// over what was taken, in the order of the list.
pub fn open_custom_dir(customs: &mut Vec<CustomModule>, name: &Vec<u8>) -> (r: Vec<CustomModule>)
    requires
        forall|i: int| 0 <= i < old(customs).len() ==> (#[trigger] old(customs)[i]).wf(),
    ensures
        r@ == open_custom(old(customs)@, name@),
        final(customs).len() == old(customs).len(),
        forall|i: int| 0 <= i < old(customs).len() ==> taken(old(customs)[i], #[trigger] final(customs)[i], name@),
        forall|i: int| 0 <= i < final(customs).len() ==> (#[trigger] final(customs)[i]).wf(),
        forall|i: int| 0 <= i < final(customs).len() ==> custom_child(#[trigger] final(customs)[i], name@) is None,
        forall|i: int, n: Seq<u8>|
            0 <= i < final(customs).len() && n != name@ ==> #[trigger] custom_child(final(customs)[i], n)
                == custom_child(old(customs)[i], n),
        forall|i: int|
            0 <= i < final(customs).len() ==> (#[trigger] final(customs)[i])@ == view_without(
                old(customs)[i]@,
                name@,
            ),
        custom_total(final(customs)@) <= custom_total(old(customs)@),
        forall|i: int| 0 <= i < r.len() ==> (#[trigger] r[i]).wf(),
{
    proof {
        lemma_open_custom(customs@, name@);
    }
    let mut r: Vec<CustomModule> = Vec::new();
    let mut i: usize = 0;
    let ghost all = customs@;
    proof {
        assert(r@ =~= open_custom(all.take(0), name@));
    }
    while i < customs.len()
        invariant
            i <= customs.len(),
            all == old(customs)@,
            customs.len() == all.len(),
            forall|k: int| 0 <= k < all.len() ==> (#[trigger] all[k]).wf(),
            forall|k: int| 0 <= k < i ==> taken(all[k], #[trigger] customs[k], name@),
            forall|k: int| i <= k < customs.len() ==> #[trigger] customs[k] == all[k],
            r@ == open_custom(all.take(i as int), name@),
        decreases customs.len() - i,
    {
        let ghost before = customs@;
        let ghost found_before = r@;
        proof {
            assert(all.take(i + 1).drop_last() =~= all.take(i as int));
            assert(all.take(i + 1).last() == all[i as int]);
            assert(all[i as int].wf());
            assert(customs[i as int] == all[i as int]);
        }
        let node = customs.remove(i);
        match node {
            CustomModule::Dir { mut children } => {
                let (p, found) = children.search(name);
                if found {
                    children.names.remove(p);
                    let child = children.values.remove(p);
                    r.push(child);
                }
                customs.insert(i, CustomModule::Dir { children });
            },
            other => {
                customs.insert(i, other);
            },
        }
        proof {
            assert(customs@ =~= before.update(i as int, customs[i as int]));
            assert(taken(all[i as int], customs[i as int], name@));
            assert forall|k: int| 0 <= k < i + 1 implies taken(all[k], #[trigger] customs[k], name@) by {
                if k < i {
                    assert(customs[k] == before[k]);
                }
            }
            assert forall|k: int| i + 1 <= k < customs.len() implies #[trigger] customs[k] == all[k] by {
                assert(customs[k] == before[k]);
            }
        }
        i += 1;
    }
    proof {
        assert(all.take(all.len() as int) =~= all);
        assert forall|k: int| 0 <= k < customs.len() implies (#[trigger] customs[k]).wf() && custom_child(
            customs[k],
            name@,
        ) is None && customs[k]@ == view_without(all[k]@, name@) && custom_names(customs[k]).len() <= custom_names(
            all[k],
        ).len() by {
            lemma_taken(all[k], customs[k], name@);
        }
        assert forall|k: int, n: Seq<u8>| 0 <= k < customs.len() && n != name@ implies #[trigger] custom_child(
            customs[k],
            n,
        ) == custom_child(all[k], n) by {
            lemma_taken(all[k], customs[k], name@);
        }
        lemma_custom_total(all, customs@);
    }
    r
}

/// The number of children of a virtual tree.
pub fn custom_len(c: &CustomModule) -> (r: usize)
    ensures
        r == custom_names(*c).len(),
{
    match c {
        CustomModule::Dir { children } => children.names.len(),
        CustomModule::File { .. } => 0,
    }
}

/// A virtual tree that has a child has a name for it.
pub proof fn lemma_child_count(c: CustomModule, name: Seq<u8>)
    ensures
        custom_child(c, name) is Some ==> custom_names(c).len() > 0,
{
    if c is Dir {
        lemma_find(c->children.names@, name);
    }
}

/// The entry that was read: with a real source in reading, the one before
/// its reading position; else the first child that the last virtual tree
/// held, every tree after it being empty.
pub open spec fn was_read(before: Seq<CustomModule>, after: ModuleIterator, name: Seq<u8>, is_dir: bool) -> bool {
    if after.modules.len() > 0 {
        after.has_read(name) && is_dir == after.reads_dir(after.pos - 1)
    } else {
        let k = after.customs.len() - 1;
        &&& 0 <= k < before.len()
        &&& before[k] is Dir
        &&& custom_names(before[k]).len() > 0
        &&& custom_names(before[k])[0]@ == name
        &&& is_dir == (before[k]->children.values@[0] is Dir)
        &&& forall|i: int| k < i < before.len() ==> custom_names(#[trigger] before[i]).len() == 0
    }
}

/// `name` is the name that the merge yields first: the first name not
/// yielded yet of the source of highest rank that has such a name. `reals`
/// and `customs` say how many sources of each kind are left once it is
/// yielded: the source that gave it is the last of them.
pub open spec fn comes_first(s: MergeState, reals: int, customs: int, name: Seq<u8>) -> bool {
    if reals > 0 {
        reals <= s.modules.len() && first_unseen(s.modules[reals - 1].dir.names@, s.seen, name)
    } else {
        0 < customs <= s.customs.len() && first_unseen(custom_names(s.customs[customs - 1]), s.seen, name)
    }
}

impl<'a> ModuleIterator<'a> {
    /// What is left to merge.
    pub open spec fn view(&self) -> MergeState {
        MergeState { modules: sources_view(self.modules@), customs: self.customs@, seen: self.collected.dom() }
    }

    /// The names of the real source in reading, the last one; none once no
    /// real source is left.
    pub open spec fn reading(&self) -> Seq<Vec<u8>> {
        if self.modules.len() > 0 {
            self.modules@.last().dir.names@
        } else {
            Seq::empty()
        }
    }

    /// The number of entries that are still to be read.
    pub open spec fn remaining(&self) -> int {
        real_total(self@.modules) - self.pos + custom_total(self@.customs)
    }

    /// The sources are well formed, and the entries read of the real source
    /// in reading were all yielded.
    pub open spec fn wf(&self) -> bool {
        &&& self@.wf()
        &&& self.collected.wf()
        &&& self.pos <= self.reading().len()
        &&& forall|i: int| 0 <= i < self.pos ==> self.collected.has(#[trigger] self.reading()[i]@)
    }

    /// Whether the entry at place `i` of the real source in reading is a
    /// directory.
    pub open spec fn reads_dir(&self, i: int) -> bool {
        self.modules@.last().dir.values@[i] is Dir
    }

    /// The entry that was read last of the real source in reading has the
    /// name `name`.
    pub open spec fn has_read(&self, name: Seq<u8>) -> bool {
        1 <= self.pos <= self.reading().len() && self.reading()[self.pos - 1]@ == name
    }

    /// Each real source of a well-formed merge is sorted at every level.
    pub proof fn lemma_sources_wf(&self)
        requires
            self@.wf(),
        ensures
            forall|i: int| 0 <= i < self.modules.len() ==> dir_wf(#[trigger] *self.modules[i].dir),
            forall|i: int| 0 <= i < self.customs.len() ==> (#[trigger] self.customs[i]).wf(),
    {
        assert forall|i: int| 0 <= i < self.modules.len() implies dir_wf(#[trigger] *self.modules[i].dir) by {
            assert(self@.modules[i] == self.modules@[i]@);
            assert(dir_wf(self@.modules[i].dir));
        }
        assert forall|i: int| 0 <= i < self.customs.len() implies (#[trigger] self.customs[i]).wf() by {
            assert(self@.customs[i].wf());
        }
    }

    /// A source that was read to its end does not have a name that is still
    /// to come.
    pub proof fn lemma_exhausted_lacks(names: Seq<Vec<u8>>, seen: Set<Seq<u8>>, name: Seq<u8>)
        requires
            exhausted(names, seen),
            !seen.contains(name),
        ensures
            !(find(names, name) < names.len()),
    {
        lemma_find(names, name);
    }

    /// Gives up the real sources that are read to their end and, once no
    /// real source is left, the virtual trees without children, so that there
    /// is an entry to read unless no source is left.
    pub fn settle(&mut self)
        requires
            old(self).wf(),
        ensures
            final(self).wf(),
            advances(old(self)@, final(self)@),
            final(self).collected == old(self).collected,
            final(self).remaining() == old(self).remaining(),
            final(self)@.modules == old(self)@.modules.take(final(self).modules.len() as int),
            final(self).customs.len() <= old(self).customs.len(),
            final(self).customs@ == old(self).customs@.take(final(self).customs.len() as int),
            forall|i: int|
                final(self).customs.len() <= i < old(self).customs.len() ==> custom_names(
                    #[trigger] old(self).customs[i],
                ).len() == 0,
            forall|i: int|
                final(self).modules.len() <= i < old(self).modules.len() ==> exhausted(
                    (#[trigger] old(self)@.modules[i]).dir.names@,
                    old(self)@.seen,
                ),
            final(self).modules.len() > 0 ==> final(self).customs.len() == old(self).customs.len()
                && final(self).pos < final(self).reading().len(),
            final(self).modules.len() == 0 ==> final(self).pos == 0 && (final(self).customs.len() == 0
                || custom_names(final(self).customs@.last()).len() > 0),
    {
        let ghost start = self@;
        proof {
            assert(start.customs.take(start.customs.len() as int) =~= start.customs);
        }
        while self.modules.len() > 0 && self.pos >= self.modules[self.modules.len() - 1].dir.names.len()
            invariant
                self.wf(),
                start == old(self)@,
                self.collected == old(self).collected,
                self.customs == old(self).customs,
                self.modules.len() <= old(self).modules.len(),
                self@.modules == start.modules.take(self.modules.len() as int),
                self.remaining() == old(self).remaining(),
                forall|i: int|
                    self.modules.len() <= i < start.modules.len() ==> exhausted(
                        (#[trigger] start.modules[i]).dir.names@,
                        start.seen,
                    ),
            decreases self.modules.len(),
        {
            let last = self.modules.len() - 1;
            let ghost full = self@.modules;
            proof {
                assert(self@.modules[last as int] == self.modules@[last as int]@);
                assert(exhausted(self.reading(), start.seen));
                assert(self@.modules.take(last as int) =~= start.modules.take(last as int));
            }
            self.modules.pop();
            self.pos = 0;
            proof {
                assert(self@.modules =~= start.modules.take(last as int));
                assert(self@.modules =~= full.drop_last());
            }
        }
        if self.modules.len() == 0 {
            while self.customs.len() > 0 && custom_len(&self.customs[self.customs.len() - 1]) == 0
                invariant
                    self.wf(),
                    start == old(self)@,
                    self.collected == old(self).collected,
                    self.modules.len() == 0,
                    self.pos == 0,
                    self.customs.len() <= old(self).customs.len(),
                    self@.modules == start.modules.take(0),
                    self.customs@ == start.customs.take(self.customs.len() as int),
                    self.remaining() == old(self).remaining(),
                    forall|i: int|
                        0 <= i < start.modules.len() ==> exhausted(
                            (#[trigger] start.modules[i]).dir.names@,
                            start.seen,
                        ),
                    forall|i: int|
                        self.customs.len() <= i < start.customs.len() ==> custom_names(#[trigger] start.customs[i]).len()
                            == 0,
                decreases self.customs.len(),
            {
                let last = self.customs.len() - 1;
                let ghost full = self.customs@;
                proof {
                    assert(full.take(last as int) =~= start.customs.take(last as int));
                    assert(full[last as int] == start.customs[last as int]);
                }
                self.customs.pop();
                proof {
                    assert(self.customs@ =~= full.drop_last());
                    assert(self.customs@ =~= start.customs.take(last as int));
                }
            }
        }
        proof {
            assert forall|i: int, n: Seq<u8>|
                self.customs.len() <= i < start.customs.len() && (#[trigger] custom_child(
                    start.customs[i],
                    n,
                )) is Some implies self@.seen.contains(n) by {
                lemma_child_count(start.customs[i], n);
                assert(custom_names(start.customs[i]).len() == 0);
            }
        }
    }

    /// Reads one entry of the sources, in the order of their rank, takes it
    /// out of a virtual tree that held it, and says what became of it: it
    /// is yielded as an entry of the merged directory, or it is dropped
    /// because its name was yielded before, or there was no entry left to
    /// read. Where a directory is yielded, what the virtual trees hold under
    /// its name goes over to the merge below it.
    pub fn step(&mut self) -> (r: Step<'a>)
        requires
            old(self).wf(),
        ensures
            final(self).wf(),
            advances(old(self)@, final(self)@),
            final(self).modules.len() > 0 ==> final(self).customs.len() == old(self).customs.len(),
            match r {
                Step::End => {
                    &&& final(self).modules.len() == 0
                    &&& final(self).customs.len() == 0
                    &&& final(self)@.seen == old(self)@.seen
                    &&& old(self).remaining() == 0
                },
                Step::Dropped { name, is_dir } => {
                    &&& final(self)@.seen == old(self)@.seen
                    &&& old(self)@.seen.contains(name@)
                    &&& was_read(old(self).customs@, *final(self), name@, is_dir)
                    &&& forall|i: int, m: Seq<u8>|
                        0 <= i < final(self).customs.len() ==> #[trigger] custom_child(final(self).customs[i], m)
                            == (if final(self).modules.len() == 0 && i == final(self).customs.len() - 1 && m
                            == name@ {
                            None
                        } else {
                            custom_child(old(self).customs[i], m)
                        })
                    &&& final(self).remaining() == old(self).remaining() - 1
                    &&& final(self).remaining() >= 0
                },
                Step::Entry(e) => {
                    &&& e@ == old(self)@.entry(e.name())
                    &&& e is Dir ==> e->iter.wf()
                    &&& old(self)@.offers(e.name())
                    &&& !old(self)@.seen.contains(e.name())
                    &&& final(self)@.seen == old(self)@.seen.insert(e.name())
                    &&& was_read(old(self).customs@, *final(self), e.name(), e is Dir)
                    &&& won(
                        old(self)@,
                        final(self).modules.len() as int,
                        final(self).customs.len() as int,
                        e.name(),
                    )
                    &&& forall|i: int|
                        0 <= i < final(self).customs.len() ==> custom_child(
                            #[trigger] final(self).customs[i],
                            e.name(),
                        ) == left_under(
                            old(self)@,
                            e is Dir,
                            final(self).modules.len() as int,
                            final(self).customs.len() as int,
                            i,
                            e.name(),
                        )
                    &&& forall|i: int, m: Seq<u8>|
                        0 <= i < final(self).customs.len() && m != e.name() ==> #[trigger] custom_child(
                            final(self).customs[i],
                            m,
                        ) == custom_child(old(self).customs[i], m)
                    &&& 0 <= final(self).remaining() < old(self).remaining()
                },
            },
    {
        let ghost start = self@;
        self.settle();
        let ghost mid = self@;
        proof {
            self.lemma_sources_wf();
        }
        if self.modules.len() > 0 {
            let last = self.modules.len() - 1;
            let dir: &'a NameMap<FsNode> = self.modules[last].dir;
            proof {
                assert(self@.modules[last as int] == self.modules@[last as int]@);
                assert(dir_wf(self@.modules[last as int].dir));
            }
            let i = self.pos;
            let name: &'a Vec<u8> = &dir.names[i];
            proof {
                assert forall|k: int| 0 <= k < i implies self.collected.dom().contains(#[trigger] dir.names@[k]@) by {
                    assert(self.reading()[k] == dir.names@[k]);
                }
            }
            self.pos = i + 1;
            if self.collected.contains_key(name) {
                let is_dir = match &dir.values[i] {
                    FsNode::Dir { .. } => true,
                    _ => false,
                };
                proof {
                    assert forall|k: int| 0 <= k < self.pos implies self.collected.has(
                        #[trigger] self.reading()[k]@,
                    ) by {
                        assert(self.reading()[k] == dir.names@[k]);
                        assert(self.collected.dom().contains(dir.names@[k]@));
                    }
                    assert(self@.customs == mid.customs && self@.modules == mid.modules && self@.seen == mid.seen);
                }
                return Step::Dropped { name: name_copy(name), is_dir };
            }
            proof {
                lemma_find_sorted(dir.names@, i as int);
                assert forall|k: int| self.modules.len() <= k < start.modules.len() implies !(
                #[trigger] start.modules[k]).dir.has(name@) by {
                    Self::lemma_exhausted_lacks(start.modules[k].dir.names@, start.seen, name@);
                }
                lemma_real_take(start.modules, self.modules.len() as int, name@);
                assert(start.customs.take(start.customs.len() as int) =~= start.customs);
                self@.lemma_below(name@);
                assert(self@.modules.drop_last() =~= self@.modules.take(last as int));
            }
            let ghost before = self.customs@;
            let entry = match &dir.values[i] {
                FsNode::Dir { .. } => {
                    let modules = open_dir(&self.modules, name);
                    let customs = open_custom_dir(&mut self.customs, name);
                    let collected: NameMap<()> = NameMap::new();
                    let iter = ModuleIterator { modules, customs, pos: 0, collected };
                    proof {
                        assert(iter.collected.dom() =~= Set::<Seq<u8>>::empty());
                        assert forall|n: Seq<u8>| !iter.collected.has(n) by {
                            lemma_find(iter.collected.names@, n);
                        }
                    }
                    ModuleEntry::Dir { name: name_copy(name), iter }
                },
                FsNode::File => ModuleEntry::File {
                    name: name_copy(name),
                    path: Some(join(&self.modules[last].path, name)),
                    is_link: false,
                },
                FsNode::Symlink { target } => ModuleEntry::File {
                    name: name_copy(name),
                    path: Some(name_copy(target)),
                    is_link: true,
                },
                FsNode::Whiteout => ModuleEntry::File { name: name_copy(name), path: None, is_link: false },
            };
            let ghost seen = self.collected.dom();
            self.collected.insert_new(name_copy(name), ());
            proof {
                assert forall|k: int| 0 <= k < self.pos implies self.collected.has(#[trigger] self.reading()[k]@) by {
                    assert(self.reading()[k] == dir.names@[k]);
                    if k < i {
                        assert(seen.contains(dir.names@[k]@));
                    }
                    assert(self.collected.dom().contains(dir.names@[k]@));
                }
                assert forall|k: int| 0 <= k < self.customs.len() implies custom_names(
                    #[trigger] self.customs@[k],
                ).len() <= custom_names(before[k]).len() by {
                    if self.customs@ != before {
                        lemma_taken(before[k], self.customs@[k], name@);
                    }
                }
                lemma_custom_total(before, self.customs@);
                Self::lemma_advances_taken(mid, self@, name@);
                lemma_advances(start, mid, self@);
            }
            Step::Entry(entry)
        } else if self.customs.len() > 0 {
            let last = self.customs.len() - 1;
            let ghost top = self.customs@[last as int];
            proof {
                assert(top.wf());
                assert(start.customs[last as int] == top);
                assert(mid.customs.drop_last() =~= mid.customs.take(last as int));
            }
            let popped = self.customs.pop();
            match popped {
                Some(CustomModule::Dir { mut children }) => {
                    let ghost names = children.names@;
                    let ghost values = children.values@;
                    let name = children.names.remove(0);
                    let child = children.values.remove(0);
                    self.customs.push(CustomModule::Dir { children });
                    let ghost rest = self.customs@;
                    proof {
                        lemma_find_sorted(names, 0);
                        assert(custom_child(top, name@) == Some(child));
                        assert(taken(top, rest[last as int], name@));
                        lemma_taken(top, rest[last as int], name@);
                        assert(rest =~= mid.customs.update(last as int, rest[last as int]));
                        assert(rest.drop_last() =~= mid.customs.drop_last());
                        assert(custom_total(rest) == custom_total(mid.customs) - 1);
                        assert forall|k: int| 0 <= k < rest.len() implies (#[trigger] rest[k]).wf() by {
                            if k < last {
                                assert(rest[k] == mid.customs[k]);
                            }
                        }
                        assert(values[0].wf());
                        assert forall|k: int| 0 <= k < start.modules.len() implies !(
                        #[trigger] start.modules[k]).dir.has(name@) || start.seen.contains(name@) by {
                            if !start.seen.contains(name@) {
                                Self::lemma_exhausted_lacks(start.modules[k].dir.names@, start.seen, name@);
                            }
                        }
                        assert(start.modules.take(0) =~= Seq::<SourceView>::empty());
                        assert(sources_view(self.modules@) =~= Seq::<SourceView>::empty());
                    }
                    if self.collected.contains_key(&name) {
                        let is_dir = match &child {
                            CustomModule::Dir { .. } => true,
                            CustomModule::File { .. } => false,
                        };
                        proof {
                            Self::lemma_advances_one(mid, self@, last as int, name@);
                            lemma_advances(start, mid, self@);
                        }
                        return Step::Dropped { name, is_dir };
                    }
                    proof {
                        lemma_real_take(start.modules, 0, name@);
                        lemma_custom_agree(start.customs, mid.customs, name@);
                        lemma_custom_agree(rest, mid.customs.take(last as int), name@);
                        lemma_custom_top(mid.customs, name@);
                        mid.lemma_below(name@);
                        start.lemma_below(name@);
                    }
                    let entry = match child {
                        CustomModule::Dir { children: sub } => {
                            let modules: Vec<Source<'a>> = Vec::new();
                            let mut customs = open_custom_dir(&mut self.customs, &name);
                            customs.push(CustomModule::Dir { children: sub });
                            let collected: NameMap<()> = NameMap::new();
                            let iter = ModuleIterator { modules, customs, pos: 0, collected };
                            proof {
                                assert(iter.collected.dom() =~= Set::<Seq<u8>>::empty());
                                assert(sources_view(iter.modules@) =~= Seq::<SourceView>::empty());
                                assert forall|n: Seq<u8>| !iter.collected.has(n) by {
                                    lemma_find(iter.collected.names@, n);
                                }
                                assert(iter.customs@ =~= open_custom(mid.customs, name@));
                                assert forall|k: int| 0 <= k < iter.customs.len() implies (
                                #[trigger] iter.customs@[k]).wf() by {
                                    if k < iter.customs.len() - 1 {
                                    }
                                }
                            }
                            ModuleEntry::Dir { name: name_copy(&name), iter }
                        },
                        CustomModule::File { path, is_link } => ModuleEntry::File {
                            name: name_copy(&name),
                            path: Some(path),
                            is_link,
                        },
                    };
                    let ghost gname = name@;
                    self.collected.insert_new(name, ());
                    proof {
                        assert forall|k: int| 0 <= k < self.customs.len() implies custom_names(
                            #[trigger] self.customs@[k],
                        ).len() <= custom_names(rest[k]).len() by {
                            if self.customs@ != rest {
                                lemma_taken(rest[k], self.customs@[k], gname);
                            }
                        }
                        lemma_custom_total(rest, self.customs@);
                        Self::lemma_advances_two(mid, rest, self@, last as int, gname);
                        lemma_advances(start, mid, self@);
                    }
                    Step::Entry(entry)
                },
                _ => Step::End,
            }
        } else {
            proof {
                assert(self@.modules =~= Seq::<SourceView>::empty());
                assert(start.modules.take(0) =~= Seq::<SourceView>::empty());
            }
            Step::End
        }
    }

    /// Taking the children of one yielded name out of the virtual trees is a
    /// way of reading on.
    pub proof fn lemma_advances_taken(s: MergeState, t: MergeState, name: Seq<u8>)
        requires
            s.wf(),
            t.modules == s.modules,
            t.customs.len() == s.customs.len(),
            t.seen == s.seen.insert(name),
            t.customs == s.customs || forall|i: int|
                0 <= i < s.customs.len() ==> taken(s.customs[i], #[trigger] t.customs[i], name),
        ensures
            advances(s, t),
    {
        assert(s.modules.take(s.modules.len() as int) =~= s.modules);
        assert forall|i: int, n: Seq<u8>| 0 <= i < t.customs.len() && !t.seen.contains(n) implies #[trigger] custom_child(
            t.customs[i],
            n,
        ) == custom_child(s.customs[i], n) by {
            if t.customs != s.customs {
                lemma_taken(s.customs[i], t.customs[i], name);
            }
        }
    }

    /// Yielding the first child of the virtual tree at place `k`, and taking
    /// what the other trees hold under its name, is a way of reading on.
    pub proof fn lemma_advances_two(s: MergeState, rest: Seq<CustomModule>, t: MergeState, k: int, name: Seq<u8>)
        requires
            s.wf(),
            0 <= k < s.customs.len(),
            rest == s.customs.update(k, rest[k]),
            taken(s.customs[k], rest[k], name),
            forall|i: int| 0 <= i < rest.len() ==> (#[trigger] rest[i]).wf(),
            t.modules == s.modules,
            t.seen == s.seen.insert(name),
            t.customs.len() == rest.len(),
            t.customs == rest || forall|i: int| 0 <= i < rest.len() ==> taken(rest[i], #[trigger] t.customs[i], name),
        ensures
            advances(s, t),
    {
        assert(s.modules.take(s.modules.len() as int) =~= s.modules);
        lemma_taken(s.customs[k], rest[k], name);
        assert forall|i: int, n: Seq<u8>| 0 <= i < t.customs.len() && !t.seen.contains(n) implies #[trigger] custom_child(
            t.customs[i],
            n,
        ) == custom_child(s.customs[i], n) by {
            if t.customs != rest {
                lemma_taken(rest[i], t.customs[i], name);
            }
            if i != k {
                assert(rest[i] == s.customs[i]);
            }
        }
    }

    /// Taking one child of a name that was yielded before out of the virtual
    /// tree at place `k` is a way of reading on.
    pub proof fn lemma_advances_one(s: MergeState, t: MergeState, k: int, name: Seq<u8>)
        requires
            s.wf(),
            t.modules == s.modules,
            t.seen == s.seen,
            s.seen.contains(name),
            0 <= k < s.customs.len(),
            t.customs == s.customs.update(k, t.customs[k]),
            taken(s.customs[k], t.customs[k], name),
        ensures
            advances(s, t),
    {
        assert(s.modules.take(s.modules.len() as int) =~= s.modules);
        lemma_taken(s.customs[k], t.customs[k], name);
        assert forall|i: int, n: Seq<u8>| 0 <= i < t.customs.len() && !t.seen.contains(n) implies #[trigger] custom_child(
            t.customs[i],
            n,
        ) == custom_child(s.customs[i], n) by {
            if i != k {
                assert(t.customs[i] == s.customs[i]);
            }
        }
    }

    /// The entry that was read last of a real source bears the first name
    /// of that source that had not been yielded before it.
    pub proof fn lemma_first_unseen(&self, before: Set<Seq<u8>>, name: Seq<u8>)
        requires
            self.wf(),
            self.modules.len() > 0,
            self.has_read(name),
            !before.contains(name),
            self@.seen == before.insert(name),
        ensures
            first_unseen(self.reading(), before, name),
    {
        let names = self.reading();
        let i = self.pos - 1;
        assert(self@.modules.last() == self.modules@.last()@);
        assert(dir_wf(self@.modules[self.modules.len() - 1].dir));
        assert(names[i]@ == name);
        assert forall|k: int| 0 <= k < names.len() && name_lt(#[trigger] names[k]@, name) implies before.contains(
            names[k]@,
        ) by {
            if k >= i {
                if k > i {
                    crate::name::lemma_lt_asymmetric(names[i]@, names[k]@);
                } else {
                    crate::name::lemma_lt_irreflexive(name);
                }
            } else {
                assert(self.collected.has(names[k]@));
                assert(self@.seen.contains(names[k]@));
                crate::name::lemma_lt_irreflexive(name);
            }
        }
    }

    /// The entries that stand to lose to the entry `name`, asked right
    /// after that entry was yielded: the entries of that name, other than
    /// directories, of the real sources below the one in reading, each by
    /// its path, and the leaves of that name that the virtual trees still
    /// hold, each by the path it stands for.
    pub fn lost_to(&self, name: &Vec<u8>) -> (r: Vec<Vec<u8>>)
        requires
            self.wf(),
        ensures
            paths_view(r@) == lost_now(self@, name@),
    {
        let mut r: Vec<Vec<u8>> = Vec::new();
        let ghost mods = if self.modules.len() > 0 {
            self@.modules.drop_last()
        } else {
            Seq::empty()
        };
        proof {
            self.lemma_sources_wf();
            assert(paths_view(r@) =~= real_losers(mods.take(0), name@));
        }
        let mut i: usize = 0;
        while i + 1 < self.modules.len()
            invariant
                i <= mods.len(),
                self.modules.len() > 0 ==> mods == self@.modules.drop_last(),
                self.modules.len() == 0 ==> mods.len() == 0,
                forall|k: int| 0 <= k < self.modules.len() ==> dir_wf(#[trigger] *self.modules[k].dir),
                paths_view(r@) == real_losers(mods.take(i as int), name@),
            decreases self.modules.len() - i,
        {
            let dir: &'a NameMap<FsNode> = self.modules[i].dir;
            let ghost before = paths_view(r@);
            proof {
                assert(dir_wf(*self.modules[i as int].dir));
                assert(mods.take(i + 1).drop_last() =~= mods.take(i as int));
                assert(mods.take(i + 1).last() == self.modules@[i as int]@);
            }
            let (p, found) = dir.search(name);
            if found {
                match &dir.values[p] {
                    FsNode::Dir { .. } => {},
                    _ => {
                        r.push(join(&self.modules[i].path, name));
                        proof {
                            assert(paths_view(r@) =~= before.push(join_spec(self.modules[i as int].path@, name@)));
                        }
                    },
                }
            }
            i += 1;
        }
        let ghost reals = paths_view(r@);
        proof {
            assert(mods.take(mods.len() as int) =~= mods);
            assert(reals + custom_leaves(self.customs@.take(0), name@) =~= reals);
        }
        let mut j: usize = 0;
        while j < self.customs.len()
            invariant
                j <= self.customs.len(),
                forall|k: int| 0 <= k < self.customs.len() ==> (#[trigger] self.customs[k]).wf(),
                paths_view(r@) == reals + custom_leaves(self.customs@.take(j as int), name@),
            decreases self.customs.len() - j,
        {
            let ghost before = paths_view(r@);
            proof {
                assert(self.customs[j as int].wf());
                assert(self.customs@.take(j + 1).drop_last() =~= self.customs@.take(j as int));
                assert(self.customs@.take(j + 1).last() == self.customs@[j as int]);
            }
            match &self.customs[j] {
                CustomModule::Dir { children } => {
                    let (p, found) = children.search(name);
                    if found {
                        match &children.values[p] {
                            CustomModule::File { path, .. } => {
                                r.push(name_copy(path));
                                proof {
                                    assert(paths_view(r@) =~= before.push(path@));
                                    assert(before.push(path@) =~= reals + custom_leaves(
                                        self.customs@.take(j as int),
                                        name@,
                                    ).push(path@));
                                }
                            },
                            CustomModule::Dir { .. } => {},
                        }
                    }
                },
                CustomModule::File { .. } => {},
            }
            j += 1;
        }
        proof {
            assert(self.customs@.take(self.customs.len() as int) =~= self.customs@);
        }
        r
    }

    /// Yields the next entry of the merged directory, or `None` when every
    /// name of every source was yielded. The sources are read in the order
    /// of their rank, each to its end, and an entry whose name was yielded
    /// before is dropped.
    pub fn next(&mut self) -> (r: Option<ModuleEntry<'a>>)
        requires
            old(self).wf(),
        ensures
            final(self).wf(),
            advances(old(self)@, final(self)@),
            match r {
                None => {
                    &&& final(self).modules.len() == 0
                    &&& final(self).customs.len() == 0
                    &&& final(self)@.seen == old(self)@.seen
                },
                Some(e) => {
                    &&& e@ == old(self)@.entry(e.name())
                    &&& e is Dir ==> e->iter.wf()
                    &&& old(self)@.offers(e.name())
                    &&& !old(self)@.seen.contains(e.name())
                    &&& final(self)@.seen == old(self)@.seen.insert(e.name())
                    &&& comes_first(
                        old(self)@,
                        final(self).modules.len() as int,
                        final(self).customs.len() as int,
                        e.name(),
                    )
                    &&& won(
                        old(self)@,
                        final(self).modules.len() as int,
                        final(self).customs.len() as int,
                        e.name(),
                    )
                    &&& forall|i: int|
                        0 <= i < final(self).customs.len() ==> custom_child(
                            #[trigger] final(self).customs[i],
                            e.name(),
                        ) == left_under(
                            old(self)@,
                            e is Dir,
                            final(self).modules.len() as int,
                            final(self).customs.len() as int,
                            i,
                            e.name(),
                        )
                    &&& 0 <= final(self).remaining() < old(self).remaining()
                },
            },
    {
        let ghost start = self@;
        proof {
            lemma_advances_self(start);
        }
        loop
            invariant
                self.wf(),
                start == old(self)@,
                start.wf(),
                advances(start, self@),
                self@.seen == start.seen,
                self.modules.len() > 0 ==> self.customs.len() == start.customs.len(),
                self.remaining() <= old(self).remaining(),
            decreases self.remaining(),
        {
            let ghost mid = self@;
            let ghost mid_customs = self.customs@;
            match self.step() {
                Step::Entry(e) => {
                    proof {
                        let n = e.name();
                        lemma_advances(start, mid, self@);
                        lemma_stable(start, mid, n);
                        assert forall|i: int| 0 <= i < self.customs.len() implies custom_child(
                            #[trigger] self.customs[i],
                            n,
                        ) == left_under(
                            start,
                            e is Dir,
                            self.modules.len() as int,
                            self.customs.len() as int,
                            i,
                            n,
                        ) by {
                            assert(custom_child(mid.customs[i], n) == custom_child(start.customs[i], n));
                        }
                        if self.modules.len() > 0 {
                            self.lemma_first_unseen(start.seen, n);
                            assert(self@.modules.last() == self.modules@.last()@);
                        } else {
                            let k = self.customs.len() - 1;
                            assert forall|m: Seq<u8>| !start.seen.contains(m) implies #[trigger] custom_child(
                                mid_customs[k],
                                m,
                            ) == custom_child(start.customs[k], m) by {}
                            lemma_custom_first(start.customs[k], mid_customs[k], start.seen, n);
                        }
                    }
                    return Some(e);
                },
                Step::Dropped { .. } => {
                    proof {
                        lemma_advances(start, mid, self@);
                    }
                },
                Step::End => {
                    proof {
                        lemma_advances(start, mid, self@);
                    }
                    return None;
                },
            }
        }
    }
}

/// The views of a list of paths.
pub open spec fn paths_view(v: Seq<Vec<u8>>) -> Seq<Seq<u8>> {
    Seq::new(v.len(), |i: int| v[i]@)
}

/// What stands to lose right after an entry was yielded is what loses to
/// that entry in the merge as it was before.
pub proof fn lemma_lost(s: MergeState, t: MergeState, name: Seq<u8>, is_dir: bool)
    requires
        advances(s, t),
        won(s, t.modules.len() as int, t.customs.len() as int, name),
        is_dir == (s.entry(name) is Dir),
        forall|i: int|
            0 <= i < t.customs.len() ==> custom_child(#[trigger] t.customs[i], name) == left_under(
                s,
                is_dir,
                t.modules.len() as int,
                t.customs.len() as int,
                i,
                name,
            ),
    ensures
        lost_now(t, name) == s.losers(name),
{
    let reals = t.modules.len() as int;
    let customs = t.customs.len() as int;
    if reals > 0 {
        assert(t.modules.drop_last() =~= s.modules.take(reals - 1));
        if is_dir {
            lemma_leaves_agree(t.customs, Seq::empty(), name);
        } else {
            lemma_leaves_agree(s.customs, t.customs, name);
        }
    } else {
        lemma_custom_top(s.customs, name);
        if is_dir || customs == 0 {
            lemma_leaves_agree(t.customs, Seq::empty(), name);
        } else {
            let k = customs - 1;
            let b = s.customs.take(k);
            assert forall|i: int| 0 <= i < b.len() implies custom_child(#[trigger] b[i], name) == custom_child(
                t.customs[i],
                name,
            ) by {
                assert(b[i] == s.customs[i]);
            }
            lemma_leaves_agree(t.customs, b, name);
        }
        assert(Seq::<Seq<u8>>::empty() + custom_leaves(t.customs, name) =~= custom_leaves(t.customs, name));
    }
}

/// The first child of a virtual tree that has lost only children of
/// yielded names is the first child of the tree as it was whose name was
/// not yielded.
pub proof fn lemma_custom_first(a: CustomModule, b: CustomModule, seen: Set<Seq<u8>>, name: Seq<u8>)
    requires
        a.wf(),
        b.wf(),
        forall|n: Seq<u8>| !seen.contains(n) ==> #[trigger] custom_child(b, n) == custom_child(a, n),
        custom_names(b).len() > 0,
        custom_names(b)[0]@ == name,
        !seen.contains(name),
    ensures
        first_unseen(custom_names(a), seen, name),
{
    let nb = custom_names(b);
    lemma_find_sorted(nb, 0);
    assert(custom_child(b, name) is Some);
    assert(custom_child(a, name) is Some);
    let na = custom_names(a);
    lemma_find(na, name);
    assert(na[find(na, name)]@ == name);
    assert forall|i: int| 0 <= i < na.len() && name_lt(#[trigger] na[i]@, name) implies seen.contains(na[i]@) by {
        let m = na[i]@;
        if !seen.contains(m) {
            lemma_find_sorted(na, i);
            assert(custom_child(a, m) is Some);
            assert(custom_child(b, m) is Some);
            lemma_find(nb, m);
            let j = find(nb, m);
            if j == 0 {
                crate::name::lemma_lt_irreflexive(name);
            } else {
                assert(name_lt(nb[0]@, nb[j]@));
                crate::name::lemma_lt_asymmetric(name, m);
            }
        }
    }
}

} // verus!
