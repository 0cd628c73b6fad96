//! Building the logical tree of a directory from the merge of its sources.

use vstd::prelude::*;
use crate::fs::FsNode;
use crate::merge::{advances, lemma_lost, lemma_stable, paths_view, EntryView, MergeState, ModuleEntry, ModuleIterator};
use crate::mount::is_staged;
use crate::name::{name_copy, name_eq};
use crate::name_map::NameMap;
use crate::node::{lemma_nodes_insert, nodes_view, Node, NodeView};
use crate::source::{lemma_custom_top, lemma_real_top};
use crate::words::{bytes, text};

verus! {

/// The name of the marker that has a directory replace the real one.
pub open spec fn replace_name() -> Seq<u8> {
    text(".replace")
}

/// Whether `name` is the name of the replace marker.
pub fn is_replace_name(name: &Vec<u8>) -> (r: bool)
    ensures
        r == (name@ == replace_name()),
{
    name_eq(name, &bytes(".replace"))
}

/// The real object that stands below `base` under `name`, if any.
pub open spec fn base_child(base: Option<FsNode>, name: Seq<u8>) -> Option<FsNode> {
    match base {
        Some(r) => r.child(name),
        None => None,
    }
}

/// The value behind an optional reference.
pub open spec fn base_value(base: Option<&FsNode>) -> Option<FsNode> {
    match base {
        Some(r) => Some(*r),
        None => None,
    }
}

/// The merge yields under `name` the replace marker: a leaf of that name.
pub open spec fn is_marker(s: MergeState, name: Seq<u8>) -> bool {
    name == replace_name() && s.entry(name) is File
}

/// The merge yields under `name` a child of the directory.
pub open spec fn is_child(s: MergeState, name: Seq<u8>) -> bool {
    s.emits(name) && !is_marker(s, name)
}

/// Whether the child `name` leaves its directory as the real filesystem
/// has it. A subdirectory does so where it is itself unmodified. A leaf
/// does so only where it is a file, no link and no deletion, and the real
/// object at its place is there and is no symbolic link.
pub open spec fn keeps(child: NodeView, base: Option<FsNode>, name: Seq<u8>) -> bool {
    match child {
        NodeView::Dir { exist, .. } => exist,
        NodeView::File { src, is_link } => {
            &&& !is_link
            &&& src is Some
            &&& base_child(base, name) is Some
            &&& !(base_child(base, name)->0 is Symlink)
        },
    }
}

/// Every child leaves its directory as the real filesystem has it.
pub open spec fn all_keep(children: Map<Seq<u8>, NodeView>, base: Option<FsNode>) -> bool {
    forall|n: Seq<u8>| #[trigger] children.contains_key(n) ==> keeps(children[n], base, n)
}

/// The logical subtree at the child `name` of a directory whose merge is
/// `s` and whose real counterpart is `base`.
pub open spec fn child_of(s: MergeState, base: Option<FsNode>, name: Seq<u8>) -> NodeView
    decreases s.height(), 0nat,
{
    match s.entry(name) {
        EntryView::Dir { .. } => {
            if s.wf() && s.offers(name) {
                proof {
                    s.lemma_below(name);
                }
                tree_of(s.below(name), base_child(base, name))
            } else {
                arbitrary()
            }
        },
        EntryView::File { path, is_link, .. } => NodeView::File { src: path, is_link },
    }
}

/// The logical tree of a directory whose merge is `s` and whose real
/// counterpart is `base`. Its children are the names that the merge has yet
/// to yield, but for the replace marker. It exists unmodified where the
/// real directory is there and every child leaves it so. It is replaced
/// where the merge yields the replace marker.
pub open spec fn tree_of(s: MergeState, base: Option<FsNode>) -> NodeView
    decreases s.height(), 1nat,
{
    let children = Map::new(|n: Seq<u8>| is_child(s, n), |n: Seq<u8>| child_of(s, base, n));
    NodeView::Dir {
        children,
        exist: base is Some && all_keep(children, base),
        replace: s.emits(replace_name()) && is_marker(s, replace_name()),
    }
}

/// The merge went from `s0` to `s`: names were yielded, and for every name
/// that is still to come nothing has changed.
pub open spec fn progress(s0: MergeState, s: MergeState) -> bool {
    &&& forall|n: Seq<u8>| s0.seen.contains(n) ==> #[trigger] s.seen.contains(n)
    &&& forall|n: Seq<u8>|
        !(#[trigger] s.seen.contains(n)) ==> (s.offers(n) == s0.offers(n)) && (s0.offers(n) ==> s.entry(n)
            == s0.entry(n)) && s.losers(n) == s0.losers(n)
    &&& forall|n: Seq<u8>| #[trigger] s.seen.contains(n) && !s0.seen.contains(n) ==> s0.offers(n)
}

/// `name` is a child of the directory that was yielded since `s0`.
pub open spec fn done(s0: MergeState, seen: Set<Seq<u8>>, name: Seq<u8>) -> bool {
    seen.contains(name) && !s0.seen.contains(name) && !is_marker(s0, name)
}

/// The children, `exist` and `replace` are what the names yielded since
/// `s0` make them.
pub open spec fn built(
    s0: MergeState,
    base: Option<FsNode>,
    seen: Set<Seq<u8>>,
    children: Map<Seq<u8>, NodeView>,
    exist: bool,
    replace: bool,
) -> bool {
    &&& children == Map::new(|n: Seq<u8>| done(s0, seen, n), |n: Seq<u8>| child_of(s0, base, n))
    &&& exist == (base is Some && all_keep(children, base))
    &&& replace == (seen.contains(replace_name()) && !s0.seen.contains(replace_name()) && is_marker(
        s0,
        replace_name(),
    ))
}

/// One more name was yielded: the merge has still progressed, and the name
/// was one that the merge had to yield, with the entry that was stated.
pub proof fn lemma_progress_step(s0: MergeState, s: MergeState, t: MergeState, name: Seq<u8>)
    requires
        progress(s0, s),
        advances(s, t),
        !s.seen.contains(name),
        t.seen == s.seen.insert(name),
        s.offers(name),
    ensures
        progress(s0, t),
        s0.offers(name),
        !s0.seen.contains(name),
        s0.entry(name) == s.entry(name),
        s0.losers(name) == s.losers(name),
{
    assert(!s.seen.contains(name));
    assert forall|n: Seq<u8>| !(#[trigger] t.seen.contains(n)) implies (t.offers(n) == s0.offers(n)) && (s0.offers(
        n,
    ) ==> t.entry(n) == s0.entry(n)) && t.losers(n) == s0.losers(n) by {
        assert(!s.seen.contains(n));
        lemma_stable(s, t, n);
    }
    assert forall|n: Seq<u8>| #[trigger] t.seen.contains(n) && !s0.seen.contains(n) implies s0.offers(n) by {
        if n != name {
            assert(s.seen.contains(n));
        }
    }
    assert forall|n: Seq<u8>| s0.seen.contains(n) implies #[trigger] t.seen.contains(n) by {
        assert(s.seen.contains(n));
    }
}

/// Once every source is given up, the names yielded since `s0` are all the
/// names that the merge of `s0` had to yield.
pub proof fn lemma_progress_end(s0: MergeState, s: MergeState, n: Seq<u8>)
    requires
        progress(s0, s),
        s.modules.len() == 0,
        s.customs.len() == 0,
    ensures
        s0.emits(n) == (s.seen.contains(n) && !s0.seen.contains(n)),
{
    lemma_real_top(s.modules, n);
    lemma_custom_top(s.customs, n);
    assert(!s.offers(n));
    if !s.seen.contains(n) {
        assert(!s0.offers(n));
    }
}

/// What lost to the child `name` and, for a directory, all that lost
/// below it.
pub open spec fn note_of(child: Node, s: MergeState, name: Seq<u8>) -> Seq<Seq<u8>>
    decreases child, 1nat,
{
    s.losers(name) + (if child is Dir {
        conflicts_of(child, s.below(name))
    } else {
        Seq::empty()
    })
}

/// What lost to the first `n` children and below them, in the order of the
/// children.
pub open spec fn notes_of(names: Seq<Vec<u8>>, values: Seq<Node>, s: MergeState, n: nat) -> Seq<Seq<u8>>
    decreases values, n,
{
    if n == 0 || n > values.len() || n > names.len() {
        Seq::empty()
    } else {
        notes_of(names, values, s, (n - 1) as nat) + note_of(values[n - 1], s, names[n - 1]@)
    }
}

/// What lost to the replace marker, where the merge yields one.
pub open spec fn marker_losers(s: MergeState) -> Seq<Seq<u8>> {
    if s.emits(replace_name()) && is_marker(s, replace_name()) {
        s.losers(replace_name())
    } else {
        Seq::empty()
    }
}

/// The conflicts of the merge `s` that built the tree `node`: every entry,
/// other than a directory, that lost its name to a source of higher rank.
/// First come those that lost to the replace marker, then for each child,
/// in the order of the names, those that lost to the child and those of the
/// merge below it.
pub open spec fn conflicts_of(node: Node, s: MergeState) -> Seq<Seq<u8>>
    decreases node, 0nat,
{
    match node {
        Node::Dir { children, .. } => marker_losers(s) + notes_of(
            children.names@,
            children.values@,
            s,
            children.values@.len(),
        ),
        Node::File { .. } => Seq::empty(),
    }
}

/// Adds copies of the paths of `more` to `out`.
pub fn append_paths(out: &mut Vec<Vec<u8>>, more: &Vec<Vec<u8>>)
    ensures
        paths_view(final(out)@) == paths_view(old(out)@) + paths_view(more@),
{
    let mut i: usize = 0;
    proof {
        assert(paths_view(out@) =~= paths_view(old(out)@) + paths_view(more@.take(0)));
    }
    while i < more.len()
        invariant
            i <= more.len(),
            paths_view(out@) == paths_view(old(out)@) + paths_view(more@.take(i as int)),
        decreases more.len() - i,
    {
        let ghost before = paths_view(out@);
        out.push(name_copy(&more[i]));
        proof {
            assert(paths_view(out@) =~= before.push(more@[i as int]@));
            assert(paths_view(more@.take(i + 1)) =~= paths_view(more@.take(i as int)).push(more@[i as int]@));
            assert(before.push(more@[i as int]@) =~= paths_view(old(out)@) + paths_view(more@.take(i + 1)));
        }
        i += 1;
    }
    proof {
        assert(more@.take(more.len() as int) =~= more@);
    }
}

/// Builds the logical tree of a directory from the merge of its sources,
/// recursing into each subdirectory, and reads the merge to its end.
/// `base` is the real object at the directory's path, where there is one.
/// The conflicts between the sources are added to `conflicts`.
pub fn tree_module<'a>(base: Option<&FsNode>, dir: &mut ModuleIterator<'a>, conflicts: &mut Vec<Vec<u8>>) -> (node:
    Node)
    requires
        old(dir).wf(),
        base is Some ==> base->0.wf(),
    ensures
        node@ == tree_of(old(dir)@, base_value(base)),
        node.wf(),
        node is Dir,
        node.mountable(false),
        final(dir).wf(),
        final(dir).modules.len() == 0,
        final(dir).customs.len() == 0,
        forall|n: Seq<u8>|
            final(dir)@.seen.contains(n) == (old(dir)@.seen.contains(n) || old(dir)@.offers(n)),
        paths_view(final(conflicts)@) == paths_view(old(conflicts)@) + conflicts_of(node, old(dir)@),
    decreases old(dir)@.height(),
{
    let ghost s0 = dir@;
    let ghost b = base_value(base);
    let mut children: NameMap<Node> = NameMap::new();
    let mut notes: Vec<Vec<Vec<u8>>> = Vec::new();
    let mut marker_note: Vec<Vec<u8>> = Vec::new();
    let mut replace = false;
    let mut exist = base.is_some();
    proof {
        assert(nodes_view(children.names@, children.values@) =~= Map::new(
            |n: Seq<u8>| done(s0, dir@.seen, n),
            |n: Seq<u8>| child_of(s0, b, n),
        ));
    }
    loop
        invariant
            dir.wf(),
            s0.wf(),
            s0 == old(dir)@,
            b == base_value(base),
            base is Some ==> base->0.wf(),
            progress(s0, dir@),
            children.wf(),
            forall|i: int| 0 <= i < children.values@.len() ==> (#[trigger] children.values@[i]).wf(),
            forall|i: int|
                0 <= i < children.values@.len() ==> (#[trigger] children.values@[i]).mountable(
                    is_staged(exist, replace),
                ),
            built(s0, b, dir@.seen, nodes_view(children.names@, children.values@), exist, replace),
            conflicts == old(conflicts),
            notes.len() == children.values.len(),
            forall|i: int|
                0 <= i < notes.len() ==> paths_view((#[trigger] notes@[i])@) == note_of(
                    children.values@[i],
                    s0,
                    children.names@[i]@,
                ),
            paths_view(marker_note@) == (if replace {
                s0.losers(replace_name())
            } else {
                Seq::empty()
            }),
        ensures
            dir.modules.len() == 0,
            dir.customs.len() == 0,
        decreases dir.remaining(),
    {
        let ghost s = dir@;
        let ghost kids = nodes_view(children.names@, children.values@);
        let ghost names = children.names@;
        let ghost values = children.values@;
        let ghost was_exist = exist;
        let ghost was_replace = replace;
        let next = dir.next();
        match next {
            None => {
                proof {
                    lemma_progress_idle(s0, s, dir@);
                }
                break ;
            },
            Some(entry) => {
                let ghost m = entry.name();
                let ghost old_notes = notes@;
                let mut note = match &entry {
                    ModuleEntry::Dir { name, .. } => dir.lost_to(name),
                    ModuleEntry::File { name, .. } => dir.lost_to(name),
                };
                proof {
                    lemma_progress_step(s0, s, dir@, m);
                    lemma_lost(s, dir@, m, entry is Dir);
                    assert(paths_view(note@) == s0.losers(m));
                }
                match entry {
                    ModuleEntry::Dir { name, mut iter } => {
                        let sub_base = match base {
                            Some(r) => r.lookup(&name),
                            None => None,
                        };
                        proof {
                            s0.lemma_below(m);
                        }
                        let child = tree_module(sub_base, &mut iter, &mut note);
                        let child_exist = match &child {
                            Node::Dir { exist, .. } => *exist,
                            Node::File { .. } => false,
                        };
                        exist = exist && child_exist;
                        let ghost before = children;
                        let ghost gname = name;
                        let ghost gchild = child;
                        proof {
                            assert(!kids.contains_key(m));
                            lemma_built_step(s0, b, s.seen, kids, was_exist, was_replace, m, child@);
                        }
                        let (p, _) = children.search(&name);
                        children.insert_new(name, child);
                        notes.insert(p, note);
                        proof {
                            before.lemma_place_for(m, p as int);
                            lemma_notes_step(names, values, old_notes, gname, gchild, notes@[p as int], p as int, s0);
                            gchild.lemma_mountable(false);
                            lemma_children_step(names, values, gname, gchild, before.place_for(m));
                            lemma_mountable_step(
                                values,
                                gchild,
                                before.place_for(m),
                                is_staged(was_exist, was_replace),
                                is_staged(exist, replace),
                            );
                        }
                    },
                    ModuleEntry::File { name, path, is_link } => {
                        if is_replace_name(&name) {
                            replace = true;
                            marker_note = note;
                            proof {
                                lemma_built_marker(s0, b, s.seen, kids, was_exist, was_replace);
                                assert forall|i: int| 0 <= i < values.len() implies (#[trigger] values[i]).mountable(
                                    true,
                                ) by {
                                    values[i].lemma_mountable(is_staged(was_exist, was_replace));
                                }
                            }
                        } else {
                            let found = match base {
                                Some(r) => r.lookup(&name),
                                None => None,
                            };
                            let kept = !is_link && path.is_some() && match found {
                                Some(FsNode::Symlink { .. }) => false,
                                Some(_) => true,
                                None => false,
                            };
                            exist = exist && kept;
                            let child = Node::File { src: path, is_link };
                            let ghost before = children;
                            let ghost gname = name;
                            let ghost gchild = child;
                            proof {
                                assert(!kids.contains_key(m));
                                lemma_built_step(s0, b, s.seen, kids, was_exist, was_replace, m, child@);
                            }
                            let (p, _) = children.search(&name);
                            children.insert_new(name, child);
                            notes.insert(p, note);
                            proof {
                                before.lemma_place_for(m, p as int);
                                lemma_notes_step(
                                    names,
                                    values,
                                    old_notes,
                                    gname,
                                    gchild,
                                    notes@[p as int],
                                    p as int,
                                    s0,
                                );
                                lemma_children_step(names, values, gname, gchild, before.place_for(m));
                                lemma_mountable_step(
                                    values,
                                    gchild,
                                    before.place_for(m),
                                    is_staged(was_exist, was_replace),
                                    is_staged(exist, replace),
                                );
                            }
                        }
                    },
                }
            },
        }
    }
    proof {
        let built_children = nodes_view(children.names@, children.values@);
        let t = tree_of(s0, b);
        assert forall|n: Seq<u8>| is_child(s0, n) == done(s0, dir@.seen, n) by {
            lemma_progress_end(s0, dir@, n);
        }
        lemma_progress_end(s0, dir@, replace_name());
        assert forall|n: Seq<u8>| dir@.seen.contains(n) == (s0.seen.contains(n) || s0.offers(n)) by {
            lemma_progress_end(s0, dir@, n);
        }
        assert(built_children =~= t->children);
        assert(exist == t->exist);
        assert(replace == t->replace);
        assert(t == NodeView::Dir { children: t->children, exist: t->exist, replace: t->replace });
        assert(paths_view(marker_note@) == marker_losers(s0));
    }
    let ghost start = paths_view(conflicts@);
    append_paths(conflicts, &marker_note);
    let mut i: usize = 0;
    proof {
        assert(paths_view(conflicts@) =~= start + marker_losers(s0) + notes_of(
            children.names@,
            children.values@,
            s0,
            0,
        ));
    }
    while i < notes.len()
        invariant
            i <= notes.len(),
            notes.len() == children.values.len(),
            children.wf(),
            forall|k: int|
                0 <= k < notes.len() ==> paths_view((#[trigger] notes@[k])@) == note_of(
                    children.values@[k],
                    s0,
                    children.names@[k]@,
                ),
            paths_view(conflicts@) == start + marker_losers(s0) + notes_of(
                children.names@,
                children.values@,
                s0,
                i as nat,
            ),
        decreases notes.len() - i,
    {
        let ghost before = paths_view(conflicts@);
        append_paths(conflicts, &notes[i]);
        proof {
            let step = note_of(children.values@[i as int], s0, children.names@[i as int]@);
            assert(paths_view(notes@[i as int]@) == step);
            assert(paths_view(conflicts@) =~= start + marker_losers(s0) + (notes_of(
                children.names@,
                children.values@,
                s0,
                i as nat,
            ) + step));
        }
        i += 1;
    }
    let node = Node::Dir { children, exist, replace };
    proof {
        assert(paths_view(conflicts@) =~= start + conflicts_of(node, s0));
    }
    node
}

/// A note put at the place of its child among notes that stand each at
/// the place of its child leaves every note at the place of its child.
pub proof fn lemma_notes_step(
    names: Seq<Vec<u8>>,
    values: Seq<Node>,
    notes: Seq<Vec<Vec<u8>>>,
    name: Vec<u8>,
    child: Node,
    note: Vec<Vec<u8>>,
    p: int,
    s: MergeState,
)
    requires
        names.len() == values.len(),
        notes.len() == values.len(),
        0 <= p <= values.len(),
        forall|i: int|
            0 <= i < notes.len() ==> paths_view((#[trigger] notes[i])@) == note_of(values[i], s, names[i]@),
        paths_view(note@) == note_of(child, s, name@),
    ensures
        forall|i: int|
            0 <= i < notes.len() + 1 ==> paths_view((#[trigger] notes.insert(p, note)[i])@) == note_of(
                values.insert(p, child)[i],
                s,
                names.insert(p, name)[i]@,
            ),
{
    let notes2 = notes.insert(p, note);
    assert forall|i: int| 0 <= i < notes2.len() implies paths_view((#[trigger] notes2[i])@) == note_of(
        values.insert(p, child)[i],
        s,
        names.insert(p, name)[i]@,
    ) by {
        if i < p {
            assert(notes2[i] == notes[i]);
        } else if i > p {
            assert(notes2[i] == notes[i - 1]);
        }
    }
}

/// After a child was put under a name that the merge had just yielded, the
/// children and `exist` are again what the yielded names make them.
pub proof fn lemma_built_step(
    s0: MergeState,
    base: Option<FsNode>,
    seen: Set<Seq<u8>>,
    kids: Map<Seq<u8>, NodeView>,
    exist: bool,
    replace: bool,
    name: Seq<u8>,
    child: NodeView,
)
    requires
        built(s0, base, seen, kids, exist, replace),
        !seen.contains(name),
        !s0.seen.contains(name),
        !is_marker(s0, name),
        child == child_of(s0, base, name),
    ensures
        built(s0, base, seen.insert(name), kids.insert(name, child), exist && keeps(child, base, name), replace),
{
    let seen2 = seen.insert(name);
    let kids2 = kids.insert(name, child);
    assert(kids2 =~= Map::new(|n: Seq<u8>| done(s0, seen2, n), |n: Seq<u8>| child_of(s0, base, n)));
    assert(!kids.contains_key(name));
    if all_keep(kids, base) && keeps(child, base, name) {
        assert forall|n: Seq<u8>| #[trigger] kids2.contains_key(n) implies keeps(kids2[n], base, n) by {
            if n != name {
                assert(kids.contains_key(n));
            }
        }
    }
    if all_keep(kids2, base) {
        assert(kids2.contains_key(name));
        assert forall|n: Seq<u8>| #[trigger] kids.contains_key(n) implies keeps(kids[n], base, n) by {
            assert(kids2.contains_key(n));
        }
    }
}

/// After the replace marker was yielded, `replace` is set and the rest is
/// as it was.
pub proof fn lemma_built_marker(
    s0: MergeState,
    base: Option<FsNode>,
    seen: Set<Seq<u8>>,
    kids: Map<Seq<u8>, NodeView>,
    exist: bool,
    replace: bool,
)
    requires
        built(s0, base, seen, kids, exist, replace),
        !seen.contains(replace_name()),
        !s0.seen.contains(replace_name()),
        is_marker(s0, replace_name()),
    ensures
        built(s0, base, seen.insert(replace_name()), kids, exist, true),
{
    let seen2 = seen.insert(replace_name());
    assert forall|n: Seq<u8>| done(s0, seen2, n) == done(s0, seen, n) by {}
    assert(kids =~= Map::new(|n: Seq<u8>| done(s0, seen2, n), |n: Seq<u8>| child_of(s0, base, n)));
}

/// A child put at its place among well-formed children leaves them well
/// formed, and adds itself to their map.
pub proof fn lemma_children_step(names: Seq<Vec<u8>>, values: Seq<Node>, name: Vec<u8>, child: Node, p: int)
    requires
        crate::name_map::strictly_sorted(names),
        names.len() == values.len(),
        child.wf(),
        forall|i: int| 0 <= i < values.len() ==> (#[trigger] values[i]).wf(),
        0 <= p <= names.len(),
        forall|i: int| 0 <= i < p ==> crate::name::name_lt(#[trigger] names[i]@, name@),
        forall|i: int| p <= i < names.len() ==> crate::name::name_lt(name@, #[trigger] names[i]@),
    ensures
        forall|i: int| 0 <= i < values.len() + 1 ==> (#[trigger] values.insert(p, child)[i]).wf(),
        nodes_view(names.insert(p, name), values.insert(p, child)) == nodes_view(names, values).insert(
            name@,
            child@,
        ),
{
    let values2 = values.insert(p, child);
    lemma_nodes_insert(names, values, name, child, p);
    assert forall|i: int| 0 <= i < values2.len() implies (#[trigger] values2[i]).wf() by {
        if i < p {
            assert(values2[i] == values[i]);
        } else if i > p {
            assert(values2[i] == values[i - 1]);
        }
    }
}

/// A child that may stand under the directory's new state, put among
/// children that might stand under the old one, leaves all of them fit to
/// stand under the new state, so long as staging was not taken back.
pub proof fn lemma_mountable_step(values: Seq<Node>, child: Node, p: int, was_staged: bool, staged: bool)
    requires
        0 <= p <= values.len(),
        was_staged ==> staged,
        child.mountable(staged),
        forall|i: int| 0 <= i < values.len() ==> (#[trigger] values[i]).mountable(was_staged),
    ensures
        forall|i: int| 0 <= i < values.len() + 1 ==> (#[trigger] values.insert(p, child)[i]).mountable(staged),
{
    let values2 = values.insert(p, child);
    assert forall|i: int| 0 <= i < values2.len() implies (#[trigger] values2[i]).mountable(staged) by {
        if i < p {
            assert(values2[i] == values[i]);
            values[i].lemma_mountable(was_staged);
        } else if i > p {
            assert(values2[i] == values[i - 1]);
            values[i - 1].lemma_mountable(was_staged);
        }
    }
}

/// Giving up sources without yielding a name leaves the progress of the
/// merge as it was.
pub proof fn lemma_progress_idle(s0: MergeState, s: MergeState, t: MergeState)
    requires
        progress(s0, s),
        advances(s, t),
        t.seen == s.seen,
    ensures
        progress(s0, t),
{
    assert forall|n: Seq<u8>| !(#[trigger] t.seen.contains(n)) implies (t.offers(n) == s0.offers(n)) && (s0.offers(
        n,
    ) ==> t.entry(n) == s0.entry(n)) && t.losers(n) == s0.losers(n) by {
        assert(!s.seen.contains(n));
        lemma_stable(s, t, n);
    }
}

} // verus!
