//! What holds of every merge and of every mount plan.

use vstd::prelude::*;
use crate::custom::CustomModule;
use crate::fs::FsNode;
use crate::merge::{EntryView, MergeState};
use crate::mirror::mirror_entries_plan;
use crate::mount::{attr_source, children_plan, is_staged, mirror_part, names_dom};
use crate::name::join_spec;
use crate::name_map::{lemma_find, lemma_find_remove, lemma_find_sorted};
use crate::node::{Node, NodeView};
use crate::ops::{OpView, Workspace};
use crate::source::{
    custom_child, custom_top, lemma_real_top, open_custom, open_real, real_top, SourceView,
};
use crate::tree::{base_child, is_child, is_marker, replace_name, tree_of};

verus! {

/// The merge of one real source alone.
pub open spec fn alone(source: SourceView) -> MergeState {
    MergeState { modules: seq![source], customs: Seq::empty(), seen: Set::empty() }
}

/// Precedence among leaves. Where several sources have an entry of one
/// name, and the one of the highest rank among them holds a leaf there (a
/// file, a link or a whiteout), the merged entry is the one that this
/// source would give alone, whatever the others hold under the name.
pub proof fn lemma_precedence(s: MergeState, name: Seq<u8>)
    requires
        real_top(s.modules, name) >= 0,
        !(s.modules[real_top(s.modules, name)].dir.value(name) is Dir),
    ensures
        s.entry(name) == alone(s.modules[real_top(s.modules, name)]).entry(name),
{
    lemma_real_top(s.modules, name);
    let winner = s.modules[real_top(s.modules, name)];
    let one = seq![winner];
    assert(one.last() == winner);
    assert(real_top(one, name) == 0);
}

/// Precedence of modules over virtual trees. Where no real source has a
/// name, the virtual tree of the highest rank that has it decides; where a
/// real source has it, the virtual trees decide nothing about the kind of
/// the entry.
pub proof fn lemma_real_over_custom(s: MergeState, customs: Seq<CustomModule>, name: Seq<u8>)
    requires
        real_top(s.modules, name) >= 0,
        !(s.modules[real_top(s.modules, name)].dir.value(name) is Dir),
    ensures
        s.entry(name) == (MergeState { modules: s.modules, customs, seen: s.seen }).entry(name),
{
}

/// Directories accumulate. Where the source of the highest rank holds a
/// directory under a name, the merged entry is a directory, and below it
/// the directory of that name of every real source that has one takes
/// part, each at its own path.
pub proof fn lemma_directories_accumulate(s: MergeState, name: Seq<u8>, k: int)
    requires
        real_top(s.modules, name) >= 0,
        s.modules[real_top(s.modules, name)].dir.value(name) is Dir,
        0 <= k < s.modules.len(),
        s.modules[k].dir.has(name),
        s.modules[k].dir.value(name) is Dir,
    ensures
        s.entry(name) is Dir,
        s.entry(name)->sub == s.below(name),
        exists|m: int|
            0 <= m < s.below(name).modules.len() && #[trigger] s.below(name).modules[m] == (SourceView {
                path: join_spec(s.modules[k].path, name),
                dir: s.modules[k].dir.value(name)->entries,
            }),
{
    lemma_opened_holds(s.modules, name, k);
    let wanted = SourceView { path: join_spec(s.modules[k].path, name), dir: s.modules[k].dir.value(name)->entries };
    let m = choose|m: int| 0 <= m < open_real(s.modules, name).len() && #[trigger] open_real(s.modules, name)[m] == wanted;
    assert(s.below(name).modules[m] == wanted);
    lemma_real_top(s.modules, name);
}

/// The directory `name` of the source at place `k` is among those that
/// `open_real` finds.
pub proof fn lemma_opened_holds(mods: Seq<SourceView>, name: Seq<u8>, k: int)
    requires
        0 <= k < mods.len(),
        mods[k].dir.has(name),
        mods[k].dir.value(name) is Dir,
    ensures
        exists|m: int|
            0 <= m < open_real(mods, name).len() && #[trigger] open_real(mods, name)[m] == (SourceView {
                path: join_spec(mods[k].path, name),
                dir: mods[k].dir.value(name)->entries,
            }),
    decreases mods.len(),
{
    let rest = open_real(mods.drop_last(), name);
    let wanted = SourceView { path: join_spec(mods[k].path, name), dir: mods[k].dir.value(name)->entries };
    if k == mods.len() - 1 {
        assert(open_real(mods, name)[rest.len() as int] == wanted);
    } else {
        assert(mods.drop_last()[k] == mods[k]);
        lemma_opened_holds(mods.drop_last(), name, k);
        let m = choose|m: int| 0 <= m < rest.len() && #[trigger] rest[m] == wanted;
        assert(open_real(mods, name)[m] == wanted);
    }
}

/// Virtual trees accumulate as the real ones do: below a merged directory
/// what every virtual tree holds under its name takes part.
pub proof fn lemma_virtual_directories_accumulate(s: MergeState, name: Seq<u8>, k: int)
    requires
        0 <= k < s.customs.len(),
        custom_child(s.customs[k], name) is Some,
    ensures
        exists|m: int|
            0 <= m < s.below(name).customs.len() && #[trigger] s.below(name).customs[m] == custom_child(
                s.customs[k],
                name,
            )->0,
{
    lemma_opened_custom_holds(s.customs, name, k);
    let wanted = custom_child(s.customs[k], name)->0;
    let m = choose|m: int|
        0 <= m < open_custom(s.customs, name).len() && #[trigger] open_custom(s.customs, name)[m] == wanted;
    assert(s.below(name).customs[m] == wanted);
}

/// The child `name` of the virtual tree at place `k` is among those that
/// `open_custom` finds.
pub proof fn lemma_opened_custom_holds(customs: Seq<CustomModule>, name: Seq<u8>, k: int)
    requires
        0 <= k < customs.len(),
        custom_child(customs[k], name) is Some,
    ensures
        exists|m: int|
            0 <= m < open_custom(customs, name).len() && #[trigger] open_custom(customs, name)[m] == custom_child(
                customs[k],
                name,
            )->0,
    decreases customs.len(),
{
    let rest = open_custom(customs.drop_last(), name);
    let wanted = custom_child(customs[k], name)->0;
    if k == customs.len() - 1 {
        assert(open_custom(customs, name)[rest.len() as int] == wanted);
    } else {
        assert(customs.drop_last()[k] == customs[k]);
        lemma_opened_custom_holds(customs.drop_last(), name, k);
        let m = choose|m: int| 0 <= m < rest.len() && #[trigger] rest[m] == wanted;
        assert(open_custom(customs, name)[m] == wanted);
    }
}

/// Nothing is merged twice. Once the virtual trees have given up what they
/// held under a name, as they do when a merge of that name is begun, a
/// second merge of the name finds nothing in them.
pub proof fn lemma_nothing_is_merged_twice(customs: Seq<CustomModule>, name: Seq<u8>)
    requires
        forall|i: int| 0 <= i < customs.len() ==> custom_child(#[trigger] customs[i], name) is None,
    ensures
        open_custom(customs, name).len() == 0,
        custom_top(customs, name) < 0,
{
    crate::source::lemma_custom_agree(customs, Seq::empty(), name);
}

/// Deletion dominance in the merge. Where the source of the highest rank
/// holds a whiteout under a name that the merge has yet to yield, the
/// logical tree holds a deletion there, whatever the sources of lower rank
/// hold under the name. The name of the replace marker is left out: a
/// whiteout of that name is the marker, and no child.
pub proof fn lemma_deletion_wins(s: MergeState, base: Option<FsNode>, name: Seq<u8>)
    requires
        !s.seen.contains(name),
        name != replace_name(),
        real_top(s.modules, name) >= 0,
        s.modules[real_top(s.modules, name)].dir.value(name) is Whiteout,
    ensures
        tree_of(s, base)->children.contains_key(name),
        tree_of(s, base)->children[name] == (NodeView::File { src: None, is_link: false }),
{
    lemma_real_top(s.modules, name);
    assert(s.offers(name));
    assert(s.entry(name) == EntryView::File { name, path: None, is_link: false });
    assert(is_child(s, name));
}

/// Merging again gives the same tree: two trees that were built from the
/// same sources over the same real directory are equal.
pub proof fn lemma_remerge_is_identical(first: Node, second: Node, s: MergeState, base: Option<FsNode>)
    requires
        first@ == tree_of(s, base),
        second@ == tree_of(s, base),
    ensures
        first@ == second@,
{
}

/// A deletion: a leaf without a source.
pub open spec fn is_deletion(node: Node) -> bool {
    node is File && node->src is None
}

/// The children of a directory have the same plan over two real
/// directories that hold the same object under the name of every child
/// that is no deletion.
pub proof fn lemma_children_plan_agrees(
    names: Seq<Vec<u8>>,
    values: Seq<Node>,
    path: Seq<u8>,
    first: Option<FsNode>,
    second: Option<FsNode>,
    source: Seq<u8>,
    staged: bool,
    ws: Workspace,
    n: nat,
)
    requires
        n <= values.len(),
        n <= names.len(),
        forall|j: int|
            0 <= j < n ==> is_deletion(#[trigger] values[j]) || base_child(first, names[j]@) == base_child(
                second,
                names[j]@,
            ),
    ensures
        children_plan(names, values, path, first, source, staged, ws, n) == children_plan(
            names,
            values,
            path,
            second,
            source,
            staged,
            ws,
            n,
        ),
    decreases n,
{
    if n > 0 {
        lemma_children_plan_agrees(names, values, path, first, second, source, staged, ws, (n - 1) as nat);
        let v = values[n - 1];
        let name = names[n - 1]@;
        assert(is_deletion(v) || base_child(first, name) == base_child(second, name));
        if is_deletion(v) {
            assert(v.plan(join_spec(path, name), base_child(first, name), source, staged, ws) == Seq::<OpView>::empty());
            assert(v.plan(join_spec(path, name), base_child(second, name), source, staged, ws) == Seq::<
                OpView,
            >::empty());
        }
    }
}

/// An entry whose name is passed over adds nothing to the mirrored
/// content: the plan is the one for the directory without that entry.
pub proof fn lemma_mirror_passes_over(
    names: Seq<Vec<u8>>,
    values: Seq<FsNode>,
    from: Seq<u8>,
    to: Seq<u8>,
    skip: Set<Seq<u8>>,
    p: int,
    n: nat,
)
    requires
        names.len() == values.len(),
        0 <= p < names.len(),
        skip.contains(names[p]@),
        p < n <= names.len(),
    ensures
        mirror_entries_plan(names, values, from, to, n, skip) == mirror_entries_plan(
            names.remove(p),
            values.remove(p),
            from,
            to,
            (n - 1) as nat,
            skip,
        ),
    decreases n,
{
    let names2 = names.remove(p);
    let values2 = values.remove(p);
    if n == p + 1 {
        lemma_mirror_prefix(names, values, names2, values2, from, to, skip, p as nat);
    } else {
        lemma_mirror_passes_over(names, values, from, to, skip, p, (n - 1) as nat);
        assert(names2[n - 2] == names[n - 1]);
        assert(values2[n - 2] == values[n - 1]);
    }
}

/// Two directories that agree on their first `n` entries have the same
/// mirrored content for them.
pub proof fn lemma_mirror_prefix(
    names: Seq<Vec<u8>>,
    values: Seq<FsNode>,
    names2: Seq<Vec<u8>>,
    values2: Seq<FsNode>,
    from: Seq<u8>,
    to: Seq<u8>,
    skip: Set<Seq<u8>>,
    n: nat,
)
    requires
        n <= names.len(),
        n <= values.len(),
        n <= names2.len(),
        n <= values2.len(),
        forall|j: int| 0 <= j < n ==> names[j] == names2[j] && values[j] == values2[j],
    ensures
        mirror_entries_plan(names, values, from, to, n, skip) == mirror_entries_plan(
            names2,
            values2,
            from,
            to,
            n,
            skip,
        ),
    decreases n,
{
    if n > 0 {
        lemma_mirror_prefix(names, values, names2, values2, from, to, skip, (n - 1) as nat);
    }
}

/// Deletion dominance in the plan. A deletion among the children of a
/// directory keeps the real entry of its name out of the realized view:
/// the plan of the directory is the one that it would have if the real
/// directory held no entry of that name.
pub proof fn lemma_deletion_hides(
    node: Node,
    child: int,
    first: FsNode,
    second: FsNode,
    entry: int,
    path: Seq<u8>,
    above: Seq<u8>,
    parent_tmpfs: bool,
    ws: Workspace,
)
    requires
        node.wf(),
        node is Dir,
        0 <= child < node->children.values@.len(),
        is_deletion(node->children.values@[child]),
        first.wf(),
        first is Dir,
        second is Dir,
        0 <= entry < first->entries.names@.len(),
        first->entries.names@[entry]@ == node->children.names@[child]@,
        second->entries.names@ == first->entries.names@.remove(entry),
        second->entries.values@ == first->entries.values@.remove(entry),
    ensures
        node.plan(path, Some(first), above, parent_tmpfs, ws) == node.plan(
            path,
            Some(second),
            above,
            parent_tmpfs,
            ws,
        ),
{
    let names = node->children.names@;
    let values = node->children.values@;
    let gone = names[child]@;
    let real_names = first->entries.names@;
    let real_values = first->entries.values@;
    let staged = is_staged(node->exist, node->replace);
    assert forall|j: int| 0 <= j < values.len() implies is_deletion(#[trigger] values[j]) || base_child(
        Some(first),
        names[j]@,
    ) == base_child(Some(second), names[j]@) by {
        if j != child {
            if names[j]@ == names[child]@ {
                crate::name_map::lemma_sorted_unique(names, j, child);
            }
            lemma_find_remove(real_names, entry, names[j]@);
            lemma_find(real_names, names[j]@);
        }
    }
    lemma_children_plan_agrees(names, values, path, Some(first), Some(second), path, staged, ws, values.len());
    lemma_find_sorted(names, child);
    assert(names_dom(names).contains(gone));
    lemma_mirror_passes_over(
        real_names,
        real_values,
        path,
        ws.staging(path),
        names_dom(names),
        entry,
        real_names.len(),
    );
}

/// Replace isolates. The plan of a replaced directory takes nothing from
/// the real directory but what stands under the names of its children: its
/// parts are the staging directory, the children, and the bind over the
/// real path, and over two real directories that agree under those names
/// the plan is the same.
pub proof fn lemma_replace_isolates(
    node: Node,
    first: Option<FsNode>,
    second: Option<FsNode>,
    path: Seq<u8>,
    above: Seq<u8>,
    parent_tmpfs: bool,
    ws: Workspace,
)
    requires
        node is Dir,
        node->replace,
        node->children.names@.len() == node->children.values@.len(),
        first is Some <==> second is Some,
        forall|j: int|
            0 <= j < node->children.names@.len() ==> base_child(first, #[trigger] node->children.names@[j]@)
                == base_child(second, node->children.names@[j]@),
    ensures
        mirror_part(node->children.names@, node->exist, node->replace, path, first, ws) == Seq::<OpView>::empty(),
        node.plan(path, first, above, parent_tmpfs, ws) == node.plan(path, second, above, parent_tmpfs, ws),
{
    let names = node->children.names@;
    let values = node->children.values@;
    assert forall|j: int| 0 <= j < values.len() implies is_deletion(#[trigger] values[j]) || base_child(
        first,
        names[j]@,
    ) == base_child(second, names[j]@) by {
        assert(base_child(first, names[j]@) == base_child(second, names[j]@));
    }
    lemma_children_plan_agrees(
        names,
        values,
        path,
        first,
        second,
        attr_source(path, first, above),
        true,
        ws,
        values.len(),
    );
}

/// Nothing in the tree asks for staging: every directory exists
/// unmodified and is not replaced, and no leaf is a link.
pub open spec fn untouched(node: Node) -> bool
    decreases node,
{
    match node {
        Node::Dir { children, exist, replace } => {
            &&& exist
            &&& !replace
            &&& forall|i: int| 0 <= i < children.values@.len() ==> untouched(#[trigger] children.values@[i])
        },
        Node::File { src, is_link } => !(src is Some && is_link),
    }
}

/// Every operation of the plan gives attributes to a path or binds one
/// path over another.
pub open spec fn only_binds(plan: Seq<OpView>) -> bool {
    forall|k: int| 0 <= k < plan.len() ==> (#[trigger] plan[k]) is CloneAttr || plan[k] is BindMount
}

/// No-op shortcut. For a tree in which nothing asks for staging, mounted
/// where nothing above is staged, no staging directory is made and nothing
/// is mirrored: the plan only binds files in place, and it is the same
/// whatever the staging area and the real directory are.
pub proof fn lemma_no_op_shortcut(
    node: Node,
    path: Seq<u8>,
    base: Option<FsNode>,
    above: Seq<u8>,
    ws: Workspace,
    other_base: Option<FsNode>,
    other_above: Seq<u8>,
    other_ws: Workspace,
)
    requires
        untouched(node),
    ensures
        only_binds(node.plan(path, base, above, false, ws)),
        node.plan(path, base, above, false, ws) == node.plan(path, other_base, other_above, false, other_ws),
    decreases node, 0nat,
{
    match node {
        Node::Dir { children, exist, replace } => {
            let source = attr_source(path, base, above);
            let other_source = attr_source(path, other_base, other_above);
            lemma_no_op_children(
                children.names@,
                children.values@,
                path,
                base,
                source,
                ws,
                other_base,
                other_source,
                other_ws,
                children.values@.len(),
            );
            let inner = children_plan(
                children.names@,
                children.values@,
                path,
                base,
                source,
                false,
                ws,
                children.values@.len(),
            );
            assert(node.plan(path, base, above, false, ws) =~= inner);
            let other_inner = children_plan(
                children.names@,
                children.values@,
                path,
                other_base,
                other_source,
                false,
                other_ws,
                children.values@.len(),
            );
            assert(node.plan(path, other_base, other_above, false, other_ws) =~= other_inner);
        },
        Node::File { src, is_link } => {},
    }
}

/// The no-op shortcut for the first `n` children of a directory.
pub proof fn lemma_no_op_children(
    names: Seq<Vec<u8>>,
    values: Seq<Node>,
    path: Seq<u8>,
    base: Option<FsNode>,
    source: Seq<u8>,
    ws: Workspace,
    other_base: Option<FsNode>,
    other_source: Seq<u8>,
    other_ws: Workspace,
    n: nat,
)
    requires
        forall|i: int| 0 <= i < values.len() ==> untouched(#[trigger] values[i]),
    ensures
        only_binds(children_plan(names, values, path, base, source, false, ws, n)),
        children_plan(names, values, path, base, source, false, ws, n) == children_plan(
            names,
            values,
            path,
            other_base,
            other_source,
            false,
            other_ws,
            n,
        ),
    decreases values, n,
{
    if !(n == 0 || n > values.len() || n > names.len()) {
        let name = names[n - 1]@;
        lemma_no_op_children(
            names,
            values,
            path,
            base,
            source,
            ws,
            other_base,
            other_source,
            other_ws,
            (n - 1) as nat,
        );
        lemma_no_op_shortcut(
            values[n - 1],
            join_spec(path, name),
            base_child(base, name),
            source,
            ws,
            base_child(other_base, name),
            other_source,
            other_ws,
        );
    }
}

/// No directory of the tree is replaced.
pub open spec fn unreplaced(node: Node) -> bool
    decreases node,
{
    match node {
        Node::Dir { children, replace, .. } => {
            &&& !replace
            &&& forall|i: int| 0 <= i < children.values@.len() ==> unreplaced(#[trigger] children.values@[i])
        },
        Node::File { .. } => true,
    }
}

/// A merged tree that exists unmodified, and in which no directory is
/// replaced, asks for no staging anywhere: the flag of a directory stands
/// for the whole tree below it.
pub proof fn lemma_unmodified_is_untouched(node: Node, s: MergeState, base: Option<FsNode>)
    requires
        node.wf(),
        s.wf(),
        node@ == tree_of(s, base),
        node->exist,
        unreplaced(node),
    ensures
        untouched(node),
    decreases node,
{
    let names = node->children.names@;
    let values = node->children.values@;
    assert forall|i: int| 0 <= i < values.len() implies untouched(#[trigger] values[i]) by {
        let n = names[i]@;
        lemma_find_sorted(names, i);
        assert(crate::node::nodes_view(names, values).contains_key(n));
        assert(crate::node::nodes_view(names, values)[n] == values[i]@);
        assert(tree_of(s, base)->children.contains_key(n));
        assert(is_child(s, n));
        assert(crate::tree::keeps(values[i]@, base, n));
        assert(values[i]@ == crate::tree::child_of(s, base, n));
        match values[i] {
            Node::Dir { .. } => {
                s.lemma_below(n);
                assert(unreplaced(values[i]));
                lemma_unmodified_is_untouched(values[i], s.below(n), base_child(base, n));
            },
            Node::File { .. } => {},
        }
    }
}

/// What the merge has yet to yield matches the real directory: the real
/// directory is there, no replace marker is to come, every leaf to come is
/// a file over a real object that is no symbolic link, and under every
/// directory to come the same holds again.
pub open spec fn matches_real(s: MergeState, base: Option<FsNode>) -> bool
    decreases s.height(),
{
    &&& s.wf()
    &&& base is Some
    &&& forall|n: Seq<u8>| #[trigger]
        s.emits(n) ==> match s.entry(n) {
            EntryView::Dir { .. } => {
                proof {
                    s.lemma_below(n);
                }
                matches_real(s.below(n), base_child(base, n))
            },
            EntryView::File { path, is_link, .. } => {
                &&& n != replace_name()
                &&& !is_link
                &&& path is Some
                &&& base_child(base, n) is Some
                &&& !(base_child(base, n)->0 is Symlink)
            },
        }
}

/// No-op shortcut, from the sources. Where what is merged matches the
/// real directory, every directory of the logical tree, the root included,
/// exists unmodified and is not replaced, so that nothing in the tree asks
/// for staging.
pub proof fn lemma_matching_is_untouched(node: Node, s: MergeState, base: Option<FsNode>)
    requires
        node.wf(),
        node@ == tree_of(s, base),
        matches_real(s, base),
    ensures
        node is Dir,
        node->exist,
        !node->replace,
        unreplaced(node),
        untouched(node),
    decreases node,
{
    let names = node->children.names@;
    let values = node->children.values@;
    let kids = crate::node::nodes_view(names, values);
    assert(kids == tree_of(s, base)->children);
    if s.emits(replace_name()) {
        assert(!is_marker(s, replace_name()));
    }
    assert forall|i: int| 0 <= i < values.len() implies unreplaced(#[trigger] values[i]) && untouched(values[i])
        && crate::tree::keeps(values[i]@, base, names[i]@) by {
        let n = names[i]@;
        lemma_find_sorted(names, i);
        assert(kids.contains_key(n));
        assert(kids[n] == values[i]@);
        assert(is_child(s, n));
        assert(s.emits(n));
        assert(values[i]@ == crate::tree::child_of(s, base, n));
        match values[i] {
            Node::Dir { .. } => {
                s.lemma_below(n);
                lemma_matching_is_untouched(values[i], s.below(n), base_child(base, n));
            },
            Node::File { .. } => {},
        }
    }
    assert forall|n: Seq<u8>| #[trigger] kids.contains_key(n) implies crate::tree::keeps(kids[n], base, n) by {
        lemma_find(names, n);
        let i = crate::name_map::find(names, n);
        assert(names[i]@ == n);
        assert(kids[n] == values[i]@);
        assert(crate::tree::keeps(values[i]@, base, names[i]@));
    }
}

} // verus!
