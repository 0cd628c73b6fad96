//! What is equal as a mathematical value gives equal results: virtual trees
//! with equal views merge to equal logical trees, and logical trees with
//! equal views have equal mount plans. So a deployment is fixed by what it
//! is given.

use vstd::prelude::*;
use crate::custom::CustomModule;
use crate::deploy::{
    custom_views, deploys, is_deployment, mount_sections, mounts_alone, part_dest, part_sections,
    without, Environment, SectionView,
};
use crate::fs::{resolved, FsNode};
use crate::merge::{custom_leaves, MergeState};
use crate::module_list::{lemma_list_wf, ModuleInfo, ModuleList};
use crate::mount::{attr_source, children_plan, dir_plan, is_staged, names_dom};
use crate::name::join_spec;
use crate::name_map::{
    find, lemma_find, lemma_find_remove, lemma_find_sorted, lemma_sorted_same, strictly_sorted,
};
use crate::node::{nodes_view, Node};
use crate::ops::Workspace;
use crate::source::{custom_child, custom_top, lemma_custom_top, lemma_real_top, open_custom, real_top};
use crate::tree::{base_child, child_of, conflicts_of, is_child, is_marker, notes_of, tree_of};
use crate::words::text;

verus! {

/// Two lists of children are alike: both are well formed, and place by
/// place they hold the same names and equal subtrees.
pub open spec fn alike(na: Seq<Vec<u8>>, va: Seq<Node>, nb: Seq<Vec<u8>>, vb: Seq<Node>) -> bool {
    &&& strictly_sorted(na)
    &&& strictly_sorted(nb)
    &&& na.len() == va.len()
    &&& nb.len() == vb.len()
    &&& na.len() == nb.len()
    &&& forall|i: int| 0 <= i < na.len() ==> (#[trigger] na[i])@ == nb[i]@
    &&& forall|i: int| 0 <= i < va.len() ==> (#[trigger] va[i]).wf() && vb[i].wf() && va[i]@ == vb[i]@
}

/// Children that make the same map are alike.
pub proof fn lemma_alike(na: Seq<Vec<u8>>, va: Seq<Node>, nb: Seq<Vec<u8>>, vb: Seq<Node>)
    requires
        strictly_sorted(na),
        strictly_sorted(nb),
        na.len() == va.len(),
        nb.len() == vb.len(),
        forall|i: int| 0 <= i < va.len() ==> (#[trigger] va[i]).wf(),
        forall|i: int| 0 <= i < vb.len() ==> (#[trigger] vb[i]).wf(),
        nodes_view(na, va) == nodes_view(nb, vb),
    ensures
        alike(na, va, nb, vb),
{
    assert forall|n: Seq<u8>| (find(na, n) < na.len()) == (find(nb, n) < nb.len()) by {
        lemma_find(na, n);
        lemma_find(nb, n);
        assert(nodes_view(na, va).contains_key(n) == (find(na, n) < na.len()));
        assert(nodes_view(nb, vb).contains_key(n) == (find(nb, n) < nb.len()));
    }
    lemma_sorted_same(na, nb);
    assert forall|i: int| 0 <= i < va.len() implies (#[trigger] va[i]).wf() && vb[i].wf() && va[i]@ == vb[i]@ by {
        lemma_find_sorted(na, i);
        lemma_find_sorted(nb, i);
        assert(nodes_view(na, va)[na[i]@] == va[i]@);
        assert(nodes_view(nb, vb)[nb[i]@] == vb[i]@);
    }
}

/// Alike lists find every name at the same place.
pub proof fn lemma_alike_find(na: Seq<Vec<u8>>, va: Seq<Node>, nb: Seq<Vec<u8>>, vb: Seq<Node>, n: Seq<u8>)
    requires
        alike(na, va, nb, vb),
    ensures
        find(na, n) == find(nb, n),
        0 <= find(na, n) <= na.len(),
{
    lemma_find(na, n);
    lemma_find(nb, n);
    let i = find(na, n);
    let j = find(nb, n);
    if i < na.len() {
        assert(nb[i]@ == n);
    }
    if j < nb.len() {
        assert(na[j]@ == n);
    }
}

/// Trees with equal views have equal plans.
pub proof fn lemma_plan_by_view(
    a: Node,
    b: Node,
    path: Seq<u8>,
    base: Option<FsNode>,
    above: Seq<u8>,
    parent_tmpfs: bool,
    ws: Workspace,
)
    requires
        a.wf(),
        b.wf(),
        a@ == b@,
    ensures
        a.plan(path, base, above, parent_tmpfs, ws) == b.plan(path, base, above, parent_tmpfs, ws),
    decreases a, 0nat,
{
    match a {
        Node::Dir { children, exist, replace } => {
            let na = children.names@;
            let va = children.values@;
            let nb = b->children.names@;
            let vb = b->children.values@;
            lemma_alike(na, va, nb, vb);
            lemma_dir_plan_alike(na, va, nb, vb, exist, replace, path, base, above, parent_tmpfs, ws);
        },
        Node::File { src, is_link } => {},
    }
}

/// Directories with alike children have equal plans.
pub proof fn lemma_dir_plan_alike(
    na: Seq<Vec<u8>>,
    va: Seq<Node>,
    nb: Seq<Vec<u8>>,
    vb: Seq<Node>,
    exist: bool,
    replace: bool,
    path: Seq<u8>,
    base: Option<FsNode>,
    above: Seq<u8>,
    parent_tmpfs: bool,
    ws: Workspace,
)
    requires
        alike(na, va, nb, vb),
    ensures
        dir_plan(na, va, exist, replace, path, base, above, parent_tmpfs, ws) == dir_plan(
            nb,
            vb,
            exist,
            replace,
            path,
            base,
            above,
            parent_tmpfs,
            ws,
        ),
    decreases va, va.len() + 1,
{
    let staged = is_staged(exist, replace);
    let source = attr_source(path, base, above);
    lemma_children_plan_alike(na, va, nb, vb, path, base, source, staged, ws, va.len());
    assert forall|n: Seq<u8>| names_dom(na).contains(n) == names_dom(nb).contains(n) by {
        lemma_alike_find(na, va, nb, vb, n);
    }
    assert(names_dom(na) =~= names_dom(nb));
}

/// The first `n` of alike children have equal plans.
pub proof fn lemma_children_plan_alike(
    na: Seq<Vec<u8>>,
    va: Seq<Node>,
    nb: Seq<Vec<u8>>,
    vb: Seq<Node>,
    path: Seq<u8>,
    base: Option<FsNode>,
    source: Seq<u8>,
    staged: bool,
    ws: Workspace,
    n: nat,
)
    requires
        alike(na, va, nb, vb),
        n <= va.len(),
    ensures
        children_plan(na, va, path, base, source, staged, ws, n) == children_plan(
            nb,
            vb,
            path,
            base,
            source,
            staged,
            ws,
            n,
        ),
    decreases va, n,
{
    if n > 0 {
        lemma_children_plan_alike(na, va, nb, vb, path, base, source, staged, ws, (n - 1) as nat);
        let name = na[n - 1]@;
        assert(nb[n - 1]@ == name);
        assert(va[n - 1].wf() && vb[n - 1].wf() && va[n - 1]@ == vb[n - 1]@);
        lemma_plan_by_view(va[n - 1], vb[n - 1], join_spec(path, name), base_child(base, name), source, staged, ws);
    }
}

/// Taking one name out of alike lists leaves alike lists.
pub proof fn lemma_without_alike(na: Seq<Vec<u8>>, va: Seq<Node>, nb: Seq<Vec<u8>>, vb: Seq<Node>, name: Seq<u8>)
    requires
        alike(na, va, nb, vb),
    ensures
        alike(without(na, va, name).0, without(na, va, name).1, without(nb, vb, name).0, without(nb, vb, name).1),
{
    lemma_alike_find(na, va, nb, vb, name);
    let p = find(na, name);
    if p < na.len() {
        lemma_find_remove(na, p, name);
        lemma_find_remove(nb, p, name);
        let na2 = na.remove(p);
        let nb2 = nb.remove(p);
        let va2 = va.remove(p);
        let vb2 = vb.remove(p);
        assert forall|i: int| 0 <= i < na2.len() implies (#[trigger] na2[i])@ == nb2[i]@ by {
            let j = if i < p { i } else { i + 1 };
            assert(na2[i] == na[j]);
            assert(nb2[i] == nb[j]);
        }
        assert forall|i: int| 0 <= i < va2.len() implies (#[trigger] va2[i]).wf() && vb2[i].wf() && va2[i]@
            == vb2[i]@ by {
            let j = if i < p { i } else { i + 1 };
            assert(va2[i] == va[j]);
            assert(vb2[i] == vb[j]);
        }
    }
}

/// Alike lists give the same part for a mount point of its own.
pub proof fn lemma_part_alike(
    na: Seq<Vec<u8>>,
    va: Seq<Node>,
    nb: Seq<Vec<u8>>,
    vb: Seq<Node>,
    name: Seq<u8>,
    root: FsNode,
    ws: Workspace,
)
    requires
        alike(na, va, nb, vb),
    ensures
        part_sections(na, va, name, root, ws) == part_sections(nb, vb, name, root, ws),
{
    lemma_alike_find(na, va, nb, vb, name);
    let p = find(na, name);
    if p < na.len() {
        assert(va[p].wf() && vb[p].wf() && va[p]@ == vb[p]@);
        assert(mounts_alone(va[p]) == mounts_alone(vb[p]));
        lemma_plan_by_view(
            va[p],
            vb[p],
            part_dest(name),
            resolved(root, part_dest(name)),
            text("/"),
            false,
            ws,
        );
    }
}

/// Trees with equal views are deployed by the same parts.
pub proof fn lemma_sections_by_view(a: Node, b: Node, root: FsNode, ws: Workspace)
    requires
        a.wf(),
        b.wf(),
        a is Dir,
        a@ == b@,
    ensures
        mount_sections(a, root, ws) == mount_sections(b, root, ws),
{
    let na = a->children.names@;
    let va = a->children.values@;
    let nb = b->children.names@;
    let vb = b->children.values@;
    lemma_alike(na, va, nb, vb);
    let product = text("product");
    let vendor = text("vendor");
    let system_ext = text("system_ext");
    let (na1, va1) = without(na, va, product);
    let (nb1, vb1) = without(nb, vb, product);
    let (na2, va2) = without(na1, va1, vendor);
    let (nb2, vb2) = without(nb1, vb1, vendor);
    let (na3, va3) = without(na2, va2, system_ext);
    let (nb3, vb3) = without(nb2, vb2, system_ext);
    lemma_part_alike(na, va, nb, vb, product, root, ws);
    lemma_without_alike(na, va, nb, vb, product);
    lemma_part_alike(na1, va1, nb1, vb1, vendor, root, ws);
    lemma_without_alike(na1, va1, nb1, vb1, vendor);
    lemma_part_alike(na2, va2, nb2, vb2, system_ext, root, ws);
    lemma_without_alike(na2, va2, nb2, vb2, system_ext);
    lemma_dir_plan_alike(
        na3,
        va3,
        nb3,
        vb3,
        a->exist,
        a->replace,
        text("/system"),
        resolved(root, text("/system")),
        text("/"),
        false,
        ws,
    );
}

/// Two lists of virtual trees are alike: both are well formed, and place
/// by place they have equal views.
pub open spec fn customs_alike(a: Seq<CustomModule>, b: Seq<CustomModule>) -> bool {
    &&& a.len() == b.len()
    &&& forall|i: int| 0 <= i < a.len() ==> (#[trigger] a[i]).wf() && b[i].wf() && a[i]@ == b[i]@
}

/// Two merges are alike: they have the same real sources, have yielded the
/// same names, and their virtual trees are alike.
pub open spec fn merges_alike(s: MergeState, t: MergeState) -> bool {
    &&& s.wf()
    &&& t.wf()
    &&& s.modules == t.modules
    &&& s.seen == t.seen
    &&& customs_alike(s.customs, t.customs)
}

/// Virtual trees with equal views hold the same names, with equal
/// subtrees under them.
pub proof fn lemma_custom_alike(a: CustomModule, b: CustomModule, n: Seq<u8>)
    requires
        a.wf(),
        b.wf(),
        a@ == b@,
    ensures
        (custom_child(a, n) is Some) == (custom_child(b, n) is Some),
        custom_child(a, n) is Some ==> custom_child(a, n)->0@ == custom_child(b, n)->0@ && custom_child(a, n)->0.wf()
            && custom_child(b, n)->0.wf(),
{
    match a {
        CustomModule::Dir { children } => {
            let ca = children;
            let cb = b->children;
            lemma_find(ca.names@, n);
            lemma_find(cb.names@, n);
            assert(ca.tree_view().contains_key(n) == ca.has(n));
            assert(cb.tree_view().contains_key(n) == cb.has(n));
            if ca.has(n) {
                assert(ca.tree_view()[n] == ca.value(n)@);
                assert(cb.tree_view()[n] == cb.value(n)@);
                assert(ca.values@[find(ca.names@, n)].wf());
                assert(cb.values@[find(cb.names@, n)].wf());
            }
        },
        CustomModule::File { .. } => {},
    }
}

/// In alike lists the same virtual tree wins a name, and what stands below
/// the name is alike.
pub proof fn lemma_customs_alike(a: Seq<CustomModule>, b: Seq<CustomModule>, n: Seq<u8>)
    requires
        customs_alike(a, b),
    ensures
        custom_top(a, n) == custom_top(b, n),
        customs_alike(open_custom(a, n), open_custom(b, n)),
    decreases a.len(),
{
    if a.len() > 0 {
        let a2 = a.drop_last();
        let b2 = b.drop_last();
        assert forall|i: int| 0 <= i < a2.len() implies (#[trigger] a2[i]).wf() && b2[i].wf() && a2[i]@ == b2[i]@ by {
            assert(a2[i] == a[i]);
            assert(b2[i] == b[i]);
            assert(a[i].wf());
        }
        lemma_customs_alike(a2, b2, n);
        let last = a.len() - 1;
        assert(a[last].wf());
        lemma_custom_alike(a.last(), b.last(), n);
        let oa = open_custom(a, n);
        let ob = open_custom(b, n);
        let ra = open_custom(a2, n);
        let rb = open_custom(b2, n);
        if custom_child(a.last(), n) is Some {
            assert forall|i: int| 0 <= i < oa.len() implies (#[trigger] oa[i]).wf() && ob[i].wf() && oa[i]@ == ob[i]@ by {
                if i < ra.len() {
                    assert(oa[i] == ra[i]);
                    assert(ob[i] == rb[i]);
                    assert(ra[i].wf());
                }
            }
        }
    }
}

/// Alike lists of virtual trees hold the same leaves under a name.
pub proof fn lemma_leaves_alike(a: Seq<CustomModule>, b: Seq<CustomModule>, n: Seq<u8>)
    requires
        customs_alike(a, b),
    ensures
        custom_leaves(a, n) == custom_leaves(b, n),
    decreases a.len(),
{
    if a.len() > 0 {
        let a2 = a.drop_last();
        let b2 = b.drop_last();
        assert forall|i: int| 0 <= i < a2.len() implies (#[trigger] a2[i]).wf() && b2[i].wf() && a2[i]@ == b2[i]@ by {
            assert(a2[i] == a[i]);
            assert(b2[i] == b[i]);
            assert(a[i].wf());
        }
        lemma_leaves_alike(a2, b2, n);
        assert(a[a.len() - 1].wf());
        lemma_custom_alike(a.last(), b.last(), n);
    }
}

/// In alike merges the same entries lose to a name, a directory wins the
/// name in both or in neither, and what is merged below it is alike.
pub proof fn lemma_entry_alike(s: MergeState, t: MergeState, n: Seq<u8>)
    requires
        merges_alike(s, t),
    ensures
        s.offers(n) == t.offers(n),
        s.offers(n) ==> (s.entry(n) is Dir) == (t.entry(n) is Dir),
        merges_alike(s.below(n), t.below(n)),
        s.losers(n) == t.losers(n),
{
    lemma_customs_alike(s.customs, t.customs, n);
    lemma_custom_top(s.customs, n);
    lemma_custom_top(t.customs, n);
    lemma_real_top(s.modules, n);
    s.lemma_below(n);
    t.lemma_below(n);
    lemma_leaves_alike(s.customs, t.customs, n);
    let c = custom_top(s.customs, n);
    if real_top(s.modules, n) < 0 && c >= 0 {
        assert(s.customs[c].wf());
        lemma_custom_alike(s.customs[c], t.customs[c], n);
        let sc = s.customs.take(c);
        let tc = t.customs.take(c);
        assert forall|i: int| 0 <= i < sc.len() implies (#[trigger] sc[i]).wf() && tc[i].wf() && sc[i]@ == tc[i]@ by {
            assert(sc[i] == s.customs[i]);
            assert(tc[i] == t.customs[i]);
            assert(s.customs[i].wf());
        }
        lemma_leaves_alike(sc, tc, n);
    }
}

/// Trees with equal views, built by alike merges, have the same conflicts.
pub proof fn lemma_conflicts_by_view(a: Node, b: Node, s: MergeState, t: MergeState)
    requires
        a.wf(),
        b.wf(),
        a@ == b@,
        merges_alike(s, t),
    ensures
        conflicts_of(a, s) == conflicts_of(b, t),
    decreases a, 0nat,
{
    match a {
        Node::Dir { children, .. } => {
            let na = children.names@;
            let va = children.values@;
            let nb = b->children.names@;
            let vb = b->children.values@;
            lemma_alike(na, va, nb, vb);
            lemma_entry_alike(s, t, crate::tree::replace_name());
            lemma_notes_alike(na, va, nb, vb, s, t, va.len());
        },
        Node::File { .. } => {},
    }
}

/// The first `n` of alike children, built by alike merges, have the same
/// conflicts.
pub proof fn lemma_notes_alike(
    na: Seq<Vec<u8>>,
    va: Seq<Node>,
    nb: Seq<Vec<u8>>,
    vb: Seq<Node>,
    s: MergeState,
    t: MergeState,
    n: nat,
)
    requires
        alike(na, va, nb, vb),
        merges_alike(s, t),
        n <= va.len(),
    ensures
        notes_of(na, va, s, n) == notes_of(nb, vb, t, n),
    decreases va, n,
{
    if n > 0 {
        lemma_notes_alike(na, va, nb, vb, s, t, (n - 1) as nat);
        let name = na[n - 1]@;
        assert(nb[n - 1]@ == name);
        assert(va[n - 1].wf() && vb[n - 1].wf() && va[n - 1]@ == vb[n - 1]@);
        lemma_entry_alike(s, t, name);
        assert((va[n - 1] is Dir) == (vb[n - 1] is Dir)) by {
            assert((va[n - 1]@ is Dir) == (va[n - 1] is Dir));
            assert((vb[n - 1]@ is Dir) == (vb[n - 1] is Dir));
        }
        if va[n - 1] is Dir {
            lemma_conflicts_by_view(va[n - 1], vb[n - 1], s.below(name), t.below(name));
        }
        assert(crate::tree::note_of(va[n - 1], s, name) == crate::tree::note_of(vb[n - 1], t, name));
    }
}

/// Alike merges give equal logical trees.
pub proof fn lemma_tree_by_view(s: MergeState, t: MergeState, base: Option<FsNode>)
    requires
        merges_alike(s, t),
    ensures
        tree_of(s, base) == tree_of(t, base),
    decreases s.height(),
{
    let left = tree_of(s, base);
    let right = tree_of(t, base);
    assert forall|n: Seq<u8>| is_child(s, n) == is_child(t, n) && (is_child(s, n) ==> child_of(s, base, n)
        == child_of(t, base, n)) && (s.offers(n) ==> (is_marker(s, n) == is_marker(t, n))) && (s.offers(n)
        == t.offers(n)) by {
        lemma_customs_alike(s.customs, t.customs, n);
        lemma_custom_top(s.customs, n);
        lemma_custom_top(t.customs, n);
        lemma_real_top(s.modules, n);
        if s.offers(n) {
            let c = custom_top(s.customs, n);
            if real_top(s.modules, n) < 0 {
                assert(s.customs[c].wf());
                lemma_custom_alike(s.customs[c], t.customs[c], n);
            }
            if s.entry(n) is Dir {
                s.lemma_below(n);
                t.lemma_below(n);
                lemma_tree_by_view(s.below(n), t.below(n), base_child(base, n));
            }
        }
    }
    assert(left->children =~= right->children);
}

/// The deployment is fixed by what it is given: two deployments of the
/// same modules over the same real filesystem have the same parts and the
/// same conflicts.
pub proof fn lemma_deployment_is_unique(
    first: Seq<SectionView>,
    first_conflicts: Seq<Seq<u8>>,
    second: Seq<SectionView>,
    second_conflicts: Seq<Seq<u8>>,
    infos: Seq<ModuleInfo>,
    zygisk_lib: Option<Seq<u8>>,
    magisk_path: Option<Seq<u8>>,
    root: FsNode,
    env: Environment,
)
    requires
        is_deployment(first, first_conflicts, infos, zygisk_lib, magisk_path, root, env),
        is_deployment(second, second_conflicts, infos, zygisk_lib, magisk_path, root, env),
    ensures
        first == second,
        first_conflicts == second_conflicts,
{
    let (l1, t1) = choose|l: ModuleList, t: Node| #[trigger]
        deploys(l, t, first, first_conflicts, infos, zygisk_lib, magisk_path, root, env);
    let (l2, t2) = choose|l: ModuleList, t: Node| #[trigger]
        deploys(l, t, second, second_conflicts, infos, zygisk_lib, magisk_path, root, env);
    lemma_list_wf(l1);
    lemma_list_wf(l2);
    let r1 = l1.customs@;
    let r2 = l2.customs@;
    assert(custom_views(r1) == custom_views(r2));
    assert(r1.len() == r2.len()) by {
        assert(custom_views(r1).len() == r1.len());
        assert(custom_views(r2).len() == r2.len());
    }
    assert forall|i: int| 0 <= i < r1.len() implies (#[trigger] r1[i]).wf() && r2[i].wf() && r1[i]@ == r2[i]@ by {
        assert(l1.customs[i].wf());
        assert(l2.customs[i].wf());
        assert(custom_views(r1)[i] == r1[i]@);
        assert(custom_views(r2)[i] == r2[i]@);
    }
    let system = text("system");
    lemma_customs_alike(r1, r2, system);
    l1@.lemma_below(system);
    l2@.lemma_below(system);
    lemma_tree_by_view(l1@.below(system), l2@.below(system), resolved(root, text("/system")));
    lemma_sections_by_view(t1, t2, root, env.ws);
    lemma_conflicts_by_view(t1, t2, l1@.below(system), l2@.below(system));
}

} // verus!
