//! Reproducing untouched real content below a staging directory.

use vstd::prelude::*;
use crate::fs::FsNode;
use crate::name::{join, join_spec, name_copy};
use crate::name_map::NameMap;
use crate::node::Node;
use crate::ops::{ops_view, push_op, MountOp, OpView};

verus! {

/// The operations that reproduce the real object `node`, which lies at
/// `from`, at the staging path `to`. A directory is made, takes the
/// attributes of the real one, and has all its entries reproduced below
/// it. A symbolic link is made anew and takes the attributes of the real
/// one. Anything else gets an empty file with the real object bound over
/// it.
pub open spec fn mirror_plan(node: FsNode, from: Seq<u8>, to: Seq<u8>) -> Seq<OpView>
    decreases node, 0nat,
{
    match node {
        FsNode::Dir { entries } => seq![OpView::MakeDir { path: to }, OpView::CloneAttr { from, to }]
            + mirror_entries_plan(
            entries.names@,
            entries.values@,
            from,
            to,
            entries.values@.len(),
            Set::empty(),
        ),
        FsNode::Symlink { target } => seq![
            OpView::Symlink { target: target@, link: to },
            OpView::CloneAttr { from, to },
        ],
        _ => seq![OpView::CreateFile { path: to }, OpView::BindMount { source: from, target: to }],
    }
}

/// The operations that reproduce, below the staging directory `to`, the
/// first `n` entries of the real directory at `from`, in their order,
/// passing over the names in `skip`.
pub open spec fn mirror_entries_plan(
    names: Seq<Vec<u8>>,
    values: Seq<FsNode>,
    from: Seq<u8>,
    to: Seq<u8>,
    n: nat,
    skip: Set<Seq<u8>>,
) -> Seq<OpView>
    decreases values, n,
{
    if n == 0 || n > values.len() || n > names.len() {
        Seq::empty()
    } else {
        let name = names[n - 1]@;
        let before = mirror_entries_plan(names, values, from, to, (n - 1) as nat, skip);
        if skip.contains(name) {
            before
        } else {
            before + mirror_plan(values[n - 1], join_spec(from, name), join_spec(to, name))
        }
    }
}

/// The names that a set of merged children takes, or none where there are
/// no such children.
pub open spec fn skip_set(skip: Option<&NameMap<Node>>) -> Set<Seq<u8>> {
    match skip {
        Some(c) => c.dom(),
        None => Set::empty(),
    }
}

/// Adds to the plan the operations that reproduce the real object `node`,
/// which lies at `from`, at the staging path `to`.
pub fn mirror_node(node: &FsNode, from: &Vec<u8>, to: &Vec<u8>, ops: &mut Vec<MountOp>)
    requires
        node.wf(),
    ensures
        ops_view(final(ops)@) == ops_view(old(ops)@) + mirror_plan(*node, from@, to@),
    decreases node,
{
    match node {
        FsNode::Dir { entries } => {
            push_op(ops, MountOp::MakeDir { path: name_copy(to) });
            push_op(ops, MountOp::CloneAttr { from: name_copy(from), to: name_copy(to) });
            let ghost mid = ops_view(ops@);
            mirror_entries(entries, from, to, None, ops);
            proof {
                let head = seq![OpView::MakeDir { path: to@ }, OpView::CloneAttr { from: from@, to: to@ }];
                assert(mid =~= ops_view(old(ops)@) + head);
                let rest = mirror_entries_plan(
                    entries.names@,
                    entries.values@,
                    from@,
                    to@,
                    entries.values@.len(),
                    Set::empty(),
                );
                assert(ops_view(ops@) =~= ops_view(old(ops)@) + (head + rest));
            }
        },
        FsNode::Symlink { target } => {
            push_op(ops, MountOp::Symlink { target: name_copy(target), link: name_copy(to) });
            push_op(ops, MountOp::CloneAttr { from: name_copy(from), to: name_copy(to) });
            proof {
                assert(ops_view(ops@) =~= ops_view(old(ops)@) + mirror_plan(*node, from@, to@));
            }
        },
        _ => {
            push_op(ops, MountOp::CreateFile { path: name_copy(to) });
            push_op(ops, MountOp::BindMount { source: name_copy(from), target: name_copy(to) });
            proof {
                assert(ops_view(ops@) =~= ops_view(old(ops)@) + mirror_plan(*node, from@, to@));
            }
        },
    }
}

/// Adds to the plan the operations that reproduce, below the staging
/// directory `to`, the entries of the real directory at `from`, passing
/// over the names that `skip` holds.
pub fn mirror_entries(
    entries: &NameMap<FsNode>,
    from: &Vec<u8>,
    to: &Vec<u8>,
    skip: Option<&NameMap<Node>>,
    ops: &mut Vec<MountOp>,
)
    requires
        entries.wf(),
        forall|i: int| 0 <= i < entries.values@.len() ==> (#[trigger] entries.values@[i]).wf(),
        skip is Some ==> skip->0.wf(),
    ensures
        ops_view(final(ops)@) == ops_view(old(ops)@) + mirror_entries_plan(
            entries.names@,
            entries.values@,
            from@,
            to@,
            entries.values@.len(),
            skip_set(skip),
        ),
    decreases entries,
{
    let mut i: usize = 0;
    proof {
        assert(ops_view(ops@) =~= ops_view(old(ops)@) + Seq::<OpView>::empty());
    }
    while i < entries.values.len()
        invariant
            i <= entries.values.len(),
            entries.wf(),
            forall|k: int| 0 <= k < entries.values@.len() ==> (#[trigger] entries.values@[k]).wf(),
            skip is Some ==> skip->0.wf(),
            ops_view(ops@) == ops_view(old(ops)@) + mirror_entries_plan(
                entries.names@,
                entries.values@,
                from@,
                to@,
                i as nat,
                skip_set(skip),
            ),
        decreases entries.values.len() - i,
    {
        let name = &entries.names[i];
        let skipped = match skip {
            Some(c) => c.contains_key(name),
            None => false,
        };
        let ghost before = mirror_entries_plan(
            entries.names@,
            entries.values@,
            from@,
            to@,
            i as nat,
            skip_set(skip),
        );
        if !skipped {
            let child_from = join(from, name);
            let child_to = join(to, name);
            mirror_node(&entries.values[i], &child_from, &child_to, ops);
            proof {
                let step = mirror_plan(entries.values@[i as int], child_from@, child_to@);
                assert(ops_view(ops@) =~= ops_view(old(ops)@) + (before + step));
            }
        }
        i += 1;
    }
}

} // verus!
