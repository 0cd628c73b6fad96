//! The logical tree: what the merged view holds at each path.

use vstd::prelude::*;
use crate::name_map::{find, lemma_find, lemma_find_sorted, NameMap};

verus! {

/// One path of the merged view.
#[derive(Debug, PartialEq, Eq)]
pub enum Node {
    /// A directory. `exist` says that the real filesystem already holds this
    /// directory with nothing in it overridden, so that no staging copy is
    /// needed; `replace` says that the real directory's own content is to be
    /// ignored.
    Dir { children: NameMap<Node>, exist: bool, replace: bool },
    /// A leaf. Without `src` it is a deletion: the name must not appear.
    /// With `src` and `is_link` it is a symbolic link to `src`; with `src`
    /// alone it is the file at `src`, shown at this place.
    File { src: Option<Vec<u8>>, is_link: bool },
}

/// A logical tree as a mathematical value.
pub ghost enum NodeView {
    Dir { children: Map<Seq<u8>, NodeView>, exist: bool, replace: bool },
    File { src: Option<Seq<u8>>, is_link: bool },
}

/// The children of a logical directory as a map from names to subtrees.
pub open spec fn nodes_view(names: Seq<Vec<u8>>, values: Seq<Node>) -> Map<Seq<u8>, NodeView>
    decreases values, 0nat,
{
    Map::new(
        |n: Seq<u8>| find(names, n) < names.len() && find(names, n) < values.len(),
        |n: Seq<u8>|
            {
                let i = find(names, n);
                if 0 <= i < values.len() {
                    values[i].view()
                } else {
                    arbitrary()
                }
            },
    )
}

/// The view of an optional path.
pub open spec fn path_view(p: Option<Vec<u8>>) -> Option<Seq<u8>> {
    match p {
        Some(v) => Some(v@),
        None => None,
    }
}

impl Node {
    /// The tree as a mathematical value.
    pub open spec fn view(&self) -> NodeView
        decreases self, 1nat,
    {
        match self {
            Node::Dir { children, exist, replace } => NodeView::Dir {
                children: nodes_view(children.names@, children.values@),
                exist: *exist,
                replace: *replace,
            },
            Node::File { src, is_link } => NodeView::File { src: path_view(*src), is_link: *is_link },
        }
    }

    /// Every directory of the tree keeps its children sorted by name.
    pub open spec fn wf(&self) -> bool
        decreases self,
    {
        match self {
            Node::Dir { children, .. } => {
                &&& children.wf()
                &&& forall|i: int| 0 <= i < children.values@.len() ==> (#[trigger] children.values@[i]).wf()
            },
            _ => true,
        }
    }

    /// Takes the child `name` out of a directory and hands it over. A leaf
    /// has no children, and stays as it is.
    pub fn extract(&mut self, name: &Vec<u8>) -> (r: Option<Node>)
        requires
            old(self).wf(),
        ensures
            final(self).wf(),
            match old(self)@ {
                NodeView::Dir { children, exist, replace } => {
                    &&& r is Some <==> children.contains_key(name@)
                    &&& r is Some ==> r->0@ == children[name@] && r->0.wf()
                    &&& final(self)@ == (NodeView::Dir { children: children.remove(name@), exist, replace })
                },
                NodeView::File { .. } => r is None && *final(self) == *old(self),
            },
            r is None ==> *final(self) == *old(self),
            r is Some ==> {
                let p = find((*old(self))->children.names@, name@);
                &&& *old(self) is Dir
                &&& *final(self) is Dir
                &&& 0 <= p < (*old(self))->children.names@.len()
                &&& r->0 == (*old(self))->children.values@[p]
                &&& (*final(self))->children.names@ == (*old(self))->children.names@.remove(p)
                &&& (*final(self))->children.values@ == (*old(self))->children.values@.remove(p)
                &&& (*final(self))->exist == (*old(self))->exist
                &&& (*final(self))->replace == (*old(self))->replace
            },
    {
        match self {
            Node::Dir { children, .. } => {
                let (p, found) = children.search(name);
                if !found {
                    proof {
                        lemma_find(children.names@, name@);
                        assert(nodes_view(children.names@, children.values@).remove(name@) =~= nodes_view(
                            children.names@,
                            children.values@,
                        ));
                    }
                    return None;
                }
                let ghost names = children.names@;
                let ghost values = children.values@;
                children.names.remove(p);
                let taken = children.values.remove(p);
                proof {
                    lemma_nodes_remove(names, values, p as int);
                    lemma_find_sorted(names, p as int);
                    assert forall|i: int| 0 <= i < children.values@.len() implies (#[trigger] children.values@[i]).wf() by {
                        if i < p {
                            assert(children.values@[i] == values[i]);
                        } else {
                            assert(children.values@[i] == values[i + 1]);
                        }
                    }
                }
                Some(taken)
            },
            Node::File { .. } => None,
        }
    }
}

/// Taking the entry at place `p` out of a sorted list of children leaves
/// the list sorted and the map without that name.
pub proof fn lemma_nodes_remove(names: Seq<Vec<u8>>, values: Seq<Node>, p: int)
    requires
        crate::name_map::strictly_sorted(names),
        names.len() == values.len(),
        0 <= p < names.len(),
    ensures
        crate::name_map::strictly_sorted(names.remove(p)),
        nodes_view(names.remove(p), values.remove(p)) == nodes_view(names, values).remove(names[p]@),
{
    let names2 = names.remove(p);
    let values2 = values.remove(p);
    assert forall|i: int, j: int| 0 <= i < j < names2.len() implies crate::name::name_lt(
        #[trigger] names2[i]@,
        #[trigger] names2[j]@,
    ) by {
        let i0 = if i < p { i } else { i + 1 };
        let j0 = if j < p { j } else { j + 1 };
        assert(names2[i] == names[i0]);
        assert(names2[j] == names[j0]);
    }
    assert forall|n: Seq<u8>|
        ((#[trigger] find(names2, n)) < names2.len()) == (n != names[p]@ && find(names, n) < names.len())
        && (find(names2, n) < names2.len() ==> values2[find(names2, n)] == values[find(names, n)]) by {
        lemma_find(names, n);
        lemma_find(names2, n);
        let i = find(names, n);
        let i2 = find(names2, n);
        if i2 < names2.len() {
            let j = if i2 < p { i2 } else { i2 + 1 };
            assert(names2[i2] == names[j]);
            crate::name_map::lemma_sorted_unique(names, j, i);
            if n == names[p]@ {
                crate::name_map::lemma_sorted_unique(names, j, p);
            }
        } else if i < names.len() && i != p {
            let j = if i < p { i } else { i - 1 };
            assert(names2[j] == names[i]);
        } else if i < names.len() {
        }
        if n == names[p]@ {
            lemma_find_sorted(names, p);
        }
    }
    let left = nodes_view(names2, values2);
    let right = nodes_view(names, values).remove(names[p]@);
    assert forall|n: Seq<u8>| #[trigger] left.contains_key(n) == right.contains_key(n) by {
        assert((find(names2, n) < names2.len()) == (n != names[p]@ && find(names, n) < names.len()));
    }
    assert forall|n: Seq<u8>| left.contains_key(n) implies #[trigger] left[n] == right[n] by {
        assert(find(names2, n) < names2.len());
        lemma_find(names, n);
        lemma_find(names2, n);
    }
    assert(left =~= right);
}

/// Putting a new name with its subtree at its place in a sorted list of
/// children keeps the list sorted and adds one entry to the map.
pub proof fn lemma_nodes_insert(names: Seq<Vec<u8>>, values: Seq<Node>, name: Vec<u8>, sub: Node, p: int)
    requires
        crate::name_map::strictly_sorted(names),
        names.len() == values.len(),
        0 <= p <= names.len(),
        forall|i: int| 0 <= i < p ==> crate::name::name_lt(#[trigger] names[i]@, name@),
        forall|i: int| p <= i < names.len() ==> crate::name::name_lt(name@, #[trigger] names[i]@),
    ensures
        nodes_view(names.insert(p, name), values.insert(p, sub)) == nodes_view(names, values).insert(
            name@,
            sub.view(),
        ),
{
    let names2 = names.insert(p, name);
    let values2 = values.insert(p, sub);
    let left = nodes_view(names2, values2);
    let right = nodes_view(names, values).insert(name@, sub.view());
    assert forall|n: Seq<u8>| #[trigger] left.contains_key(n) == right.contains_key(n) by {
        crate::name_map::lemma_find_shift(names, name, p, n);
    }
    assert forall|n: Seq<u8>| left.contains_key(n) implies #[trigger] left[n] == right[n] by {
        crate::name_map::lemma_find_shift(names, name, p, n);
    }
    assert(left =~= right);
}

} // verus!
