use vstd::prelude::*;

use crate::path::{strings_view, clone_strings};

verus! {

/// The tree of a `use` declaration: `a::{b, c as d, e::*}`.
#[derive(Debug, PartialEq, Eq)]
pub enum UseTree {
    /// `seg::subtree`
    Path(String, Box<UseTree>),
    /// `name`
    Name(String),
    /// `name as alias`
    Rename(String, String),
    /// `*`
    Glob,
    /// `{item, item, ...}`
    Group(Vec<UseTree>),
}

/// How a flattened `use` entry ends.
#[derive(Debug, PartialEq, Eq)]
pub enum Leaf {
    Name,
    Alias(String),
    Glob,
}

/// A fully expanded `use` entry: the path and how it ends. For a glob the
/// path is the module whose items are imported.
#[derive(Debug, PartialEq, Eq)]
pub struct UseLeaf {
    pub segs: Vec<String>,
    pub leaf: Leaf,
}

/// The abstract value of a [`Leaf`].
pub enum LeafKind {
    Name,
    Alias(Seq<char>),
    Glob,
}

/// The abstract value of a [`UseLeaf`].
pub struct LeafView {
    pub segs: Seq<Seq<char>>,
    pub kind: LeafKind,
}

impl View for Leaf {
    type V = LeafKind;

    open spec fn view(&self) -> LeafKind {
        match self {
            Leaf::Name => LeafKind::Name,
            Leaf::Alias(a) => LeafKind::Alias(a@),
            Leaf::Glob => LeafKind::Glob,
        }
    }
}

impl View for UseLeaf {
    type V = LeafView;

    open spec fn view(&self) -> LeafView {
        LeafView { segs: strings_view(self.segs@), kind: self.leaf@ }
    }
}

/// The views of a sequence of leaves.
pub open spec fn leaves_view(v: Seq<UseLeaf>) -> Seq<LeafView> {
    v.map_values(|l: UseLeaf| l@)
}

/// The entries that `t` imports, each path preceded by `prefix`, in the
/// order in which they are written.
pub open spec fn flatten(t: UseTree, prefix: Seq<Seq<char>>) -> Seq<LeafView>
    decreases t,
{
    match t {
        UseTree::Path(s, sub) => flatten(*sub, prefix.push(s@)),
        UseTree::Name(s) => seq![LeafView { segs: prefix.push(s@), kind: LeafKind::Name }],
        UseTree::Rename(s, a) => seq![LeafView { segs: prefix.push(s@), kind: LeafKind::Alias(a@) }],
        UseTree::Glob => seq![LeafView { segs: prefix, kind: LeafKind::Glob }],
        UseTree::Group(items) => flatten_items(items@, prefix),
    }
}

/// The entries of a sequence of trees, one tree after the other.
pub open spec fn flatten_items(items: Seq<UseTree>, prefix: Seq<Seq<char>>) -> Seq<LeafView>
    decreases items,
{
    if items.len() == 0 {
        Seq::empty()
    } else {
        flatten_items(items.drop_last(), prefix) + flatten(items.last(), prefix)
    }
}

/// The abstract value of a [`UseTree`]: the same shape, with the text of
/// each name.
pub enum TreeView {
    Path(Seq<char>, Box<TreeView>),
    Name(Seq<char>),
    Rename(Seq<char>, Seq<char>),
    Glob,
    Group(Seq<TreeView>),
}

/// The abstract value of `t`.
pub open spec fn tree_view(t: UseTree) -> TreeView
    decreases t,
{
    match t {
        UseTree::Path(s, sub) => TreeView::Path(s@, Box::new(tree_view(*sub))),
        UseTree::Name(s) => TreeView::Name(s@),
        UseTree::Rename(s, a) => TreeView::Rename(s@, a@),
        UseTree::Glob => TreeView::Glob,
        UseTree::Group(items) => TreeView::Group(items_view(items@)),
    }
}

/// The abstract values of a sequence of trees.
pub open spec fn items_view(items: Seq<UseTree>) -> Seq<TreeView>
    decreases items,
{
    if items.len() == 0 {
        Seq::empty()
    } else {
        items_view(items.drop_last()).push(tree_view(items.last()))
    }
}

/// A copy of a leaf.
pub fn clone_leaf(l: &UseLeaf) -> (res: UseLeaf)
    ensures
        res@ == l@,
{
    let leaf = match &l.leaf {
        Leaf::Name => Leaf::Name,
        Leaf::Alias(a) => Leaf::Alias(a.clone()),
        Leaf::Glob => Leaf::Glob,
    };
    UseLeaf { segs: clone_strings(&l.segs), leaf }
}

/// Appends to `out` every entry of `tree`, its path preceded by `prefix`.
/// `prefix` is the same again on return.
pub fn collect_leaves(tree: &UseTree, prefix: &mut Vec<String>, out: &mut Vec<UseLeaf>)
    ensures
        final(prefix)@ == old(prefix)@,
        leaves_view(final(out)@) == leaves_view(old(out)@) + flatten(*tree, strings_view(old(prefix)@)),
    decreases tree,
{
    match tree {
        UseTree::Path(s, sub) => {
            prefix.push(s.clone());
            collect_leaves(sub, prefix, out);
            prefix.pop();
            assert(strings_view(old(prefix)@.push(*s)) =~= strings_view(old(prefix)@).push(s@));
        }
        UseTree::Name(n) => {
            let mut segs = clone_strings(prefix);
            segs.push(n.clone());
            let ghost before = out@;
            out.push(UseLeaf { segs, leaf: Leaf::Name });
            assert(strings_view(old(prefix)@.push(*n)) =~= strings_view(old(prefix)@).push(n@));
            assert(leaves_view(out@) =~= leaves_view(before) + flatten(*tree, strings_view(old(prefix)@)));
        }
        UseTree::Rename(n, a) => {
            let mut segs = clone_strings(prefix);
            segs.push(n.clone());
            let ghost before = out@;
            out.push(UseLeaf { segs, leaf: Leaf::Alias(a.clone()) });
            assert(strings_view(old(prefix)@.push(*n)) =~= strings_view(old(prefix)@).push(n@));
            assert(leaves_view(out@) =~= leaves_view(before) + flatten(*tree, strings_view(old(prefix)@)));
        }
        UseTree::Group(items) => {
            let ghost p = strings_view(prefix@);
            let ghost start = leaves_view(out@);
            for i in 0..items.len()
                invariant
                    prefix@ == old(prefix)@,
                    *tree == UseTree::Group(*items),
                    p == strings_view(old(prefix)@),
                    start == leaves_view(old(out)@),
                    leaves_view(out@) == start + flatten_items(items@.take(i as int), p),
            {
                assert(items@.take(i + 1).drop_last() =~= items@.take(i as int));
                proof {
                    assert(decreases_to!(*tree => tree->Group_0));
                    assert(decreases_to!(tree->Group_0 => tree->Group_0@));
                    assert(decreases_to!(items@ => items@[i as int]));
                }
                collect_leaves(&items[i], prefix, out);
            }
            assert(items@.take(items.len() as int) =~= items@);
        }
        UseTree::Glob => {
            let segs = clone_strings(prefix);
            let ghost before = out@;
            out.push(UseLeaf { segs, leaf: Leaf::Glob });
            assert(leaves_view(out@) =~= leaves_view(before) + flatten(*tree, strings_view(old(prefix)@)));
        }
    }
}

} // verus!
