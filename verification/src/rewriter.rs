use vstd::prelude::*;

use crate::path::{clone_strings, join_path, join_strings, strings_eq, strings_prefix, strings_view};
use crate::rename::Rename;
use crate::rebuild::{
    build_tree, buildable, entry_order, has_extension, is_buildable, rebuilt, rebuilt_in, rebuilt_leaf, tree_of,
    underscore,
};
use crate::use_tree::{collect_leaves, flatten, leaves_view, tree_view, Leaf, LeafKind, LeafView, UseLeaf, UseTree};

verus! {

/// A message for the user about something the rewrite could not decide.
#[derive(Debug, Clone, PartialEq, Eq)]
pub struct Warning {
    pub message: String,
}

impl View for Warning {
    type V = Seq<char>;

    open spec fn view(&self) -> Seq<char> {
        self.message@
    }
}

/// The messages of a sequence of warnings.
pub open spec fn warnings_view(v: Seq<Warning>) -> Seq<Seq<char>> {
    v.map_values(|w: Warning| w@)
}

/// The entry moves with the request: it is not a glob and its path starts
/// with `from`.
pub open spec fn leaf_moves(from: Seq<Seq<char>>, l: LeafView) -> bool {
    !(l.kind is Glob) && from.is_prefix_of(l.segs)
}

/// The entry after the request: `from` at the start of its path replaced
/// by `to`, its alias kept.
pub open spec fn rewrite_leaf(from: Seq<Seq<char>>, to: Seq<Seq<char>>, l: LeafView) -> LeafView {
    if leaf_moves(from, l) {
        LeafView { segs: to + l.segs.skip(from.len() as int), kind: l.kind }
    } else {
        l
    }
}

/// All entries after the request.
pub open spec fn rewrite_leaves(from: Seq<Seq<char>>, to: Seq<Seq<char>>, ls: Seq<LeafView>) -> Seq<
    LeafView,
> {
    ls.map_values(|l: LeafView| rewrite_leaf(from, to, l))
}

/// Some entry moves with the request.
pub open spec fn any_moves(from: Seq<Seq<char>>, ls: Seq<LeafView>) -> bool {
    exists|i: int| 0 <= i < ls.len() && #[trigger] leaf_moves(from, ls[i])
}

/// The request renames the item and the declaration imports it under its
/// own name, so that the short name is bound in the file.
pub open spec fn binds_short_name(r: Rename, ls: Seq<LeafView>) -> bool {
    r.spec_name_changed() && exists|i: int|
        0 <= i < ls.len() && (#[trigger] ls[i]).kind is Name && ls[i].segs == r.from@
}

/// The declaration imports every item of the module of `from` by a glob.
pub open spec fn glob_of_parent(from: Seq<Seq<char>>, ls: Seq<LeafView>) -> bool {
    from.len() > 1 && exists|i: int|
        0 <= i < ls.len() && (#[trigger] ls[i]).kind is Glob && ls[i].segs == from.drop_last()
}

/// The warning given for a glob import of the module `parent`.
pub open spec fn glob_message(parent: Seq<Seq<char>>) -> Seq<char> {
    "glob use (use "@ + join_path(parent)
        + "::*) found — short name bindings cannot be tracked, manual check required"@
}

/// What a path becomes: `from` at its start replaced by `to`; or, once the
/// short name is bound by a rename, a path starting with the old name gets
/// the new name in its place; `None` when the path stays.
pub open spec fn path_rewrite(r: Rename, short_name_bound: bool, segs: Seq<Seq<char>>) -> Option<
    Seq<Seq<char>>,
> {
    if r.from@.is_prefix_of(segs) {
        Some(r.to@ + segs.skip(r.from@.len() as int))
    } else if segs.len() > 0 && short_name_bound && r.spec_name_changed() && segs[0] == r.from@.last() {
        Some(seq![r.to@.last()] + segs.skip(1))
    } else {
        None
    }
}

/// The path takes the short-name branch, where the new name is read.
pub open spec fn path_uses_new_name(r: Rename, short_name_bound: bool, segs: Seq<Seq<char>>) -> bool {
    !r.from@.is_prefix_of(segs) && segs.len() > 0 && short_name_bound && r.spec_name_changed()
        && segs[0] == r.from@.last()
}

/// The state of the rewrite of one file.
pub struct Rewriter<'a> {
    pub rename: &'a Rename,
    pub short_name_bound: bool,
    pub glob_warning: bool,
    pub warnings: Vec<Warning>,
    pub changed: bool,
}

impl<'a> Rewriter<'a> {
    /// A rewriter that has seen nothing yet.
    pub fn new(rename: &'a Rename) -> (res: Self)
        ensures
            res.rename == rename,
            !res.short_name_bound,
            !res.glob_warning,
            res.warnings@.len() == 0,
            !res.changed,
    {
        Rewriter {
            rename,
            short_name_bound: false,
            glob_warning: false,
            warnings: Vec::new(),
            changed: false,
        }
    }

    /// The entries of `tree` after the request.
    fn rewritten_leaves(&self, leaves: &Vec<UseLeaf>) -> (res: Vec<UseLeaf>)
        ensures
            leaves_view(res@) == rewrite_leaves(self.rename.from@, self.rename.to@, leaves_view(leaves@)),
    {
        let from = &self.rename.from.0;
        let to = &self.rename.to.0;
        let ghost ls = leaves_view(leaves@);
        let mut out: Vec<UseLeaf> = Vec::new();
        for i in 0..leaves.len()
            invariant
                ls == leaves_view(leaves@),
                from == self.rename.from.0,
                to == self.rename.to.0,
                leaves_view(out@) == rewrite_leaves(self.rename.from@, self.rename.to@, ls.take(i as int)),
        {
            let leaf = &leaves[i];
            assert(ls[i as int] == leaf@);
            let moves = match leaf.leaf {
                Leaf::Glob => false,
                _ => strings_prefix(from, &leaf.segs),
            };
            let new_leaf = if moves {
                let mut segs = clone_strings(to);
                let ghost start = segs@;
                for k in from.len()..leaf.segs.len()
                    invariant
                        from.len() <= leaf.segs.len(),
                        segs@ == to@ + leaf.segs@.subrange(from.len() as int, k as int),
                {
                    segs.push(leaf.segs[k].clone());
                    assert(segs@ == to@ + leaf.segs@.subrange(from.len() as int, k + 1));
                }
                let kind = match &leaf.leaf {
                    Leaf::Name => Leaf::Name,
                    Leaf::Alias(a) => Leaf::Alias(a.clone()),
                    Leaf::Glob => Leaf::Glob,
                };
                let nl = UseLeaf { segs, leaf: kind };
                assert(strings_view(segs@) =~= self.rename.to@ + leaf@.segs.skip(self.rename.from@.len() as int));
                nl
            } else {
                crate::use_tree::clone_leaf(leaf)
            };
            assert(new_leaf@ == rewrite_leaf(self.rename.from@, self.rename.to@, ls[i as int]));
            let ghost before = out@;
            out.push(new_leaf);
            assert(ls.take(i + 1) =~= ls.take(i as int).push(ls[i as int]));
            assert(leaves_view(out@) =~= leaves_view(before).push(new_leaf@));
            assert(rewrite_leaves(self.rename.from@, self.rename.to@, ls.take(i + 1)) =~= rewrite_leaves(
                self.rename.from@,
                self.rename.to@,
                ls.take(i as int),
            ).push(rewrite_leaf(self.rename.from@, self.rename.to@, ls[i as int])));
        }
        assert(ls.take(leaves.len() as int) =~= ls);
        out
    }

    /// Whether the rewrite of `tree` comes to an end: when some entry
    /// moves, the tree is rebuilt, and the entries after the request must
    /// be [`buildable`].
    pub fn use_tree_rewritable(&self, tree: &UseTree) -> (res: bool)
        ensures
            res == (!any_moves(self.rename.from@, flatten(*tree, Seq::empty())) || buildable(
                rewrite_leaves(self.rename.from@, self.rename.to@, flatten(*tree, Seq::empty())),
            )),
    {
        let mut prefix: Vec<String> = Vec::new();
        let mut leaves: Vec<UseLeaf> = Vec::new();
        collect_leaves(tree, &mut prefix, &mut leaves);
        assert(strings_view(Seq::<String>::empty()) =~= Seq::<Seq<char>>::empty());
        assert(leaves_view(leaves@) =~= flatten(*tree, Seq::empty()));
        let moves = self.count_moves(&leaves) > 0;
        if !moves {
            return true;
        }
        let new_leaves = self.rewritten_leaves(&leaves);
        is_buildable(&new_leaves)
    }

    /// The number of entries that move with the request.
    fn count_moves(&self, leaves: &Vec<UseLeaf>) -> (res: usize)
        ensures
            (res > 0) == any_moves(self.rename.from@, leaves_view(leaves@)),
    {
        let ghost ls = leaves_view(leaves@);
        let from = &self.rename.from.0;
        let mut count: usize = 0;
        for i in 0..leaves.len()
            invariant
                ls == leaves_view(leaves@),
                from == self.rename.from.0,
                count <= i,
                (count > 0) == exists|k: int| 0 <= k < i && #[trigger] leaf_moves(self.rename.from@, ls[k]),
        {
            assert(ls[i as int] == leaves@[i as int]@);
            let moves = match leaves[i].leaf {
                Leaf::Glob => false,
                _ => strings_prefix(from, &leaves[i].segs),
            };
            if moves {
                assert(leaf_moves(self.rename.from@, ls[i as int]));
                count += 1;
            }
        }
        count
    }

    /// Rewrites a `use` tree: every entry whose path starts with `from`
    /// (a glob excepted) gets `to` in place of that start, and then the
    /// tree is rebuilt from the entries. A rename bound by the declaration
    /// under its own name marks the short name as bound; a glob import of
    /// the module of `from` gives one warning per file.
    pub fn rewrite_use_tree(&mut self, tree: &mut UseTree)
        requires
            any_moves(old(self).rename.from@, flatten(*old(tree), Seq::empty())) ==> buildable(
                rewrite_leaves(
                    old(self).rename.from@,
                    old(self).rename.to@,
                    flatten(*old(tree), Seq::empty()),
                ),
            ),
        ensures
            final(self).rename == old(self).rename,
            old(self).changed ==> final(self).changed,
            old(self).short_name_bound ==> final(self).short_name_bound,
            old(self).glob_warning ==> final(self).glob_warning,
            warnings_view(old(self).warnings@).is_prefix_of(warnings_view(final(self).warnings@)),
            final(self).warnings@.len() <= old(self).warnings@.len() + 1,
            final(self).warnings@.len() > old(self).warnings@.len() ==> !old(self).glob_warning
                && final(self).glob_warning,
            old(self).warnings@.len() == (if old(self).glob_warning { 1int } else { 0int })
                ==> final(self).warnings@.len() == (if final(self).glob_warning { 1int } else { 0int }),
            final(self).changed == (old(self).changed || any_moves(
                old(self).rename.from@,
                flatten(*old(tree), Seq::empty()),
            )),
            final(self).short_name_bound == (old(self).short_name_bound || binds_short_name(
                *old(self).rename,
                flatten(*old(tree), Seq::empty()),
            )),
            final(self).glob_warning == (old(self).glob_warning || glob_of_parent(
                old(self).rename.from@,
                flatten(*old(tree), Seq::empty()),
            )),
            warnings_view(final(self).warnings@) == if !old(self).glob_warning && glob_of_parent(
                old(self).rename.from@,
                flatten(*old(tree), Seq::empty()),
            ) {
                warnings_view(old(self).warnings@).push(glob_message(old(self).rename.from@.drop_last()))
            } else {
                warnings_view(old(self).warnings@)
            },
            !any_moves(old(self).rename.from@, flatten(*old(tree), Seq::empty())) ==> *final(tree)
                == *old(tree),
            any_moves(old(self).rename.from@, flatten(*old(tree), Seq::empty())) ==> flatten(
                *final(tree),
                Seq::empty(),
            ) == rebuilt_in(
                rewrite_leaves(
                    old(self).rename.from@,
                    old(self).rename.to@,
                    flatten(*old(tree), Seq::empty()),
                ),
                entry_order(
                    rewrite_leaves(
                        old(self).rename.from@,
                        old(self).rename.to@,
                        flatten(*old(tree), Seq::empty()),
                    ),
                    0,
                ),
            ),
            any_moves(old(self).rename.from@, flatten(*old(tree), Seq::empty())) ==> flatten(
                *final(tree),
                Seq::empty(),
            ).to_multiset() == rebuilt(
                rewrite_leaves(
                    old(self).rename.from@,
                    old(self).rename.to@,
                    flatten(*old(tree), Seq::empty()),
                ),
            ).to_multiset(),
            any_moves(old(self).rename.from@, flatten(*old(tree), Seq::empty())) ==> tree_view(*final(tree))
                == tree_of(
                rewrite_leaves(
                    old(self).rename.from@,
                    old(self).rename.to@,
                    flatten(*old(tree), Seq::empty()),
                ),
                0,
            ),
    {
        let mut prefix: Vec<String> = Vec::new();
        let mut leaves: Vec<UseLeaf> = Vec::new();
        collect_leaves(tree, &mut prefix, &mut leaves);
        let ghost ls = leaves_view(leaves@);
        assert(strings_view(Seq::<String>::empty()) =~= Seq::<Seq<char>>::empty());
        assert(ls =~= flatten(*tree, Seq::empty()));
        let ghost from_v = self.rename.from@;
        let parent = self.rename.from.parent();
        let name_changed = self.rename.name_changed();
        let mut any_changed = false;
        for i in 0..leaves.len()
            invariant
                ls == leaves_view(leaves@),
                ls == flatten(*old(tree), Seq::empty()),
                from_v == old(self).rename.from@,
                self.rename == old(self).rename,
                self.changed == old(self).changed,
                name_changed == self.rename.spec_name_changed(),
                from_v.len() <= 1 ==> parent is None,
                from_v.len() > 1 ==> (parent matches Some(p) && p@ == from_v.drop_last()),
                any_changed == exists|k: int| 0 <= k < i && #[trigger] leaf_moves(from_v, ls[k]),
                self.short_name_bound == (old(self).short_name_bound || (name_changed && exists|k: int|
                    0 <= k < i && (#[trigger] ls[k]).kind is Name && ls[k].segs == from_v)),
                self.glob_warning == (old(self).glob_warning || (from_v.len() > 1 && exists|k: int|
                    0 <= k < i && (#[trigger] ls[k]).kind is Glob && ls[k].segs == from_v.drop_last())),
                warnings_view(self.warnings@) == if !old(self).glob_warning && (from_v.len() > 1
                    && exists|k: int|
                    0 <= k < i && (#[trigger] ls[k]).kind is Glob && ls[k].segs == from_v.drop_last()) {
                    warnings_view(old(self).warnings@).push(glob_message(from_v.drop_last()))
                } else {
                    warnings_view(old(self).warnings@)
                },
        {
            let leaf = &leaves[i];
            assert(ls[i as int] == leaf@);
            match &leaf.leaf {
                Leaf::Glob => {
                    if let Some(p) = &parent {
                        if strings_eq(&leaf.segs, &p.0) {
                            if !self.glob_warning {
                                self.glob_warning = true;
                                let mut message = String::from_str("glob use (use ");
                                let joined = join_strings(&leaf.segs);
                                message.append(joined.as_str());
                                message.append(
                                    "::*) found — short name bindings cannot be tracked, manual check required",
                                );
                                let ghost before = self.warnings@;
                                self.warnings.push(Warning { message });
                                assert(warnings_view(self.warnings@) =~= warnings_view(before).push(
                                    message@,
                                ));
                            }
                        }
                    }
                },
                Leaf::Name => {
                    if strings_prefix(&self.rename.from.0, &leaf.segs) {
                        assert(leaf_moves(from_v, ls[i as int]));
                        any_changed = true;
                        if strings_eq(&leaf.segs, &self.rename.from.0) {
                            if name_changed {
                                self.short_name_bound = true;
                            }
                        }
                    }
                },
                Leaf::Alias(_) => {
                    if strings_prefix(&self.rename.from.0, &leaf.segs) {
                        assert(leaf_moves(from_v, ls[i as int]));
                        any_changed = true;
                    }
                },
            }
            assert(leaf_moves(from_v, ls[i as int]) ==> any_changed);
        }
        assert(ls.take(leaves.len() as int) =~= ls);
        proof {
            let before = warnings_view(old(self).warnings@);
            let after = warnings_view(self.warnings@);
            assert(after.len() == self.warnings@.len());
            assert(before.len() == old(self).warnings@.len());
            assert(before.is_prefix_of(after)) by {
                if after.len() > before.len() {
                    assert(after.subrange(0, before.len() as int) =~= before);
                } else {
                    assert(after.subrange(0, before.len() as int) =~= before);
                }
            }
        }
        if any_changed {
            let new_leaves = self.rewritten_leaves(&leaves);
            assert(leaves_view(new_leaves@).len() == ls.len());
            self.changed = true;
            *tree = build_tree(new_leaves);
        }
    }

    /// Whether `segs` is not below `from` but starts with the old name,
    /// while the short name is bound by a rename.
    fn short_name_matches(&self, segs: &Vec<String>) -> (res: bool)
        requires
            !self.rename.from@.is_prefix_of(strings_view(segs@)),
        ensures
            res == path_uses_new_name(*self.rename, self.short_name_bound, strings_view(segs@)),
    {
        let from = &self.rename.from.0;
        if segs.len() > 0 && self.short_name_bound && self.rename.name_changed() {
            if from.len() == 0 {
                assert(strings_view(from@) =~= strings_view(segs@).subrange(0, 0));
                return false;
            }
            segs[0] == from[from.len() - 1]
        } else {
            false
        }
    }

    /// Decides what a path in the code becomes: `from` at its start is
    /// replaced by `to`; once a rename has bound the short name, a path
    /// that starts with the old name gets the new name. A rewritten path
    /// marks the file as changed.
    pub fn rewrite_path(&mut self, segs: &Vec<String>) -> (res: Option<Vec<String>>)
        requires
            path_uses_new_name(*old(self).rename, old(self).short_name_bound, strings_view(segs@))
                ==> old(self).rename.to@.len() > 0,
        ensures
            final(self).rename == old(self).rename,
            final(self).short_name_bound == old(self).short_name_bound,
            final(self).glob_warning == old(self).glob_warning,
            final(self).warnings == old(self).warnings,
            final(self).changed == (old(self).changed || res is Some),
            res is Some == path_rewrite(*old(self).rename, old(self).short_name_bound, strings_view(segs@)) is Some,
            res matches Some(v) ==> Some(strings_view(v@)) == path_rewrite(
                *old(self).rename,
                old(self).short_name_bound,
                strings_view(segs@),
            ),
    {
        let from = &self.rename.from.0;
        let ghost sv = strings_view(segs@);
        let rewritten = if strings_prefix(from, segs) {
            let mut new_segs = clone_strings(&self.rename.to.0);
            for k in from.len()..segs.len()
                invariant
                    from.len() <= segs.len(),
                    new_segs@ == self.rename.to.0@ + segs@.subrange(from.len() as int, k as int),
            {
                new_segs.push(segs[k].clone());
                assert(new_segs@ == self.rename.to.0@ + segs@.subrange(from.len() as int, k + 1));
            }
            assert(strings_view(new_segs@) =~= self.rename.to@ + sv.skip(self.rename.from@.len() as int));
            Some(new_segs)
        } else if self.short_name_matches(segs) {
            let to = &self.rename.to.0;
            let mut new_segs: Vec<String> = Vec::new();
            new_segs.push(to[to.len() - 1].clone());
            for k in 1..segs.len()
                invariant
                    new_segs@.len() == k,
                    new_segs@[0]@ == self.rename.to@.last(),
                    forall|m: int| 1 <= m < k ==> #[trigger] new_segs@[m] == segs@[m],
            {
                new_segs.push(segs[k].clone());
            }
            assert(strings_view(new_segs@) =~= seq![self.rename.to@.last()] + sv.skip(1));
            Some(new_segs)
        } else {
            None
        };
        if rewritten.is_some() {
            self.changed = true;
        }
        rewritten
    }
}


/// The tree of a `use` declaration after the request: rebuilt from the
/// rewritten entries when some entry moves, else the same tree.
pub open spec fn use_tree_after(r: Rename, before: UseTree, after: UseTree) -> bool {
    if any_moves(r.from@, flatten(before, Seq::empty())) {
        tree_view(after) == tree_of(rewrite_leaves(r.from@, r.to@, flatten(before, Seq::empty())), 0)
    } else {
        after == before
    }
}

/// The rewrite of `t` comes to an end.
pub open spec fn use_tree_ok(r: Rename, t: UseTree) -> bool {
    any_moves(r.from@, flatten(t, Seq::empty())) ==> buildable(
        rewrite_leaves(r.from@, r.to@, flatten(t, Seq::empty())),
    )
}

/// One of the first `n` declarations imports the item under its own name
/// while the request renames it.
pub open spec fn binds_in(r: Rename, ts: Seq<UseTree>, n: int) -> bool {
    exists|k: int| 0 <= k < n && binds_short_name(r, flatten(#[trigger] ts[k], Seq::empty()))
}

/// One of the first `n` declarations imports the module of `from` by a glob.
pub open spec fn glob_in(from: Seq<Seq<char>>, ts: Seq<UseTree>, n: int) -> bool {
    exists|k: int| 0 <= k < n && glob_of_parent(from, flatten(#[trigger] ts[k], Seq::empty()))
}

/// One of the first `n` declarations has an entry that moves.
pub open spec fn moves_in(from: Seq<Seq<char>>, ts: Seq<UseTree>, n: int) -> bool {
    exists|k: int| 0 <= k < n && any_moves(from, flatten(#[trigger] ts[k], Seq::empty()))
}

impl<'a> Rewriter<'a> {
    /// Rewrites one file, given its top-level `use` trees and the paths of
    /// its code in the order of the walk: every `use` tree first, then every
    /// path. So a path is decided with the short name bound by any of the
    /// file's declarations, also one that comes after it.
    pub fn rewrite_parts(&mut self, uses: Vec<UseTree>, paths: &Vec<Vec<String>>) -> (res: (
        Vec<UseTree>,
        Vec<Option<Vec<String>>>,
    ))
        requires
            forall|i: int| 0 <= i < uses.len() ==> use_tree_ok(*old(self).rename, #[trigger] uses@[i]),
            forall|j: int|
                0 <= j < paths.len() && path_uses_new_name(
                    *old(self).rename,
                    old(self).short_name_bound || binds_in(*old(self).rename, uses@, uses.len() as int),
                    strings_view(#[trigger] paths@[j]@),
                ) ==> old(self).rename.to@.len() > 0,
        ensures
            final(self).rename == old(self).rename,
            final(self).short_name_bound == (old(self).short_name_bound || binds_in(
                *old(self).rename,
                uses@,
                uses.len() as int,
            )),
            final(self).glob_warning == (old(self).glob_warning || glob_in(
                old(self).rename.from@,
                uses@,
                uses.len() as int,
            )),
            warnings_view(final(self).warnings@) == if !old(self).glob_warning && glob_in(
                old(self).rename.from@,
                uses@,
                uses.len() as int,
            ) {
                warnings_view(old(self).warnings@).push(glob_message(old(self).rename.from@.drop_last()))
            } else {
                warnings_view(old(self).warnings@)
            },
            final(self).changed == (old(self).changed || moves_in(old(self).rename.from@, uses@, uses.len() as int)
                || exists|j: int| 0 <= j < paths.len() && #[trigger] res.1@[j] is Some),
            res.0.len() == uses.len(),
            forall|i: int| 0 <= i < uses.len() ==> use_tree_after(*old(self).rename, uses@[i], #[trigger] res.0@[i]),
            res.1.len() == paths.len(),
            forall|j: int|
                0 <= j < paths.len() ==> (#[trigger] res.1@[j] is Some) == path_rewrite(
                    *old(self).rename,
                    final(self).short_name_bound,
                    strings_view(paths@[j]@),
                ) is Some,
            forall|j: int|
                0 <= j < paths.len() ==> (#[trigger] res.1@[j] matches Some(v) ==> Some(strings_view(v@))
                    == path_rewrite(*old(self).rename, final(self).short_name_bound, strings_view(paths@[j]@))),
    {
        let ghost orig = uses@;
        let ghost r = *self.rename;
        let ghost from = self.rename.from@;
        let n = uses.len();
        let mut rest = uses;
        let mut trees: Vec<UseTree> = Vec::new();
        let mut i: usize = 0;
        assert(rest@.skip(0) =~= rest@);
        while i < n
            invariant
                n == orig.len(),
                i <= n,
                r == *self.rename,
                *self.rename == *old(self).rename,
                from == r.from@,
                rest@ == orig.skip(i as int),
                trees@.len() == i,
                forall|k: int| 0 <= k < orig.len() ==> use_tree_ok(r, #[trigger] orig[k]),
                forall|k: int| 0 <= k < i ==> use_tree_after(r, orig[k], #[trigger] trees@[k]),
                self.short_name_bound == (old(self).short_name_bound || binds_in(r, orig, i as int)),
                self.glob_warning == (old(self).glob_warning || glob_in(from, orig, i as int)),
                self.changed == (old(self).changed || moves_in(from, orig, i as int)),
                warnings_view(self.warnings@) == if !old(self).glob_warning && glob_in(from, orig, i as int) {
                    warnings_view(old(self).warnings@).push(glob_message(from.drop_last()))
                } else {
                    warnings_view(old(self).warnings@)
                },
            decreases n - i,
        {
            let mut t = rest.remove(0);
            let ghost t0 = t;
            assert(t0 == orig[i as int]);
            assert(rest@ =~= orig.skip(i + 1));
            assert(use_tree_ok(r, t0));
            self.rewrite_use_tree(&mut t);
            let ghost old_trees = trees@;
            trees.push(t);
            proof {
                assert(trees@[i as int] == t);
                assert forall|k: int| 0 <= k < i + 1 implies use_tree_after(r, orig[k], #[trigger] trees@[k]) by {
                    if k < i {
                        assert(trees@[k] == old_trees[k]);
                    }
                }
                assert(binds_in(r, orig, i + 1) == (binds_in(r, orig, i as int) || binds_short_name(
                    r,
                    flatten(orig[i as int], Seq::empty()),
                )));
                assert(glob_in(from, orig, i + 1) == (glob_in(from, orig, i as int) || glob_of_parent(
                    from,
                    flatten(orig[i as int], Seq::empty()),
                )));
                assert(moves_in(from, orig, i + 1) == (moves_in(from, orig, i as int) || any_moves(
                    from,
                    flatten(orig[i as int], Seq::empty()),
                )));
            }
            i += 1;
        }
        let ghost bound = self.short_name_bound;
        let ghost changed_by_uses = self.changed;
        let mut out: Vec<Option<Vec<String>>> = Vec::new();
        for j in 0..paths.len()
            invariant
                r == *self.rename,
                *self.rename == *old(self).rename,
                bound == self.short_name_bound,
                bound == (old(self).short_name_bound || binds_in(r, orig, orig.len() as int)),
                from == r.from@,
                self.glob_warning == (old(self).glob_warning || glob_in(from, orig, orig.len() as int)),
                warnings_view(self.warnings@) == if !old(self).glob_warning && glob_in(
                    from,
                    orig,
                    orig.len() as int,
                ) {
                    warnings_view(old(self).warnings@).push(glob_message(from.drop_last()))
                } else {
                    warnings_view(old(self).warnings@)
                },
                forall|jj: int|
                    0 <= jj < paths.len() && path_uses_new_name(r, bound, strings_view(#[trigger] paths@[jj]@))
                        ==> r.to@.len() > 0,
                out@.len() == j,
                self.changed == (changed_by_uses || exists|jj: int| 0 <= jj < j && #[trigger] out@[jj] is Some),
                forall|jj: int|
                    0 <= jj < j ==> (#[trigger] out@[jj] is Some) == path_rewrite(r, bound, strings_view(paths@[jj]@))
                        is Some,
                forall|jj: int|
                    0 <= jj < j ==> (#[trigger] out@[jj] matches Some(v) ==> Some(strings_view(v@)) == path_rewrite(
                        r,
                        bound,
                        strings_view(paths@[jj]@),
                    )),
        {
            let ghost before = out@;
            let rewritten = self.rewrite_path(&paths[j]);
            out.push(rewritten);
            proof {
                assert(out@[j as int] == rewritten);
                assert forall|jj: int| 0 <= jj < j implies #[trigger] out@[jj] == before[jj] by {}
                if rewritten is Some {
                    assert(out@[j as int] is Some);
                }
                if exists|jj: int| 0 <= jj < j && #[trigger] before[jj] is Some {
                    let jj = choose|jj: int| 0 <= jj < j && #[trigger] before[jj] is Some;
                    assert(out@[jj] is Some);
                }
            }
        }
        (trees, out)
    }
}

/// For each segment of a rewritten path of `new_len` segments, the position
/// of the old segment (of `old_len`) whose generic arguments it keeps: the
/// same position, where the old path has one.
pub fn kept_arguments(old_len: usize, new_len: usize) -> (res: Vec<Option<usize>>)
    ensures
        res@.len() == new_len,
        forall|i: int| 0 <= i < new_len ==> #[trigger] res@[i] == if i < old_len { Some(i as usize) } else { None::<usize> },
{
    let mut res: Vec<Option<usize>> = Vec::new();
    for i in 0..new_len
        invariant
            res@.len() == i,
            forall|k: int| 0 <= k < i ==> #[trigger] res@[k] == if k < old_len { Some(k as usize) } else { None::<usize> },
    {
        if i < old_len {
            res.push(Some(i));
        } else {
            res.push(None);
        }
    }
    res
}

/// Once a rename has bound the short name, a path that is not below `from`
/// and starts with the old name, one segment long or longer, gets the new
/// name in place of its first segment and keeps the rest.
pub proof fn lemma_short_name_rewritten(r: Rename, segs: Seq<Seq<char>>)
    requires
        r.spec_name_changed(),
        segs.len() > 0,
        segs[0] == r.from@.last(),
        !r.from@.is_prefix_of(segs),
    ensures
        path_rewrite(r, true, segs) is Some,
        path_rewrite(r, true, segs)->0.len() == segs.len(),
        path_rewrite(r, true, segs)->0[0] == r.to@.last(),
        forall|k: int| 1 <= k < segs.len() ==> #[trigger] path_rewrite(r, true, segs)->0[k] == segs[k],
        segs.len() == 1 ==> path_rewrite(r, true, segs) == Some(seq![r.to@.last()]),
{
    let v = seq![r.to@.last()] + segs.skip(1);
    assert(path_rewrite(r, true, segs) == Some(v));
    if segs.len() == 1 {
        assert(v =~= seq![r.to@.last()]);
    }
}

/// A declaration binds the short name when the request renames the item
/// and any one of its entries, among any others, imports `from` under its
/// own name; and only then. Adding an entry never undoes the binding.
pub proof fn lemma_entry_binds(r: Rename, ls: Seq<LeafView>, i: int, x: LeafView)
    requires
        r.spec_name_changed(),
        0 <= i < ls.len(),
        ls[i].kind is Name,
        ls[i].segs == r.from@,
    ensures
        binds_short_name(r, ls),
        binds_short_name(r, ls.push(x)),
        binds_short_name(r, seq![x] + ls),
{
    assert(ls.push(x)[i] == ls[i]);
    assert((seq![x] + ls)[i + 1] == ls[i]);
}

/// Without a rename, or without a name entry equal to `from`, no
/// declaration binds the short name.
pub proof fn lemma_binds_only_by_entry(r: Rename, ls: Seq<LeafView>)
    requires
        binds_short_name(r, ls),
    ensures
        r.spec_name_changed(),
        exists|i: int| 0 <= i < ls.len() && (#[trigger] ls[i]).kind is Name && ls[i].segs == r.from@,
{
}

/// After the `use` trees of a file, the short name is bound as soon as any
/// one of them, not only the last, binds it, and stays bound for every
/// later count of trees.
pub proof fn lemma_any_declaration_binds(r: Rename, ts: Seq<UseTree>, k: int, n: int)
    requires
        0 <= k < n <= ts.len(),
        binds_short_name(r, flatten(ts[k], Seq::empty())),
    ensures
        binds_in(r, ts, n),
        binds_in(r, ts, ts.len() as int),
{
}

/// Counting more trees never unbinds the short name.
pub proof fn lemma_binds_in_grows(r: Rename, ts: Seq<UseTree>, n: int, m: int)
    requires
        n <= m,
        binds_in(r, ts, n),
    ensures
        binds_in(r, ts, m),
{
    let k = choose|k: int| 0 <= k < n && binds_short_name(r, flatten(#[trigger] ts[k], Seq::empty()));
    assert(0 <= k < m && binds_short_name(r, flatten(ts[k], Seq::empty())));
}

/// A request from `to` back to `from` undoes the request from `from` to
/// `to`, for entries none of which was already below `to`.
pub proof fn lemma_rewrite_undone(from: Seq<Seq<char>>, to: Seq<Seq<char>>, ls: Seq<LeafView>)
    requires
        forall|i: int| 0 <= i < ls.len() ==> !#[trigger] leaf_moves(to, ls[i]),
    ensures
        rewrite_leaves(to, from, rewrite_leaves(from, to, ls)) == ls,
{
    let once = rewrite_leaves(from, to, ls);
    let twice = rewrite_leaves(to, from, once);
    assert forall|i: int| 0 <= i < ls.len() implies #[trigger] twice[i] == ls[i] by {
        let l = ls[i];
        assert(!leaf_moves(to, l));
        if leaf_moves(from, l) {
            let m = once[i];
            assert(m.segs.subrange(0, to.len() as int) =~= to);
            assert(leaf_moves(to, m));
            assert(m.segs.skip(to.len() as int) =~= l.segs.skip(from.len() as int));
            assert(l.segs.subrange(0, from.len() as int) =~= from);
            assert(from + l.segs.skip(from.len() as int) =~= l.segs);
        }
    }
    assert(twice =~= ls);
}

/// After a request between two paths neither of which is a prefix of the
/// other, no entry but a glob is below `from` any more.
pub proof fn lemma_rewrite_clears_from(from: Seq<Seq<char>>, to: Seq<Seq<char>>, ls: Seq<LeafView>)
    requires
        !from.is_prefix_of(to),
        !to.is_prefix_of(from),
    ensures
        forall|i: int| 0 <= i < ls.len() ==> !#[trigger] leaf_moves(from, rewrite_leaves(from, to, ls)[i]),
{
    assert forall|i: int| 0 <= i < ls.len() implies !#[trigger] leaf_moves(from, rewrite_leaves(from, to, ls)[i]) by {
        let l = ls[i];
        let m = rewrite_leaves(from, to, ls)[i];
        if leaf_moves(from, l) && leaf_moves(from, m) {
            if from.len() <= to.len() {
                assert(from =~= to.subrange(0, from.len() as int)) by {
                    assert forall|k: int| 0 <= k < from.len() implies from[k] == to[k] by {
                        assert(from[k] == m.segs.subrange(0, from.len() as int)[k]);
                    }
                }
            } else {
                assert(to =~= from.subrange(0, to.len() as int)) by {
                    assert forall|k: int| 0 <= k < to.len() implies to[k] == from[k] by {
                        assert(from[k] == m.segs.subrange(0, from.len() as int)[k]);
                    }
                }
            }
        }
    }
}

/// After the rewrite of a `use` tree by a request between two paths
/// neither of which is a prefix of the other (and `from` not ending in the
/// name `_`), no entry of the tree but a glob is below `from`.
pub proof fn lemma_rewritten_tree_clear(
    from: Seq<Seq<char>>,
    to: Seq<Seq<char>>,
    ls: Seq<LeafView>,
    t: UseTree,
)
    requires
        !from.is_prefix_of(to),
        !to.is_prefix_of(from),
        from.len() > 0 ==> from.last() != underscore(),
        flatten(t, Seq::empty()).to_multiset() == rebuilt(rewrite_leaves(from, to, ls)).to_multiset(),
    ensures
        forall|i: int|
            0 <= i < flatten(t, Seq::empty()).len() ==> !#[trigger] leaf_moves(from, flatten(t, Seq::empty())[i]),
{
    broadcast use vstd::seq_lib::group_to_multiset_ensures;

    let es = flatten(t, Seq::empty());
    let ns = rewrite_leaves(from, to, ls);
    lemma_rewrite_clears_from(from, to, ls);
    assert forall|i: int| 0 <= i < es.len() implies !#[trigger] leaf_moves(from, es[i]) by {
        let e = es[i];
        assert(es.contains(e));
        assert(es.to_multiset().count(e) > 0);
        assert(rebuilt(ns).contains(e));
        let j = choose|j: int| 0 <= j < rebuilt(ns).len() && rebuilt(ns)[j] == e;
        let m = ns[j];
        assert(!leaf_moves(from, m));
        assert(e == rebuilt_leaf(ns, m));
        if leaf_moves(from, e) && e.segs != m.segs {
            assert(e.segs == m.segs.push(underscore()));
            if from.len() <= m.segs.len() {
                assert(from =~= m.segs.subrange(0, from.len() as int)) by {
                    assert forall|k: int| 0 <= k < from.len() implies from[k] == m.segs[k] by {
                        assert(from[k] == e.segs.subrange(0, from.len() as int)[k]);
                    }
                }
            } else {
                assert(from.last() == e.segs[from.len() - 1]);
            }
        }
    }
}

/// A move that keeps the name rewrites no path that is not below `from`,
/// and no declaration binds the short name for it.
pub proof fn lemma_move_keeps_short_names(r: Rename, bound: bool, segs: Seq<Seq<char>>, ls: Seq<LeafView>)
    requires
        r.kind == crate::rename::RenameKind::MoveOnly,
        !r.from@.is_prefix_of(segs),
    ensures
        path_rewrite(r, bound, segs) is None,
        !binds_short_name(r, ls),
{
}


/// Every entry of the declaration, after the request, is in the rewritten
/// tree: a moved entry under its new path, any other one as it was (when it
/// is a glob, or its path is non-empty and extended by no other entry).
pub proof fn lemma_entries_kept(
    from: Seq<Seq<char>>,
    to: Seq<Seq<char>>,
    ls: Seq<LeafView>,
    t: UseTree,
    i: int,
)
    requires
        0 <= i < ls.len(),
        flatten(t, Seq::empty()).to_multiset() == rebuilt(rewrite_leaves(from, to, ls)).to_multiset(),
        rewrite_leaf(from, to, ls[i]).kind is Glob || (rewrite_leaf(from, to, ls[i]).segs.len() > 0
            && !has_extension(rewrite_leaves(from, to, ls), rewrite_leaf(from, to, ls[i]))),
    ensures
        flatten(t, Seq::empty()).contains(rewrite_leaf(from, to, ls[i])),
{
    broadcast use vstd::seq_lib::group_to_multiset_ensures;

    let ns = rewrite_leaves(from, to, ls);
    let e = rewrite_leaf(from, to, ls[i]);
    assert(ns[i] == e);
    assert(rebuilt(ns)[i] == rebuilt_leaf(ns, e));
    assert(rebuilt_leaf(ns, e) == e);
    assert(rebuilt(ns).contains(e));
    assert(rebuilt(ns).to_multiset().count(e) > 0);
    assert(flatten(t, Seq::empty()).to_multiset().count(e) > 0);
}

} // verus!
