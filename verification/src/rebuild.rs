use vstd::prelude::*;
use vstd::multiset::Multiset;

use crate::path::strings_view;
use crate::use_tree::{
    clone_leaf, flatten, flatten_items, items_view, leaves_view, tree_view, Leaf, LeafKind, LeafView, TreeView, UseLeaf,
    UseTree,
};

verus! {

/// `a` is a prefix of `b` and shorter than `b`.
pub open spec fn proper_prefix(a: Seq<Seq<char>>, b: Seq<Seq<char>>) -> bool {
    a.len() < b.len() && a.is_prefix_of(b)
}

/// Some entry of `ls` has a path that properly extends the path of `l`.
pub open spec fn has_extension(ls: Seq<LeafView>, l: LeafView) -> bool {
    exists|m: int| 0 <= m < ls.len() && proper_prefix(l.segs, #[trigger] ls[m].segs)
}

/// The entries on which [`build_tree`] comes to an end: no two entries
/// have the same path; every segment is a non-empty string; and an entry
/// whose (non-empty) path is extended by another entry is preceded by an
/// entry that extends it. On the other entries the rebuilding, as the
/// algorithm is written, recurses without end.
pub open spec fn buildable(ls: Seq<LeafView>) -> bool {
    &&& distinct_paths(ls)
    &&& extensions_preceded(ls)
    &&& forall|i: int| 0 <= i < ls.len() ==> crate::path::segments_nonempty(#[trigger] ls[i].segs)
}

/// The entries on which [`build_group_at`] and [`build_tree_inner`] come
/// to an end below depth `d`: no two entries have the same path; an entry
/// whose path is longer than `d` and is extended by another entry is
/// preceded by an entry that extends it; and the segments from `d` on (the
/// ones written) are non-empty strings.
pub open spec fn buildable_from(ls: Seq<LeafView>, d: int) -> bool {
    &&& distinct_paths(ls)
    &&& forall|i: int, j: int|
        0 <= i < ls.len() && 0 <= j < ls.len() && ls[i].segs.len() > d && proper_prefix(
            #[trigger] ls[i].segs,
            #[trigger] ls[j].segs,
        ) ==> exists|k: int| 0 <= k < i && proper_prefix(ls[i].segs, #[trigger] ls[k].segs)
    &&& forall|i: int| 0 <= i < ls.len() ==> nonempty_from(#[trigger] ls[i].segs, d)
}

/// The segments from `d` on are non-empty strings.
pub open spec fn nonempty_from(segs: Seq<Seq<char>>, d: int) -> bool {
    forall|k: int| d <= k < segs.len() ==> #[trigger] segs[k].len() > 0
}

/// No two entries have the same path.
pub open spec fn distinct_paths(ls: Seq<LeafView>) -> bool {
    forall|i: int, j: int|
        #![trigger ls[i].segs, ls[j].segs]
        0 <= i < ls.len() && 0 <= j < ls.len() && i != j ==> ls[i].segs != ls[j].segs
}

/// An entry whose non-empty path is extended by another entry is preceded
/// by an entry that extends it.
pub open spec fn extensions_preceded(ls: Seq<LeafView>) -> bool {
    forall|i: int, j: int|
        0 <= i < ls.len() && 0 <= j < ls.len() && ls[i].segs.len() > 0 && proper_prefix(
            #[trigger] ls[i].segs,
            #[trigger] ls[j].segs,
        ) ==> exists|k: int| 0 <= k < i && proper_prefix(ls[i].segs, #[trigger] ls[k].segs)
}

/// The name `_` that stands where a rebuilt tree has no name to write.
pub open spec fn underscore() -> Seq<char> {
    seq!['_']
}

/// The entry that the rebuilt tree of `ls` holds for `l`: the same, except
/// that a name or alias entry whose path is empty or is extended by another
/// entry gets the name `_` appended (the tree has no other way to write it).
pub open spec fn rebuilt_leaf(ls: Seq<LeafView>, l: LeafView) -> LeafView {
    match l.kind {
        LeafKind::Glob => l,
        _ => if l.segs.len() == 0 || has_extension(ls, l) {
            LeafView { segs: l.segs.push(underscore()), kind: l.kind }
        } else {
            l
        },
    }
}

/// The entries that the rebuilt tree of `ls` holds, entry by entry.
pub open spec fn rebuilt(ls: Seq<LeafView>) -> Seq<LeafView> {
    ls.map_values(|l: LeafView| rebuilt_leaf(ls, l))
}

/// The entry that [`build_leaf_at_depth`] writes for `l` below depth `d`.
pub open spec fn leaf_at_depth(l: LeafView, d: int) -> LeafView {
    match l.kind {
        LeafKind::Glob => l,
        _ => if l.segs.len() == d {
            LeafView { segs: l.segs.push(underscore()), kind: l.kind }
        } else {
            l
        },
    }
}

/// The segment of `l` at depth `d`, or the empty string past its end.
pub open spec fn key_at(l: LeafView, d: int) -> Seq<char> {
    if d < l.segs.len() {
        l.segs[d]
    } else {
        Seq::empty()
    }
}

/// All entries have at least `d` segments and agree on the first `d`.
pub open spec fn agree_to(ls: Seq<LeafView>, d: int) -> bool {
    forall|i: int|
        0 <= i < ls.len() ==> #[trigger] ls[i].segs.len() >= d && ls[i].segs.take(d) == ls[0].segs.take(d)
}

/// Wraps `inner` in the path segments `segs[from..to]`.
pub fn wrap_path(segs: &Vec<String>, from: usize, to: usize, inner: UseTree) -> (res: UseTree)
    requires
        from <= to <= segs.len(),
    ensures
        forall|p: Seq<Seq<char>>|
            #[trigger] flatten(res, p) == flatten(inner, p + strings_view(segs@.subrange(from as int, to as int))),
        tree_view(res) == wrap_view(strings_view(segs@.subrange(from as int, to as int)), tree_view(inner)),
{
    let ghost inner_v = tree_view(inner);
    let mut tree = inner;
    let mut i = to;
    assert(strings_view(segs@.subrange(to as int, to as int)) =~= Seq::<Seq<char>>::empty());
    while i > from
        invariant
            from <= i <= to <= segs.len(),
            inner_v == tree_view(inner),
            tree_view(tree) == wrap_view(strings_view(segs@.subrange(i as int, to as int)), inner_v),
            forall|p: Seq<Seq<char>>|
                #[trigger] flatten(tree, p + strings_view(segs@.subrange(from as int, i as int))) == flatten(
                    inner,
                    p + strings_view(segs@.subrange(from as int, to as int)),
                ),
        decreases i - from,
    {
        let ghost old_tree = tree;
        tree = UseTree::Path(segs[i - 1].clone(), Box::new(tree));
        proof {
            let w = strings_view(segs@.subrange(i - 1, to as int));
            assert(w.skip(1) =~= strings_view(segs@.subrange(i as int, to as int)));
            assert(w[0] == segs@[i - 1]@);
            assert forall|p: Seq<Seq<char>>|
                #[trigger] flatten(tree, p + strings_view(segs@.subrange(from as int, i - 1))) == flatten(
                    inner,
                    p + strings_view(segs@.subrange(from as int, to as int)),
                ) by {
                let q = p + strings_view(segs@.subrange(from as int, i - 1));
                assert(q.push(segs@[i - 1]@) =~= p + strings_view(segs@.subrange(from as int, i as int)));
                assert(flatten(tree, q) == flatten(old_tree, q.push(segs@[i - 1]@)));
                assert(flatten(old_tree, p + strings_view(segs@.subrange(from as int, i as int))) == flatten(
                    inner,
                    p + strings_view(segs@.subrange(from as int, to as int)),
                ));
            }
        }
        i -= 1;
    }
    assert forall|p: Seq<Seq<char>>|
        #[trigger] flatten(tree, p) == flatten(inner, p + strings_view(segs@.subrange(from as int, to as int))) by {
        assert(p + strings_view(segs@.subrange(from as int, from as int)) =~= p);
    }
    tree
}

/// The tree that imports the single entry `leaf` below its first `depth`
/// segments.
pub fn build_leaf_at_depth(leaf: &UseLeaf, depth: usize) -> (res: UseTree)
    requires
        depth <= leaf.segs.len(),
    ensures
        flatten(res, leaf@.segs.take(depth as int)) == seq![leaf_at_depth(leaf@, depth as int)],
        tree_view(res) == leaf_tree(leaf@, depth as int),
{
    let n = leaf.segs.len();
    let ghost p = leaf@.segs.take(depth as int);
    let ghost goal = seq![leaf_at_depth(leaf@, depth as int)];
    proof {
        assert(p + strings_view(leaf.segs@.subrange(depth as int, n as int)) =~= leaf@.segs);
        assert(strings_view(leaf.segs@.subrange(depth as int, n as int)) =~= leaf@.segs.subrange(
            depth as int,
            n as int,
        ));
        if depth < n {
            assert(strings_view(leaf.segs@.subrange(depth as int, n - 1)) =~= leaf@.segs.subrange(
                depth as int,
                n - 1,
            ));
        }
    }
    match &leaf.leaf {
        Leaf::Glob => {
            let res = wrap_path(&leaf.segs, depth, n, UseTree::Glob);
            assert(flatten(res, p) == flatten(UseTree::Glob, p + strings_view(leaf.segs@.subrange(depth as int, n as int))));
            assert(flatten(res, p) =~= goal);
            res
        },
        Leaf::Name => {
            if depth == n {
                let u = String::from_str("_");
                proof {
                    reveal_strlit("_");
                    assert(u@ =~= underscore());
                    assert(p =~= leaf@.segs);
                }
                let res = UseTree::Name(u);
                assert(leaf@.segs.len() == depth);
                assert(leaf_at_depth(leaf@, depth as int).segs == p.push(u@));
                assert(flatten(res, p) =~= goal);
                res
            } else {
                let last = UseTree::Name(leaf.segs[n - 1].clone());
                let res = wrap_path(&leaf.segs, depth, n - 1, last);
                proof {
                    let q = p + strings_view(leaf.segs@.subrange(depth as int, n - 1));
                    assert(q.push(leaf.segs@[n - 1]@) =~= leaf@.segs);
                    assert(flatten(res, p) == flatten(last, q));
                    assert(flatten(res, p) =~= goal);
                }
                res
            }
        },
        Leaf::Alias(alias) => {
            if depth == n {
                let u = String::from_str("_");
                proof {
                    reveal_strlit("_");
                    assert(u@ =~= underscore());
                    assert(p =~= leaf@.segs);
                }
                let res = UseTree::Rename(u, alias.clone());
                assert(leaf@.segs.len() == depth);
                assert(leaf_at_depth(leaf@, depth as int).segs == p.push(u@));
                assert(flatten(res, p) =~= goal);
                res
            } else {
                let last = UseTree::Rename(leaf.segs[n - 1].clone(), alias.clone());
                let res = wrap_path(&leaf.segs, depth, n - 1, last);
                proof {
                    let q = p + strings_view(leaf.segs@.subrange(depth as int, n - 1));
                    assert(q.push(leaf.segs@[n - 1]@) =~= leaf@.segs);
                    assert(flatten(res, p) == flatten(last, q));
                    assert(flatten(res, p) =~= goal);
                }
                res
            }
        },
    }
}


/// The entries of `s`, each as the rebuilt tree of `ls` holds it.
pub open spec fn rebuilt_in(ls: Seq<LeafView>, s: Seq<LeafView>) -> Seq<LeafView> {
    s.map_values(|l: LeafView| rebuilt_leaf(ls, l))
}

/// The multiset of the rebuilt entries of all groups `gs`.
pub open spec fn groups_multiset(ls: Seq<LeafView>, gs: Seq<Seq<LeafView>>) -> Multiset<LeafView>
    decreases gs.len(),
{
    if gs.len() == 0 {
        Multiset::empty()
    } else {
        groups_multiset(ls, gs.drop_last()).add(rebuilt_in(ls, gs.last()).to_multiset())
    }
}

/// The views of a sequence of leaf vectors.
pub open spec fn groups_view(v: Seq<Vec<UseLeaf>>) -> Seq<Seq<LeafView>> {
    v.map_values(|g: Vec<UseLeaf>| leaves_view(g@))
}

/// The state of the grouping of `ls` by segment `d`, after the first `i`
/// entries: `keys[g]` is the key of group `g`, `idx[g]` the increasing
/// positions of its entries, `gv[g]` the entries themselves.
pub open spec fn grouping(
    ls: Seq<LeafView>,
    d: int,
    i: int,
    keys: Seq<Seq<char>>,
    idx: Seq<Seq<int>>,
    gv: Seq<Seq<LeafView>>,
) -> bool {
    &&& 0 <= i <= ls.len()
    &&& keys.len() == idx.len() == gv.len()
    &&& forall|g: int| 0 <= g < idx.len() ==> #[trigger] idx[g].len() == gv[g].len() && idx[g].len() > 0
    &&& forall|g: int, m: int|
        0 <= g < idx.len() && 0 <= m < idx[g].len() ==> 0 <= #[trigger] idx[g][m] < i && gv[g][m]
            == ls[idx[g][m]] && key_at(ls[idx[g][m]], d) == keys[g]
    &&& forall|g: int, m1: int, m2: int|
        0 <= g < idx.len() && 0 <= m1 < m2 < idx[g].len() ==> #[trigger] idx[g][m1]
            < #[trigger] idx[g][m2]
    &&& forall|k: int| 0 <= k < i ==> exists|g: int| 0 <= g < keys.len() && key_at(#[trigger] ls[k], d) == keys[g]
    &&& forall|g: int, k: int|
        0 <= g < keys.len() && 0 <= k < i && key_at(#[trigger] ls[k], d) == #[trigger] keys[g]
            ==> exists|m: int| 0 <= m < idx[g].len() && #[trigger] idx[g][m] == k
    &&& forall|g1: int, g2: int|
        0 <= g1 < keys.len() && 0 <= g2 < keys.len() && g1 != g2 ==> #[trigger] keys[g1]
            != #[trigger] keys[g2]
}

/// Adding one entry to the group at `g` adds its rebuilt entry to the
/// multiset of all groups.
proof fn lemma_groups_multiset_push_at(ls: Seq<LeafView>, gs: Seq<Seq<LeafView>>, g: int, x: LeafView)
    requires
        0 <= g < gs.len(),
    ensures
        groups_multiset(ls, gs.update(g, gs[g].push(x))) == groups_multiset(ls, gs).insert(
            rebuilt_leaf(ls, x),
        ),
    decreases gs.len(),
{
    broadcast use vstd::multiset::group_multiset_axioms;
    broadcast use vstd::seq_lib::group_to_multiset_ensures;

    let gs2 = gs.update(g, gs[g].push(x));
    if g == gs.len() - 1 {
        assert(gs2.drop_last() =~= gs.drop_last());
        assert(rebuilt_in(ls, gs[g].push(x)) =~= rebuilt_in(ls, gs[g]).push(rebuilt_leaf(ls, x)));
        assert(groups_multiset(ls, gs2) =~= groups_multiset(ls, gs).insert(rebuilt_leaf(ls, x)));
    } else {
        lemma_groups_multiset_push_at(ls, gs.drop_last(), g, x);
        assert(gs2.drop_last() =~= gs.drop_last().update(g, gs[g].push(x)));
        assert(groups_multiset(ls, gs2) =~= groups_multiset(ls, gs).insert(rebuilt_leaf(ls, x)));
    }
}

/// The multiset of a one-entry sequence.
proof fn lemma_single_multiset(x: LeafView)
    ensures
        seq![x].to_multiset() == Multiset::<LeafView>::empty().insert(x),
{
    broadcast use vstd::multiset::group_multiset_axioms;
    broadcast use vstd::seq_lib::group_to_multiset_ensures;

    let e = Seq::<LeafView>::empty();
    assert forall|y: LeafView| #[trigger] e.to_multiset().count(y) == 0 by {
        if e.to_multiset().count(y) > 0 {
            assert(e.contains(y));
        }
    }
    assert(e.to_multiset() =~= Multiset::<LeafView>::empty());
    assert(seq![x] =~= e.push(x));
}

/// A strictly increasing sequence of positions below `n` has every entry
/// between its position and `n - len + position`.
proof fn lemma_increasing_lower(s: Seq<int>, m: int)
    requires
        0 <= m < s.len(),
        forall|a: int| 0 <= a < s.len() ==> 0 <= #[trigger] s[a],
        forall|a: int, b: int| 0 <= a < b < s.len() ==> #[trigger] s[a] < #[trigger] s[b],
    ensures
        s[m] >= m,
    decreases m,
{
    if m > 0 {
        lemma_increasing_lower(s, m - 1);
    }
}

proof fn lemma_increasing_upper(s: Seq<int>, n: int, m: int)
    requires
        0 <= m < s.len(),
        forall|a: int| 0 <= a < s.len() ==> #[trigger] s[a] < n,
        forall|a: int, b: int| 0 <= a < b < s.len() ==> #[trigger] s[a] < #[trigger] s[b],
    ensures
        s[m] <= n - s.len() + m,
    decreases s.len() - m,
{
    if m < s.len() - 1 {
        lemma_increasing_upper(s, n, m + 1);
    }
}

/// A strictly increasing sequence of positions in `[0, n)` that misses one
/// of them is shorter than `n`.
proof fn lemma_increasing_short(s: Seq<int>, n: int, x: int)
    requires
        0 <= x < n,
        forall|a: int| 0 <= a < s.len() ==> 0 <= #[trigger] s[a] < n,
        forall|a: int, b: int| 0 <= a < b < s.len() ==> #[trigger] s[a] < #[trigger] s[b],
        forall|a: int| 0 <= a < s.len() ==> #[trigger] s[a] != x,
    ensures
        s.len() < n,
{
    if s.len() >= n {
        if s.len() > n {
            lemma_increasing_lower(s, n);
        } else {
            lemma_increasing_lower(s, x);
            lemma_increasing_upper(s, n, x);
            assert(s[x] == x);
        }
    }
}

/// Two or more entries that all have the same segment at `d` share it, and
/// it is not the last segment of the first entry.
proof fn lemma_same_key_deeper(ls: Seq<LeafView>, d: int)
    requires
        ls.len() >= 2,
        0 <= d,
        agree_to(ls, d),
        buildable_from(ls, d),
        forall|i: int| 0 <= i < ls.len() ==> #[trigger] key_at(ls[i], d) == key_at(ls[0], d),
    ensures
        goes_deeper(ls, d),
{
    assert(key_at(ls[1], d) == key_at(ls[0], d));
    assert(ls[1].segs.take(d) == ls[0].segs.take(d));
    if ls[0].segs.len() == d {
        if ls[1].segs.len() > d {
            assert(nonempty_from(ls[1].segs, d));
            assert(ls[1].segs[d].len() > 0);
        }
        assert(ls[0].segs =~= ls[0].segs.take(d));
        assert(ls[1].segs =~= ls[1].segs.take(d));
        assert(ls[0].segs == ls[1].segs);
    }
    assert(nonempty_from(ls[0].segs, d));
    assert(ls[0].segs[d].len() > 0);
    assert forall|j: int| #![trigger ls[j]] 0 <= j < ls.len() implies ls[j].segs.len() > d && ls[j].segs[d]
        == ls[0].segs[d] by {
        assert(key_at(ls[j], d) == key_at(ls[0], d));
    }
    assert(shares_first_at(ls, d));
    if ls[0].segs.len() == d + 1 {
        assert(ls[0].segs =~= ls[1].segs.subrange(0, ls[0].segs.len() as int)) by {
            assert forall|k: int| 0 <= k < ls[0].segs.len() implies ls[0].segs[k] == ls[1].segs[k] by {
                if k < d {
                    assert(ls[1].segs.take(d)[k] == ls[0].segs.take(d)[k]);
                }
            }
        }
        if ls[1].segs.len() == ls[0].segs.len() {
            assert(ls[1].segs =~= ls[0].segs);
        }
        assert(proper_prefix(ls[0].segs, ls[1].segs));
    }
}

/// Two or more entries below `d` do not all end at `d`.
proof fn lemma_group_depth(ls: Seq<LeafView>, d: int)
    requires
        ls.len() >= 2,
        0 <= d,
        agree_to(ls, d),
        buildable_from(ls, d),
    ensures
        d < max_len(ls),
{
    if exists|a: int, b: int|
        0 <= a < ls.len() && 0 <= b < ls.len() && key_at(#[trigger] ls[a], d) != key_at(#[trigger] ls[b], d) {
        let (a, b) = choose|a: int, b: int|
            0 <= a < ls.len() && 0 <= b < ls.len() && key_at(#[trigger] ls[a], d) != key_at(#[trigger] ls[b], d);
        let c = if key_at(ls[a], d).len() > 0 { a } else { b };
        assert(ls[c].segs.len() > d);
        lemma_max_len_ge(ls, c);
    } else {
        assert forall|i: int| 0 <= i < ls.len() implies #[trigger] key_at(ls[i], d) == key_at(ls[0], d) by {
            assert(key_at(ls[i], d) == key_at(ls[0], d));
        }
        lemma_same_key_deeper(ls, d);
        lemma_max_len_ge(ls, 0);
    }
}

/// What the builder needs of one group of a finished grouping.
proof fn lemma_group(
    ls: Seq<LeafView>,
    d: int,
    keys: Seq<Seq<char>>,
    idx: Seq<Seq<int>>,
    gv: Seq<Seq<LeafView>>,
    g: int,
)
    requires
        0 <= d,
        grouping(ls, d, ls.len() as int, keys, idx, gv),
        agree_to(ls, d),
        buildable_from(ls, d),
        ls.len() >= 2,
        grouped_in_order(ls, d, ls.len() as int, keys, gv),
        0 <= g < gv.len(),
    ensures
        gv[g].len() < ls.len() || gv[g] == ls,
        gv[g] == ls ==> goes_deeper(ls, d),
        gv[g].len() >= 1,
        agree_to(gv[g], d),
        gv[g][0].segs.take(d) == ls[0].segs.take(d),
        gv[g].len() == 1 ==> d <= gv[g][0].segs.len() && rebuilt_leaf(ls, gv[g][0]) == leaf_at_depth(
            gv[g][0],
            d,
        ),
        gv[g].len() >= 2 ==> buildable_from(gv[g], d) && rebuilt(gv[g]) == rebuilt_in(ls, gv[g]) && shares_first_at(
            gv[g],
            d,
        ),
        gv[g].len() >= 2 ==> forall|x: LeafView| #[trigger] gv[g].contains(x) ==> rebuilt_leaf(gv[g], x)
            == rebuilt_leaf(ls, x),
{
    if exists|a: int, b: int|
        0 <= a < ls.len() && 0 <= b < ls.len() && key_at(#[trigger] ls[a], d) != key_at(#[trigger] ls[b], d) {
        lemma_group_split(ls, d, keys, idx, gv, g);
    } else {
        assert forall|i: int| 0 <= i < ls.len() implies #[trigger] key_at(ls[i], d) == key_at(ls[0], d) by {
            assert(key_at(ls[i], d) == key_at(ls[0], d));
        }
        lemma_group_same(ls, d, keys, idx, gv, g);
    }
}

/// [`lemma_group`] where the entries differ at `d`.
proof fn lemma_group_split(
    ls: Seq<LeafView>,
    d: int,
    keys: Seq<Seq<char>>,
    idx: Seq<Seq<int>>,
    gv: Seq<Seq<LeafView>>,
    g: int,
)
    requires
        0 <= d,
        grouping(ls, d, ls.len() as int, keys, idx, gv),
        agree_to(ls, d),
        buildable_from(ls, d),
        ls.len() >= 2,
        exists|a: int, b: int|
            0 <= a < ls.len() && 0 <= b < ls.len() && key_at(#[trigger] ls[a], d) != key_at(#[trigger] ls[b], d),
        0 <= g < gv.len(),
    ensures
        gv[g].len() < ls.len(),
        gv[g].len() >= 1,
        agree_to(gv[g], d),
        gv[g][0].segs.take(d) == ls[0].segs.take(d),
        gv[g].len() == 1 ==> d <= gv[g][0].segs.len() && rebuilt_leaf(ls, gv[g][0]) == leaf_at_depth(
            gv[g][0],
            d,
        ),
        gv[g].len() >= 2 ==> buildable_from(gv[g], d) && rebuilt(gv[g]) == rebuilt_in(ls, gv[g]) && shares_first_at(
            gv[g],
            d,
        ),
        gv[g].len() >= 2 ==> forall|x: LeafView| #[trigger] gv[g].contains(x) ==> rebuilt_leaf(gv[g], x)
            == rebuilt_leaf(ls, x),
{
    let s = idx[g];
    let grp = gv[g];
    let (a, b) = choose|a: int, b: int|
        0 <= a < ls.len() && 0 <= b < ls.len() && key_at(#[trigger] ls[a], d) != key_at(
            #[trigger] ls[b],
            d,
        );
    let x = if key_at(ls[a], d) != keys[g] { a } else { b };
    assert forall|m: int| 0 <= m < s.len() implies #[trigger] s[m] != x by {
        assert(key_at(ls[s[m]], d) == keys[g]);
    }
    assert forall|m1: int, m2: int| 0 <= m1 < m2 < s.len() implies #[trigger] s[m1] < #[trigger] s[m2] by {
        assert(idx[g][m1] < idx[g][m2]);
    }
    assert forall|m: int| 0 <= m < s.len() implies 0 <= #[trigger] s[m] < ls.len() by {
        assert(0 <= idx[g][m] < ls.len());
    }
    lemma_increasing_short(s, ls.len() as int, x);
    assert(idx[g][0] < ls.len());
    assert(grp[0] == ls[s[0]]);
    assert forall|m: int| 0 <= m < grp.len() implies #[trigger] grp[m].segs.len() >= d && grp[m].segs.take(d)
        == grp[0].segs.take(d) by {
        assert(grp[m] == ls[s[m]]);
        assert(idx[g][m] < ls.len());
        assert(ls[s[m]].segs.len() >= d);
    }
    if grp.len() == 1 {
        let l = grp[0];
        let ai = s[0];
        assert(ls[ai] == l);
        assert(ls[ai].segs.len() >= d);
        if l.segs.len() == d {
            if d > 0 {
                let bi = if ai == a { b } else { a };
                assert(bi != ai);
                assert(ls[bi].segs.len() >= d);
                assert(ls[bi].segs.take(d) == ls[0].segs.take(d));
                if ls[bi].segs.len() == d {
                    assert(ls[bi].segs =~= ls[bi].segs.take(d));
                    assert(l.segs =~= l.segs.take(d));
                    assert(ls[bi].segs == ls[ai].segs);
                }
                assert(proper_prefix(l.segs, ls[bi].segs)) by {
                    assert(l.segs =~= l.segs.take(d));
                    assert(l.segs =~= ls[bi].segs.subrange(0, l.segs.len() as int));
                }
                assert(has_extension(ls, l));
            }
        } else {
            if has_extension(ls, l) {
                let m = choose|m: int| 0 <= m < ls.len() && proper_prefix(l.segs, #[trigger] ls[m].segs);
                assert(l.segs[d] == ls[m].segs.subrange(0, l.segs.len() as int)[d]);
                assert(key_at(ls[m], d) == keys[g]);
                let mm = choose|mm: int| 0 <= mm < idx[g].len() && #[trigger] idx[g][mm] == m;
                assert(mm == 0);
            }
        }
    } else {
        // the key of the group is a real segment: two entries of equal
        // length `d` would have the same path
        assert(keys[g].len() > 0) by {
            if keys[g].len() == 0 {
                let i0 = s[0];
                let i1 = s[1];
                assert(idx[g][0] < idx[g][1]);
                assert(key_at(ls[i0], d) == keys[g]);
                assert(key_at(ls[i1], d) == keys[g]);
                assert(ls[i0].segs.len() >= d);
                assert(ls[i1].segs.len() >= d);
                if ls[i0].segs.len() > d {
                    assert(nonempty_from(ls[i0].segs, d));
                    assert(ls[i0].segs[d].len() > 0);
                }
                if ls[i1].segs.len() > d {
                    assert(nonempty_from(ls[i1].segs, d));
                    assert(ls[i1].segs[d].len() > 0);
                }
                assert(ls[i0].segs =~= ls[i0].segs.take(d));
                assert(ls[i1].segs =~= ls[i1].segs.take(d));
            }
        }
        assert forall|m: int| 0 <= m < grp.len() implies #[trigger] grp[m].segs.len() > d && grp[m].segs[d]
            == keys[g] by {
            assert(grp[m] == ls[s[m]]);
            assert(key_at(ls[s[m]], d) == keys[g]);
        }
        // an entry of `ls` that extends an entry of the group is in the group
        assert forall|i: int, m: int|
            0 <= i < grp.len() && 0 <= m < ls.len() && proper_prefix(grp[i].segs, ls[m].segs) implies exists|mm: int|
            0 <= mm < s.len() && #[trigger] s[mm] == m by {
            assert(grp[i].segs.len() > d);
            assert(grp[i].segs[d] == ls[m].segs.subrange(0, grp[i].segs.len() as int)[d]);
            assert(key_at(ls[m], d) == keys[g]);
            let mm = choose|mm: int| 0 <= mm < idx[g].len() && #[trigger] idx[g][mm] == m;
            assert(s[mm] == m);
        }
        // no two entries of the group have the same path
        assert forall|i: int, j: int|
            0 <= i < grp.len() && 0 <= j < grp.len() && i != j implies #[trigger] grp[i].segs
            != #[trigger] grp[j].segs by {
            assert(grp[i] == ls[s[i]]);
            assert(grp[j] == ls[s[j]]);
            if i < j {
                assert(idx[g][i] < idx[g][j]);
            } else {
                assert(idx[g][j] < idx[g][i]);
            }
        }
        // an extended entry is preceded in the group by one of its extensions
        assert forall|i: int, j: int|
            0 <= i < grp.len() && 0 <= j < grp.len() && grp[i].segs.len() > d && proper_prefix(
                #[trigger] grp[i].segs,
                #[trigger] grp[j].segs,
            ) implies exists|k: int| 0 <= k < i && proper_prefix(grp[i].segs, #[trigger] grp[k].segs) by {
            assert(grp[i] == ls[s[i]]);
            assert(grp[j] == ls[s[j]]);
            assert(0 <= s[i] < ls.len());
            assert(0 <= s[j] < ls.len());
            let k = choose|k: int| 0 <= k < s[i] && proper_prefix(ls[s[i]].segs, #[trigger] ls[k].segs);
            let mm = choose|mm: int| 0 <= mm < s.len() && #[trigger] s[mm] == k;
            if mm >= i {
                if mm > i {
                    assert(idx[g][i] < idx[g][mm]);
                }
            }
            assert(grp[mm] == ls[s[mm]]);
            assert(proper_prefix(grp[i].segs, grp[mm].segs));
        }
        assert forall|i: int| 0 <= i < grp.len() implies nonempty_from(#[trigger] grp[i].segs, d) by {
            assert(grp[i] == ls[s[i]]);
            assert(0 <= s[i] < ls.len());
        }
        // the rebuilt entries do not depend on the entries outside the group
        assert forall|i: int| 0 <= i < grp.len() implies #[trigger] rebuilt_leaf(grp, grp[i]) == rebuilt_leaf(
            ls,
            grp[i],
        ) by {
            assert(grp[i] == ls[s[i]]);
            assert(0 <= s[i] < ls.len());
            if has_extension(ls, grp[i]) {
                let m = choose|m: int| 0 <= m < ls.len() && proper_prefix(grp[i].segs, #[trigger] ls[m].segs);
                let mm = choose|mm: int| 0 <= mm < s.len() && #[trigger] s[mm] == m;
                assert(grp[mm] == ls[s[mm]]);
                assert(has_extension(grp, grp[i]));
            }
            if has_extension(grp, grp[i]) {
                let m = choose|m: int| 0 <= m < grp.len() && proper_prefix(grp[i].segs, #[trigger] grp[m].segs);
                assert(grp[m] == ls[s[m]]);
                assert(0 <= s[m] < ls.len());
                assert(has_extension(ls, grp[i]));
            }
        }
        assert(rebuilt(grp) =~= rebuilt_in(ls, grp));
        assert(shares_first_at(grp, d)) by {
            assert forall|j: int| #![trigger grp[j]] 0 <= j < grp.len() implies grp[j].segs.len() > d && grp[j].segs[d]
                == grp[0].segs[d] by {
                assert(grp[j].segs.len() > d && grp[j].segs[d] == keys[g]);
                assert(grp[0].segs.len() > d && grp[0].segs[d] == keys[g]);
            }
        }
        assert forall|x: LeafView| #[trigger] grp.contains(x) implies rebuilt_leaf(grp, x) == rebuilt_leaf(ls, x) by {
            let i = choose|i: int| 0 <= i < grp.len() && grp[i] == x;
            assert(rebuilt_leaf(grp, grp[i]) == rebuilt_leaf(ls, grp[i]));
        }
    }
}

/// [`lemma_group`] where every entry has the same segment at `d`.
proof fn lemma_group_same(
    ls: Seq<LeafView>,
    d: int,
    keys: Seq<Seq<char>>,
    idx: Seq<Seq<int>>,
    gv: Seq<Seq<LeafView>>,
    g: int,
)
    requires
        0 <= d,
        grouping(ls, d, ls.len() as int, keys, idx, gv),
        agree_to(ls, d),
        buildable_from(ls, d),
        ls.len() >= 2,
        grouped_in_order(ls, d, ls.len() as int, keys, gv),
        forall|i: int| 0 <= i < ls.len() ==> #[trigger] key_at(ls[i], d) == key_at(ls[0], d),
        0 <= g < gv.len(),
    ensures
        gv[g].len() < ls.len() || gv[g] == ls,
        gv[g] == ls ==> goes_deeper(ls, d),
        gv[g].len() >= 1,
        agree_to(gv[g], d),
        gv[g][0].segs.take(d) == ls[0].segs.take(d),
        gv[g].len() == 1 ==> d <= gv[g][0].segs.len() && rebuilt_leaf(ls, gv[g][0]) == leaf_at_depth(
            gv[g][0],
            d,
        ),
        gv[g].len() >= 2 ==> buildable_from(gv[g], d) && rebuilt(gv[g]) == rebuilt_in(ls, gv[g]) && shares_first_at(
            gv[g],
            d,
        ),
        gv[g].len() >= 2 ==> forall|x: LeafView| #[trigger] gv[g].contains(x) ==> rebuilt_leaf(gv[g], x)
            == rebuilt_leaf(ls, x),
{
    lemma_same_key_deeper(ls, d);
    lemma_with_key_all(ls, d, key_at(ls[0], d));
    assert(ls.take(ls.len() as int) =~= ls);
    let i0 = idx[g][0];
    assert(0 <= i0 < ls.len());
    assert(key_at(ls[i0], d) == keys[g]);
    assert(gv[g] == with_key(ls, d, keys[g]));
    assert(gv[g] == ls);
    assert(rebuilt(ls) =~= rebuilt_in(ls, ls));
    assert forall|j: int| 0 <= j < ls.len() implies #[trigger] ls[j].segs.len() >= d && ls[j].segs.take(d)
        == ls[0].segs.take(d) by {
    }
}


/// The length of the longest path among the entries.
pub open spec fn max_len(ls: Seq<LeafView>) -> int
    decreases ls.len(),
{
    if ls.len() == 0 {
        0
    } else if ls.last().segs.len() > max_len(ls.drop_last()) {
        ls.last().segs.len() as int
    } else {
        max_len(ls.drop_last())
    }
}

/// The entries of `ls` whose segment at `d` is `k`, in their order.
pub open spec fn with_key(ls: Seq<LeafView>, d: int, k: Seq<char>) -> Seq<LeafView>
    decreases ls.len(),
{
    if ls.len() == 0 {
        Seq::empty()
    } else if key_at(ls.last(), d) == k {
        with_key(ls.drop_last(), d, k).push(ls.last())
    } else {
        with_key(ls.drop_last(), d, k)
    }
}

/// The segments at `d` of the entries, each once, in the order in which
/// they first come.
pub open spec fn first_keys(ls: Seq<LeafView>, d: int) -> Seq<Seq<char>>
    decreases ls.len(),
{
    if ls.len() == 0 {
        Seq::empty()
    } else if first_keys(ls.drop_last(), d).contains(key_at(ls.last(), d)) {
        first_keys(ls.drop_last(), d)
    } else {
        first_keys(ls.drop_last(), d).push(key_at(ls.last(), d))
    }
}

/// A group is no longer than the entries it is taken from, nor are its
/// paths.
pub proof fn lemma_with_key_bounds(ls: Seq<LeafView>, d: int, k: Seq<char>)
    ensures
        with_key(ls, d, k).len() <= ls.len(),
        max_len(with_key(ls, d, k)) <= max_len(ls),
        max_len(ls) >= 0,
    decreases ls.len(),
{
    if ls.len() > 0 {
        lemma_with_key_bounds(ls.drop_last(), d, k);
        let w = with_key(ls.drop_last(), d, k);
        if key_at(ls.last(), d) == k {
            assert(w.push(ls.last()).drop_last() =~= w);
        }
    }
}

/// There are no more keys than entries.
pub proof fn lemma_first_keys_len(ls: Seq<LeafView>, d: int)
    ensures
        first_keys(ls, d).len() <= ls.len(),
    decreases ls.len(),
{
    if ls.len() > 0 {
        lemma_first_keys_len(ls.drop_last(), d);
    }
}

/// How many segments the longest path has past `d`.
pub open spec fn depth_left(ls: Seq<LeafView>, d: int) -> nat {
    if max_len(ls) > d {
        (max_len(ls) - d) as nat
    } else {
        0
    }
}

/// The entries in the order of the tree: grouped by their segment at `d`,
/// the groups in the order in which their first entry comes, each group in
/// this order one segment deeper.
pub open spec fn entry_order(ls: Seq<LeafView>, d: int) -> Seq<LeafView>
    decreases ls.len(), depth_left(ls, d), ls.len() + 1,
{
    if ls.len() <= 1 || d >= max_len(ls) {
        ls
    } else {
        proof {
            lemma_first_keys_len(ls, d);
        }
        order_groups(ls, d, first_keys(ls, d))
    }
}

/// The groups of `ls` at `d` for the keys `ks`, one after the other, each
/// in [`entry_order`] one segment deeper.
pub open spec fn order_groups(ls: Seq<LeafView>, d: int, ks: Seq<Seq<char>>) -> Seq<LeafView>
    decreases ls.len(), depth_left(ls, d), ks.len(),
{
    if ks.len() == 0 || ks.len() > ls.len() || d >= max_len(ls) {
        Seq::empty()
    } else {
        proof {
            lemma_with_key_bounds(ls, d, ks.last());
        }
        order_groups(ls, d, ks.drop_last()) + entry_order(with_key(ls, d, ks.last()), d + 1)
    }
}

/// The tree that writes the path segments `segs`, one inside the other,
/// around `inner`.
pub open spec fn wrap_view(segs: Seq<Seq<char>>, inner: TreeView) -> TreeView
    decreases segs.len(),
{
    if segs.len() == 0 {
        inner
    } else {
        TreeView::Path(segs[0], Box::new(wrap_view(segs.skip(1), inner)))
    }
}

/// The tree that [`build_leaf_at_depth`] writes for `l` below depth `d`:
/// its segments from `d` on, the last one as a name (`_` when there is
/// none left), or all of them followed by `*` for a glob.
pub open spec fn leaf_tree(l: LeafView, d: int) -> TreeView {
    match l.kind {
        LeafKind::Glob => wrap_view(l.segs.subrange(d, l.segs.len() as int), TreeView::Glob),
        LeafKind::Name => if l.segs.len() == d {
            TreeView::Name(underscore())
        } else {
            wrap_view(l.segs.subrange(d, l.segs.len() - 1), TreeView::Name(l.segs.last()))
        },
        LeafKind::Alias(a) => if l.segs.len() == d {
            TreeView::Rename(underscore(), a)
        } else {
            wrap_view(l.segs.subrange(d, l.segs.len() - 1), TreeView::Rename(l.segs.last(), a))
        },
    }
}

/// The first depth from `e` on, below `limit`, at which not every entry
/// has the segment of the first entry.
pub open spec fn shared_end(ls: Seq<LeafView>, e: int, limit: int) -> int
    decreases limit - e,
{
    if e < limit && shares_first_at(ls, e) {
        shared_end(ls, e + 1, limit)
    } else {
        e
    }
}

/// The shared segments end at `e` or later, and at `limit` at the latest
/// when they end past `e`.
pub proof fn lemma_shared_end_bounds(ls: Seq<LeafView>, e: int, limit: int)
    ensures
        shared_end(ls, e, limit) >= e,
        shared_end(ls, e, limit) > e ==> shared_end(ls, e, limit) <= limit,
        e < limit && shares_first_at(ls, e) ==> shared_end(ls, e, limit) > e,
    decreases limit - e,
{
    if e < limit && shares_first_at(ls, e) {
        lemma_shared_end_bounds(ls, e + 1, limit);
    }
}

/// The depth below which the first entry of `ls` has segments that the
/// other entries may share: the depth of its last segment.
pub open spec fn limit_of(ls: Seq<LeafView>) -> int {
    if ls[0].segs.len() > 0 {
        ls[0].segs.len() - 1
    } else {
        0
    }
}

/// Below depth `d`, every entry has the segment of the first entry, and
/// that segment is not the first entry's last.
pub open spec fn goes_deeper(ls: Seq<LeafView>, d: int) -> bool {
    d < limit_of(ls) && shares_first_at(ls, d)
}

/// The tree that [`build_tree_inner`] writes for `ls` below depth `d`: one
/// entry is written alone; otherwise the segments from `d` on that every
/// entry shares with the first (short of the first entry's last) are
/// written once, around the tree one level deeper, or around the group
/// tree when only the first entry's last segment is left; with no shared
/// segment, the group tree at `d`.
pub open spec fn tree_of(ls: Seq<LeafView>, d: int) -> TreeView
    decreases ls.len() as int, ls[0].segs.len() - d, if goes_deeper(ls, d) { 0int } else { 3int }, 0int,
{
    if ls.len() == 0 {
        TreeView::Group(Seq::empty())
    } else if ls.len() == 1 {
        leaf_tree(ls[0], d)
    } else {
        let first = ls[0].segs;
        let e = shared_end(ls, d, limit_of(ls));
        proof {
            lemma_shared_end_bounds(ls, d, limit_of(ls));
        }
        if e > d {
            wrap_view(
                first.subrange(d, e),
                if e + 1 == first.len() {
                    group_tree(ls, e)
                } else {
                    tree_of(ls, e)
                },
            )
        } else {
            group_tree(ls, d)
        }
    }
}

/// The group that [`build_group_at`] writes for `ls` at depth `d`: one
/// item for each segment at `d`, in the order in which the segments first
/// come.
pub open spec fn group_tree(ls: Seq<LeafView>, d: int) -> TreeView
    decreases ls.len() as int, ls[0].segs.len() - d, 2int, 0int,
{
    TreeView::Group(group_items(ls, d, first_keys(ls, d)))
}

/// The items of the group tree for the keys `ks`: a group of one entry is
/// that entry written below `d`, a larger group its own tree at `d`.
pub open spec fn group_items(ls: Seq<LeafView>, d: int, ks: Seq<Seq<char>>) -> Seq<TreeView>
    decreases ls.len() as int, ls[0].segs.len() - d, 1int, ks.len() as int,
{
    if ks.len() == 0 {
        Seq::empty()
    } else {
        let g = with_key(ls, d, ks.last());
        group_items(ls, d, ks.drop_last()).push(
            if g.len() == 1 {
                leaf_tree(g[0], d)
            } else if g.len() < ls.len() {
                tree_of(g, d)
            } else if goes_deeper(ls, d) {
                tree_of(ls, d)
            } else {
                TreeView::Group(Seq::empty())
            },
        )
    }
}

proof fn lemma_max_len_ge(ls: Seq<LeafView>, i: int)
    requires
        0 <= i < ls.len(),
    ensures
        ls[i].segs.len() <= max_len(ls),
    decreases ls.len(),
{
    if i < ls.len() - 1 {
        lemma_max_len_ge(ls.drop_last(), i);
    }
}

proof fn lemma_with_key_all(ls: Seq<LeafView>, d: int, k: Seq<char>)
    requires
        forall|i: int| 0 <= i < ls.len() ==> #[trigger] key_at(ls[i], d) == k,
    ensures
        with_key(ls, d, k) == ls,
    decreases ls.len(),
{
    if ls.len() > 0 {
        lemma_with_key_all(ls.drop_last(), d, k);
        assert(ls.drop_last().push(ls.last()) =~= ls);
    }
}

proof fn lemma_first_keys_all(ls: Seq<LeafView>, d: int, k: Seq<char>)
    requires
        ls.len() >= 1,
        forall|i: int| 0 <= i < ls.len() ==> #[trigger] key_at(ls[i], d) == k,
    ensures
        first_keys(ls, d) == seq![k],
    decreases ls.len(),
{
    if ls.len() == 1 {
        assert(first_keys(ls.drop_last(), d) =~= Seq::<Seq<char>>::empty());
        assert(Seq::<Seq<char>>::empty().push(k) =~= seq![k]);
    } else {
        lemma_first_keys_all(ls.drop_last(), d, k);
        assert(seq![k].contains(k)) by {
            assert(seq![k][0] == k);
        }
    }
}

proof fn lemma_with_key_members(ls: Seq<LeafView>, d: int, k: Seq<char>)
    ensures
        forall|x: LeafView| #[trigger] with_key(ls, d, k).contains(x) ==> ls.contains(x),
    decreases ls.len(),
{
    if ls.len() > 0 {
        lemma_with_key_members(ls.drop_last(), d, k);
        let w = with_key(ls.drop_last(), d, k);
        assert forall|x: LeafView| #[trigger] with_key(ls, d, k).contains(x) implies ls.contains(x) by {
            if key_at(ls.last(), d) == k {
                let j = choose|j: int| 0 <= j < w.push(ls.last()).len() && w.push(ls.last())[j] == x;
                if j < w.len() {
                    assert(w.contains(x));
                    let m = choose|m: int| 0 <= m < ls.drop_last().len() && ls.drop_last()[m] == x;
                    assert(ls[m] == x);
                } else {
                    assert(ls[ls.len() - 1] == x);
                }
            } else {
                assert(w.contains(x));
                let m = choose|m: int| 0 <= m < ls.drop_last().len() && ls.drop_last()[m] == x;
                assert(ls[m] == x);
            }
        }
    }
}

/// Every entry of [`entry_order`] is an entry of `ls`.
proof fn lemma_order_members(ls: Seq<LeafView>, d: int)
    ensures
        forall|x: LeafView| #[trigger] entry_order(ls, d).contains(x) ==> ls.contains(x),
    decreases ls.len(), depth_left(ls, d), ls.len() + 1,
{
    if ls.len() <= 1 || d >= max_len(ls) {
    } else {
        lemma_first_keys_len(ls, d);
        lemma_groups_members(ls, d, first_keys(ls, d));
        assert(entry_order(ls, d) == order_groups(ls, d, first_keys(ls, d)));
    }
}

proof fn lemma_groups_members(ls: Seq<LeafView>, d: int, ks: Seq<Seq<char>>)
    ensures
        forall|x: LeafView| #[trigger] order_groups(ls, d, ks).contains(x) ==> ls.contains(x),
    decreases ls.len(), depth_left(ls, d), ks.len(),
{
    if ks.len() == 0 || ks.len() > ls.len() || d >= max_len(ls) {
    } else {
        lemma_with_key_bounds(ls, d, ks.last());
        let g = with_key(ls, d, ks.last());
        lemma_groups_members(ls, d, ks.drop_last());
        lemma_order_members(g, d + 1);
        lemma_with_key_members(ls, d, ks.last());
        let a = order_groups(ls, d, ks.drop_last());
        let b = entry_order(g, d + 1);
        assert forall|x: LeafView| #[trigger] order_groups(ls, d, ks).contains(x) implies ls.contains(x) by {
            let j = choose|j: int| 0 <= j < (a + b).len() && (a + b)[j] == x;
            if j < a.len() {
                assert(a[j] == x);
                assert(a.contains(x));
            } else {
                assert(b[j - a.len()] == x);
                assert(b.contains(x));
                assert(g.contains(x));
            }
        }
    }
}

/// One level at which all entries share their segment adds nothing to the
/// order.
proof fn lemma_order_shared_level(ls: Seq<LeafView>, d: int)
    requires
        ls.len() >= 2,
        shares_first_at(ls, d),
    ensures
        entry_order(ls, d) == entry_order(ls, d + 1),
{
    let k = ls[0].segs[d];
    assert forall|i: int| 0 <= i < ls.len() implies #[trigger] key_at(ls[i], d) == k by {
        assert(ls[i].segs.len() > d && ls[i].segs[d] == ls[0].segs[d]);
    }
    lemma_first_keys_all(ls, d, k);
    lemma_with_key_all(ls, d, k);
    lemma_max_len_ge(ls, 0);
    assert(d < max_len(ls)) by {
        assert(ls[0].segs.len() > d && ls[0].segs[d] == ls[0].segs[d]);
    }
    assert(seq![k].drop_last() =~= Seq::<Seq<char>>::empty());
    assert(seq![k].last() == k);
    assert(order_groups(ls, d, Seq::<Seq<char>>::empty()) =~= Seq::<LeafView>::empty());
    assert(order_groups(ls, d, seq![k]) == order_groups(ls, d, seq![k].drop_last()) + entry_order(
        with_key(ls, d, k),
        d + 1,
    ));
    assert(order_groups(ls, d, seq![k]) =~= entry_order(ls, d + 1));
}

/// Levels at which all entries share their segment add nothing to the
/// order.
proof fn lemma_order_shared(ls: Seq<LeafView>, d: int, e: int)
    requires
        ls.len() >= 2,
        d <= e,
        forall|k: int| d <= k < e ==> #[trigger] shares_first_at(ls, k),
    ensures
        entry_order(ls, d) == entry_order(ls, e),
    decreases e - d,
{
    if d < e {
        assert(shares_first_at(ls, d));
        lemma_order_shared_level(ls, d);
        assert forall|k: int| d + 1 <= k < e implies #[trigger] shares_first_at(ls, k) by {
            assert(shares_first_at(ls, k));
        }
        lemma_order_shared(ls, d + 1, e);
    }
}

proof fn lemma_with_key_absent(ls: Seq<LeafView>, d: int, k: Seq<char>)
    requires
        !first_keys(ls, d).contains(k),
    ensures
        with_key(ls, d, k) == Seq::<LeafView>::empty(),
    decreases ls.len(),
{
    if ls.len() > 0 {
        let r = first_keys(ls.drop_last(), d);
        if !r.contains(key_at(ls.last(), d)) {
            assert(r.push(key_at(ls.last(), d))[r.len() as int] == key_at(ls.last(), d));
        }
        assert forall|j: int| 0 <= j < r.len() implies r[j] != k by {
            if r.contains(key_at(ls.last(), d)) {
                assert(first_keys(ls, d)[j] == r[j]);
            } else {
                assert(first_keys(ls, d)[j] == r[j]);
            }
        }
        lemma_with_key_absent(ls.drop_last(), d, k);
    }
}

/// After the first `i` entries, the groups are those of [`first_keys`] and
/// [`with_key`].
pub open spec fn grouped_in_order(
    ls: Seq<LeafView>,
    d: int,
    i: int,
    keys: Seq<Seq<char>>,
    gv: Seq<Seq<LeafView>>,
) -> bool {
    &&& keys == first_keys(ls.take(i), d)
    &&& gv.len() == keys.len()
    &&& forall|g: int| 0 <= g < keys.len() ==> #[trigger] gv[g] == with_key(ls.take(i), d, keys[g])
}

proof fn lemma_grouped_push_existing(
    ls: Seq<LeafView>,
    d: int,
    i: int,
    keys: Seq<Seq<char>>,
    gv: Seq<Seq<LeafView>>,
    g: int,
)
    requires
        0 <= i < ls.len(),
        grouped_in_order(ls, d, i, keys, gv),
        0 <= g < keys.len(),
        keys[g] == key_at(ls[i], d),
        forall|g1: int, g2: int|
            0 <= g1 < keys.len() && 0 <= g2 < keys.len() && g1 != g2 ==> #[trigger] keys[g1] != #[trigger] keys[g2],
    ensures
        grouped_in_order(ls, d, i + 1, keys, gv.update(g, gv[g].push(ls[i]))),
{
    let s = ls.take(i + 1);
    assert(s.drop_last() =~= ls.take(i));
    assert(s.last() == ls[i]);
    assert(first_keys(ls.take(i), d).contains(key_at(ls[i], d))) by {
        assert(keys[g] == key_at(ls[i], d));
    }
    let gv2 = gv.update(g, gv[g].push(ls[i]));
    assert forall|h: int| 0 <= h < keys.len() implies #[trigger] gv2[h] == with_key(s, d, keys[h]) by {
        if h != g {
            assert(keys[h] != keys[g]);
        }
    }
}

proof fn lemma_grouped_push_new(
    ls: Seq<LeafView>,
    d: int,
    i: int,
    keys: Seq<Seq<char>>,
    gv: Seq<Seq<LeafView>>,
)
    requires
        0 <= i < ls.len(),
        grouped_in_order(ls, d, i, keys, gv),
        forall|g: int| 0 <= g < keys.len() ==> #[trigger] keys[g] != key_at(ls[i], d),
    ensures
        grouped_in_order(ls, d, i + 1, keys.push(key_at(ls[i], d)), gv.push(seq![ls[i]])),
{
    let s = ls.take(i + 1);
    let k = key_at(ls[i], d);
    assert(s.drop_last() =~= ls.take(i));
    assert(s.last() == ls[i]);
    assert(!first_keys(ls.take(i), d).contains(k));
    lemma_with_key_absent(ls.take(i), d, k);
    let keys2 = keys.push(k);
    let gv2 = gv.push(seq![ls[i]]);
    assert forall|h: int| 0 <= h < keys2.len() implies #[trigger] gv2[h] == with_key(s, d, keys2[h]) by {
        if h < keys.len() {
            assert(keys2[h] == keys[h]);
            assert(keys[h] != k);
        } else {
            assert(Seq::<LeafView>::empty().push(ls[i]) =~= seq![ls[i]]);
        }
    }
}

proof fn lemma_items_step(
    ls: Seq<LeafView>,
    d: int,
    keys: Seq<Seq<char>>,
    gv: Seq<Seq<LeafView>>,
    g: int,
    prev: Seq<LeafView>,
    item: Seq<LeafView>,
)
    requires
        grouped_in_order(ls, d, ls.len() as int, keys, gv),
        0 <= g < keys.len(),
        d < max_len(ls),
        prev == rebuilt_in(ls, order_groups(ls, d, keys.take(g))),
        item == rebuilt_in(ls, entry_order(gv[g], d + 1)),
    ensures
        prev + item == rebuilt_in(ls, order_groups(ls, d, keys.take(g + 1))),
{
    assert(ls.take(ls.len() as int) =~= ls);
    lemma_first_keys_len(ls, d);
    let ks = keys.take(g + 1);
    assert(ks.drop_last() =~= keys.take(g));
    assert(ks.last() == keys[g]);
    assert(gv[g] == with_key(ls, d, keys[g]));
    let a = order_groups(ls, d, keys.take(g));
    let b = entry_order(gv[g], d + 1);
    assert(order_groups(ls, d, ks) == a + b);
    assert(rebuilt_in(ls, a + b) =~= rebuilt_in(ls, a) + rebuilt_in(ls, b));
}

proof fn lemma_group_item(ls: Seq<LeafView>, d: int, grp: Seq<LeafView>, flat: Seq<LeafView>)
    requires
        grp.len() >= 2,
        shares_first_at(grp, d),
        forall|x: LeafView| #[trigger] grp.contains(x) ==> rebuilt_leaf(grp, x) == rebuilt_leaf(ls, x),
        flat == rebuilt_in(grp, entry_order(grp, d)),
    ensures
        flat == rebuilt_in(ls, entry_order(grp, d + 1)),
{
    lemma_order_shared_level(grp, d);
    lemma_order_members(grp, d);
    let o = entry_order(grp, d);
    assert forall|i: int| 0 <= i < o.len() implies #[trigger] rebuilt_in(grp, o)[i] == rebuilt_in(ls, o)[i] by {
        assert(o.contains(o[i]));
        assert(grp.contains(o[i]));
    }
    assert(rebuilt_in(grp, o) =~= rebuilt_in(ls, o));
}

/// The position of `key` among `keys`.
fn find_key(keys: &Vec<String>, key: &String) -> (res: Option<usize>)
    ensures
        res matches Some(g) ==> g < keys.len() && keys@[g as int]@ == key@,
        res is None ==> forall|g: int| 0 <= g < keys.len() ==> #[trigger] keys@[g]@ != key@,
{
    for g in 0..keys.len()
        invariant
            forall|h: int| 0 <= h < g ==> #[trigger] keys@[h]@ != key@,
    {
        if keys[g] == *key {
            return Some(g);
        }
    }
    None
}

/// The segment of `leaf` at `depth`, or the empty string past its end.
fn key_of(leaf: &UseLeaf, depth: usize) -> (res: String)
    ensures
        res@ == key_at(leaf@, depth as int),
{
    if depth < leaf.segs.len() {
        leaf.segs[depth].clone()
    } else {
        String::new()
    }
}

/// The group tree of `leaves` at `depth`: the entries are grouped by their
/// segment at `depth`, the groups in the order in which their first entry
/// comes; a group of one entry becomes that entry, a larger group its own
/// tree.
pub fn build_group_at(leaves: &Vec<UseLeaf>, depth: usize) -> (res: UseTree)
    requires
        leaves.len() >= 1,
        agree_to(leaves_view(leaves@), depth as int),
        buildable_from(leaves_view(leaves@), depth as int),
    ensures
        leaves.len() >= 2 ==> flatten(res, leaves_view(leaves@)[0].segs.take(depth as int)).to_multiset()
            == rebuilt(leaves_view(leaves@)).to_multiset(),
        leaves.len() >= 2 ==> flatten(res, leaves_view(leaves@)[0].segs.take(depth as int)) == rebuilt_in(
            leaves_view(leaves@),
            entry_order(leaves_view(leaves@), depth as int),
        ),
        leaves.len() == 1 ==> flatten(res, leaves_view(leaves@)[0].segs.take(depth as int)) == seq![
            leaf_at_depth(leaves_view(leaves@)[0], depth as int),
        ],
        tree_view(res) == group_tree(leaves_view(leaves@), depth as int),
    decreases leaves@.len(), leaves@[0].segs@.len() - depth, 2int,
{
    broadcast use vstd::multiset::group_multiset_axioms;
    broadcast use vstd::seq_lib::group_to_multiset_ensures;

    let ghost ls = leaves_view(leaves@);
    let ghost d = depth as int;
    assert(ls[0] == leaves@[0]@);
    if leaves.len() == 1 {
        // one group, of the one entry
        let item = build_leaf_at_depth(&leaves[0], depth);
        let mut items: Vec<UseTree> = Vec::new();
        items.push(item);
        proof {
            let k = key_at(ls[0], d);
            assert(ls.drop_last() =~= Seq::<LeafView>::empty());
            assert(first_keys(ls, d) == seq![k]);
            lemma_with_key_all(ls, d, k);
            assert(seq![k].drop_last() =~= Seq::<Seq<char>>::empty());
            assert(items@.drop_last() =~= Seq::<UseTree>::empty());
            assert(items@.last() == item);
            assert(items_view(Seq::<UseTree>::empty()) =~= Seq::<TreeView>::empty());
            assert(items_view(items@) == items_view(Seq::<UseTree>::empty()).push(tree_view(item)));
            assert(items_view(items@) =~= seq![tree_view(item)]);
            assert(flatten_items(Seq::<UseTree>::empty(), ls[0].segs.take(d)) =~= Seq::<LeafView>::empty());
            assert(flatten_items(items@, ls[0].segs.take(d)) == flatten_items(
                Seq::<UseTree>::empty(),
                ls[0].segs.take(d),
            ) + flatten(item, ls[0].segs.take(d)));
            assert(group_items(ls, d, seq![k]) =~= seq![leaf_tree(ls[0], d)]);
            assert(flatten_items(items@, ls[0].segs.take(d)) =~= flatten(item, ls[0].segs.take(d)));
        }
        return UseTree::Group(items);
    }
    let n = leaves.len();
    let mut keys: Vec<String> = Vec::new();
    let mut members: Vec<Vec<UseLeaf>> = Vec::new();
    let ghost mut idx: Seq<Seq<int>> = Seq::empty();
    assert(ls.take(0) =~= Seq::<LeafView>::empty());
    assert(strings_view(keys@) =~= first_keys(ls.take(0), d));
    assert(rebuilt_in(ls, ls.take(0)) =~= Seq::<LeafView>::empty());
    for i in 0..n
        invariant
            n == leaves.len(),
            ls == leaves_view(leaves@),
            d == depth,
            grouping(ls, d, i as int, strings_view(keys@), idx, groups_view(members@)),
            grouped_in_order(ls, d, i as int, strings_view(keys@), groups_view(members@)),
            groups_multiset(ls, groups_view(members@)) == rebuilt_in(ls, ls.take(i as int)).to_multiset(),
    {
        let key = key_of(&leaves[i], depth);
        let leaf = clone_leaf(&leaves[i]);
        let ghost old_gv = groups_view(members@);
        let ghost old_keys = strings_view(keys@);
        let ghost old_idx = idx;
        assert(ls[i as int] == leaves@[i as int]@);
        assert(rebuilt_in(ls, ls.take(i + 1)) =~= rebuilt_in(ls, ls.take(i as int)).push(
            rebuilt_leaf(ls, ls[i as int]),
        ));
        proof {
            vstd::seq_lib::to_multiset_build(rebuilt_in(ls, ls.take(i as int)), rebuilt_leaf(ls, ls[i as int]));
        }
        match find_key(&keys, &key) {
            Some(g) => {
                let ghost old_members = members@;
                let mut grp = members.remove(g);
                let ghost old_grp = grp;
                grp.push(leaf);
                let ghost new_grp = grp;
                members.insert(g, grp);
                proof {
                    idx = idx.update(g as int, idx[g as int].push(i as int));
                    assert(members@ =~= old_members.update(g as int, new_grp));
                    assert(old_grp == old_members[g as int]);
                    assert(leaves_view(new_grp@) =~= leaves_view(old_grp@).push(ls[i as int]));
                    assert(groups_view(members@) =~= old_gv.update(g as int, old_gv[g as int].push(ls[i as int])));
                    lemma_groups_multiset_push_at(ls, old_gv, g as int, ls[i as int]);
                    lemma_grouped_push_existing(ls, d, i as int, old_keys, old_gv, g as int);
                    assert(rebuilt_in(ls, ls.take(i + 1)).to_multiset() == rebuilt_in(ls, ls.take(i as int)).to_multiset().insert(rebuilt_leaf(ls, ls[i as int])));
                    assert(groups_multiset(ls, groups_view(members@)) == rebuilt_in(ls, ls.take(i + 1)).to_multiset());
                    let gv = groups_view(members@);
                    let ks = strings_view(keys@);
                    assert(ks == old_keys);
                    assert forall|h: int, m: int|
                        0 <= h < idx.len() && 0 <= m < idx[h].len() implies 0 <= #[trigger] idx[h][m] < i + 1 && gv[h][m]
                            == ls[idx[h][m]] && key_at(ls[idx[h][m]], d) == ks[h] by {
                        if h == g && m == idx[h].len() - 1 {
                        } else {
                            assert(old_idx[h][m] == idx[h][m]);
                        }
                    }
                    assert forall|h: int, m1: int, m2: int|
                        0 <= h < idx.len() && 0 <= m1 < m2 < idx[h].len() implies #[trigger] idx[h][m1]
                            < #[trigger] idx[h][m2] by {
                        if h == g && m2 == idx[h].len() - 1 {
                            assert(old_idx[h][m1] < i);
                        } else {
                            assert(old_idx[h][m1] < old_idx[h][m2]);
                        }
                    }
                    assert forall|k: int| 0 <= k < i + 1 implies exists|h: int|
                        0 <= h < ks.len() && key_at(#[trigger] ls[k], d) == ks[h] by {
                        if k == i {
                            assert(key_at(ls[k], d) == ks[g as int]);
                        } else {
                            let h = choose|h: int| 0 <= h < old_keys.len() && key_at(#[trigger] ls[k], d) == old_keys[h];
                            assert(ks[h] == old_keys[h]);
                        }
                    }
                    assert forall|h: int, k: int|
                        0 <= h < ks.len() && 0 <= k < i + 1 && key_at(#[trigger] ls[k], d) == #[trigger] ks[h]
                            implies exists|m: int| 0 <= m < idx[h].len() && #[trigger] idx[h][m] == k by {
                        if k == i {
                            if h != g {
                                assert(ks[h] != ks[g as int]);
                            }
                            assert(idx[h][idx[h].len() - 1] == k);
                        } else {
                            let m = choose|m: int| 0 <= m < old_idx[h].len() && #[trigger] old_idx[h][m] == k;
                            assert(idx[h][m] == k);
                        }
                    }
                }
            },
            None => {
                keys.push(key);
                let mut grp: Vec<UseLeaf> = Vec::new();
                grp.push(leaf);
                let ghost new_grp = grp;
                let ghost old_members = members@;
                members.push(grp);
                proof {
                    assert(members@ =~= old_members.push(new_grp));
                    assert(leaves_view(new_grp@) =~= seq![ls[i as int]]);
                    idx = idx.push(seq![i as int]);
                    let gv = groups_view(members@);
                    let ks = strings_view(keys@);
                    assert(gv =~= old_gv.push(seq![ls[i as int]]));
                    assert(ks =~= old_keys.push(key@));
                    lemma_grouped_push_new(ls, d, i as int, old_keys, old_gv);
                    assert(gv.drop_last() =~= old_gv);
                    assert(rebuilt_in(ls, seq![ls[i as int]]) =~= seq![rebuilt_leaf(ls, ls[i as int])]);
                    lemma_single_multiset(rebuilt_leaf(ls, ls[i as int]));
                    assert(gv.last() == seq![ls[i as int]]);
                    assert(groups_multiset(ls, gv) =~= groups_multiset(ls, old_gv).insert(
                        rebuilt_leaf(ls, ls[i as int]),
                    ));
                    assert(rebuilt_in(ls, ls.take(i + 1)).to_multiset() == rebuilt_in(ls, ls.take(i as int)).to_multiset().insert(rebuilt_leaf(ls, ls[i as int])));
                    assert(groups_multiset(ls, gv) == rebuilt_in(ls, ls.take(i + 1)).to_multiset());
                    assert forall|h: int, m: int|
                        0 <= h < idx.len() && 0 <= m < idx[h].len() implies 0 <= #[trigger] idx[h][m] < i + 1 && gv[h][m]
                            == ls[idx[h][m]] && key_at(ls[idx[h][m]], d) == ks[h] by {
                        if h < old_idx.len() {
                            assert(old_idx[h][m] == idx[h][m]);
                        }
                    }
                    assert forall|h: int, m1: int, m2: int|
                        0 <= h < idx.len() && 0 <= m1 < m2 < idx[h].len() implies #[trigger] idx[h][m1]
                            < #[trigger] idx[h][m2] by {
                        assert(old_idx[h][m1] < old_idx[h][m2]);
                    }
                    assert forall|k: int| 0 <= k < i + 1 implies exists|h: int|
                        0 <= h < ks.len() && key_at(#[trigger] ls[k], d) == ks[h] by {
                        if k == i {
                            assert(key_at(ls[k], d) == ks[ks.len() - 1]);
                        } else {
                            let h = choose|h: int| 0 <= h < old_keys.len() && key_at(#[trigger] ls[k], d) == old_keys[h];
                            assert(ks[h] == old_keys[h]);
                        }
                    }
                    assert forall|h: int, k: int|
                        0 <= h < ks.len() && 0 <= k < i + 1 && key_at(#[trigger] ls[k], d) == #[trigger] ks[h]
                            implies exists|m: int| 0 <= m < idx[h].len() && #[trigger] idx[h][m] == k by {
                        if h == ks.len() - 1 {
                            if k < i {
                                let hh = choose|hh: int| 0 <= hh < old_keys.len() && key_at(#[trigger] ls[k], d) == old_keys[hh];
                                assert(old_keys[hh] != key@);
                            }
                            assert(idx[h][0] == k);
                        } else {
                            if k == i {
                                assert(old_keys[h] != key@);
                            }
                            let m = choose|m: int| 0 <= m < old_idx[h].len() && #[trigger] old_idx[h][m] == k;
                            assert(idx[h][m] == k);
                        }
                    }
                    assert forall|g1: int, g2: int|
                        0 <= g1 < ks.len() && 0 <= g2 < ks.len() && g1 != g2 implies #[trigger] ks[g1]
                            != #[trigger] ks[g2] by {
                        if g1 < old_keys.len() && g2 < old_keys.len() {
                            assert(old_keys[g1] != old_keys[g2]);
                        }
                    }
                }
            },
        }
    }
    assert(ls.take(n as int) =~= ls);
    let ghost keys_v = strings_view(keys@);
    let ghost gv = groups_view(members@);
    let ghost p = ls[0].segs.take(d);
    let mut items: Vec<UseTree> = Vec::new();
    assert(gv.take(0) =~= Seq::<Seq<LeafView>>::empty());
    proof {
        lemma_group_depth(ls, d);
        assert(order_groups(ls, d, keys_v.take(0)) =~= Seq::<LeafView>::empty()) by {
            assert(keys_v.take(0).len() == 0);
        }
        assert(rebuilt_in(ls, Seq::<LeafView>::empty()) =~= Seq::<LeafView>::empty());
    }
    for g in 0..members.len()
        invariant
            n == leaves.len(),
            ls == leaves_view(leaves@),
            d == depth,
            p == ls[0].segs.take(d),
            agree_to(ls, d),
            buildable_from(ls, d),
            ls.len() >= 2,
            leaves@[0].segs@.len() == ls[0].segs.len(),
            grouping(ls, d, ls.len() as int, keys_v, idx, gv),
            gv == groups_view(members@),
            grouped_in_order(ls, d, ls.len() as int, keys_v, gv),
            d < max_len(ls),
            flatten_items(items@, p).to_multiset() == groups_multiset(ls, gv.take(g as int)),
            flatten_items(items@, p) == rebuilt_in(ls, order_groups(ls, d, keys_v.take(g as int))),
            items_view(items@) == group_items(ls, d, keys_v.take(g as int)),
    {
        proof {
            lemma_group(ls, d, keys_v, idx, gv, g as int);
        }
        let ghost grp = gv[g as int];
        assert(grp == leaves_view(members@[g as int]@));
        let item = if members[g].len() == 1 {
            let it = build_leaf_at_depth(&members[g][0], depth);
            proof {
                assert(members@[g as int]@[0]@ == grp[0]);
                assert(rebuilt_in(ls, grp) =~= seq![rebuilt_leaf(ls, grp[0])]);
                lemma_single_multiset(rebuilt_leaf(ls, grp[0]));
                lemma_single_multiset(leaf_at_depth(grp[0], d));
                assert(entry_order(grp, d + 1) == grp);
                assert(flatten(it, p) == rebuilt_in(ls, entry_order(grp, d + 1)));
                assert(members@[g as int]@[0]@ == grp[0]);
            }
            it
        } else {
            proof {
                assert(grp[0] == members@[g as int]@[0]@);
                assert(grp.len() == members@[g as int]@.len());
            }
            let it = build_tree_inner(&members[g], depth);
            proof {
                lemma_group_item(ls, d, grp, flatten(it, p));
            }
            it
        };
        let ghost old_items = items@;
        items.push(item);
        proof {
            assert(ls.take(ls.len() as int) =~= ls);
            assert(grp == with_key(ls, d, keys_v[g as int]));
            let ks = keys_v.take(g + 1);
            assert(ks.drop_last() =~= keys_v.take(g as int));
            assert(ks.last() == keys_v[g as int]);
            assert(items@.drop_last() =~= old_items);
            assert(items_view(items@) == items_view(old_items).push(tree_view(item)));
            assert(items@.drop_last() =~= old_items);
            assert(gv.take(g + 1).drop_last() =~= gv.take(g as int));
            assert(flatten(item, p).to_multiset() == rebuilt_in(ls, grp).to_multiset());
            vstd::seq_lib::lemma_multiset_commutative(flatten_items(old_items, p), flatten(item, p));
            lemma_items_step(ls, d, keys_v, gv, g as int, flatten_items(old_items, p), flatten(item, p));
        }
    }
    assert(gv.take(gv.len() as int) =~= gv);
    proof {
        assert(keys_v.take(keys_v.len() as int) =~= keys_v);
        assert(ls.take(ls.len() as int) =~= ls);
        lemma_first_keys_len(ls, d);
        assert(entry_order(ls, d) == order_groups(ls, d, first_keys(ls, d)));
    }
    let res = UseTree::Group(items);
    assert(flatten(res, p) == flatten_items(items@, p));
    assert(keys_v == first_keys(ls, d));
    assert(tree_view(res) == group_tree(ls, d));
    assert(rebuilt_in(ls, ls) =~= rebuilt(ls));
    res
}

/// Every entry has the segment of the first entry at `e`.
pub open spec fn shares_first_at(ls: Seq<LeafView>, e: int) -> bool {
    forall|j: int| #![trigger ls[j]] 0 <= j < ls.len() ==> ls[j].segs.len() > e && ls[j].segs[e] == ls[0].segs[e]
}

/// Whether every entry has the segment of the first entry at `e`.
fn agree_at(leaves: &Vec<UseLeaf>, e: usize) -> (res: bool)
    requires
        leaves.len() >= 1,
        e < leaves@[0].segs.len(),
    ensures
        res == shares_first_at(leaves_view(leaves@), e as int),
{
    let ghost ls = leaves_view(leaves@);
    let ghost ei = e as int;
    assert(ls[0] == leaves@[0]@);
    let mut j: usize = 0;
    while j < leaves.len()
        invariant
            ls == leaves_view(leaves@),
            ei == e,
            leaves.len() >= 1,
            e < leaves@[0].segs.len(),
            j <= leaves.len(),
            forall|jj: int| #![trigger ls[jj]] 0 <= jj < j ==> ls[jj].segs.len() > ei && ls[jj].segs[ei] == ls[0].segs[ei],
        decreases leaves.len() - j,
    {
        let ghost lj = ls[j as int];
        assert(lj == leaves@[j as int]@);
        if !(e < leaves[j].segs.len() && leaves[j].segs[e] == leaves[0].segs[e]) {
            assert(!(lj.segs.len() > ei && lj.segs[ei] == ls[0].segs[ei]));
            assert(0 <= j < ls.len());
            assert(!(ls[j as int].segs.len() > ei && ls[j as int].segs[ei] == ls[0].segs[ei]));
            assert(shares_first_at(ls, ei) ==> ls[j as int].segs.len() > ei);
            assert(shares_first_at(ls, ei) ==> ls[j as int].segs[ei] == ls[0].segs[ei]);
            assert(!shares_first_at(ls, ei));
            return false;
        }
        assert(lj.segs[ei] == leaves@[j as int].segs@[ei]@);
        assert(ls[0].segs[ei] == leaves@[0].segs@[ei]@);
        j += 1;
    }
    assert(shares_first_at(ls, ei)) by {
        assert forall|jj: int| 0 <= jj < ls.len() implies ls[jj].segs.len() > ei && #[trigger] ls[jj].segs[ei]
            == ls[0].segs[ei] by {
            assert(ls[jj].segs.len() > ei);
        }
    }
    true
}

/// The tree of `leaves` below their first `depth` segments (on which they
/// agree): the segments on which all of them agree next are written once,
/// then the rest as a group.
pub fn build_tree_inner(leaves: &Vec<UseLeaf>, depth: usize) -> (res: UseTree)
    requires
        leaves.len() >= 1,
        agree_to(leaves_view(leaves@), depth as int),
        buildable_from(leaves_view(leaves@), depth as int),
    ensures
        leaves.len() >= 2 ==> flatten(res, leaves_view(leaves@)[0].segs.take(depth as int)).to_multiset()
            == rebuilt(leaves_view(leaves@)).to_multiset(),
        leaves.len() >= 2 ==> flatten(res, leaves_view(leaves@)[0].segs.take(depth as int)) == rebuilt_in(
            leaves_view(leaves@),
            entry_order(leaves_view(leaves@), depth as int),
        ),
        leaves.len() == 1 ==> flatten(res, leaves_view(leaves@)[0].segs.take(depth as int)) == seq![
            leaf_at_depth(leaves_view(leaves@)[0], depth as int),
        ],
        tree_view(res) == tree_of(leaves_view(leaves@), depth as int),
    decreases leaves@.len(), leaves@[0].segs@.len() - depth, if goes_deeper(leaves_view(leaves@), depth as int) {
        0int
    } else {
        3int
    },
{
    broadcast use vstd::multiset::group_multiset_axioms;
    broadcast use vstd::seq_lib::group_to_multiset_ensures;

    let ghost ls = leaves_view(leaves@);
    let ghost d = depth as int;
    assert(ls[0] == leaves@[0]@);
    if leaves.len() == 1 {
        return build_leaf_at_depth(&leaves[0], depth);
    }
    let first = &leaves[0].segs;
    let limit = if first.len() > 0 { first.len() - 1 } else { 0 };
    let mut e = depth;
    // the segments from `depth` on that all entries share with the first
    let mut go = e < limit && agree_at(leaves, e);
    let ghost lim = limit as int;
    assert(lim == limit_of(ls));
    while go
        invariant
            leaves.len() >= 2,
            depth <= e,
            ls == leaves_view(leaves@),
            lim == limit,
            shared_end(ls, d, lim) == shared_end(ls, e as int, lim),
            first == leaves@[0].segs,
            limit == (if first.len() > 0 { first.len() - 1 } else { 0 }),
            e == depth || e <= limit,
            go ==> e < limit && shares_first_at(ls, e as int),
            !go ==> e >= limit || !shares_first_at(ls, e as int),
            forall|j: int, k: int|
                #![trigger ls[j].segs[k]]
                0 <= j < ls.len() && depth <= k < e ==> ls[j].segs.len() > k && ls[j].segs[k]
                    == ls[0].segs[k],
        decreases limit - e,
    {
        assert forall|j: int, k: int|
            #![trigger ls[j].segs[k]]
            0 <= j < ls.len() && depth <= k < e + 1 implies ls[j].segs.len() > k && ls[j].segs[k]
                == ls[0].segs[k] by {
            if k == e {
                assert(shares_first_at(ls, e as int));
                assert(ls[j].segs.len() > e);
                assert(ls[j].segs[e as int] == ls[0].segs[e as int]);
            }
        }
        e += 1;
        go = e < limit && agree_at(leaves, e);
    }
    if e > depth {
        proof {
            assert forall|j: int| 0 <= j < ls.len() implies #[trigger] ls[j].segs.len() >= e && ls[j].segs.take(
                e as int,
            ) == ls[0].segs.take(e as int) by {
                assert(ls[j].segs[e - 1] == ls[0].segs[e - 1]);
                assert(ls[j].segs.len() > e - 1);
                assert(ls[j].segs.take(d) == ls[0].segs.take(d));
                assert forall|k: int| 0 <= k < e implies ls[j].segs.take(e as int)[k] == ls[0].segs.take(
                    e as int,
                )[k] by {
                    if k < d {
                        assert(ls[j].segs.take(d)[k] == ls[0].segs.take(d)[k]);
                    }
                }
                assert(ls[j].segs.take(e as int) =~= ls[0].segs.take(e as int));
            }
        }
        let sub = if e + 1 == first.len() {
            build_group_at(leaves, e)
        } else {
            build_tree_inner(leaves, e)
        };
        let res = wrap_path(first, depth, e, sub);
        proof {
            assert(shared_end(ls, e as int, lim) == e);
            assert(strings_view(first@.subrange(d, e as int)) =~= ls[0].segs.subrange(d, e as int));
            assert(tree_view(res) == tree_of(ls, d));
            assert(ls[0].segs.take(d) + strings_view(first@.subrange(d, e as int)) =~= ls[0].segs.take(
                e as int,
            ));
            assert(flatten(res, ls[0].segs.take(d)) == flatten(sub, ls[0].segs.take(e as int)));
            assert forall|k: int| d <= k < e implies #[trigger] shares_first_at(ls, k) by {
                assert forall|j: int| #![trigger ls[j]] 0 <= j < ls.len() implies ls[j].segs.len() > k
                    && ls[j].segs[k] == ls[0].segs[k] by {
                    assert(ls[j].segs[k] == ls[0].segs[k]);
                }
            }
            lemma_order_shared(ls, d, e as int);
        }
        res
    } else {
        assert(!goes_deeper(ls, d));
        build_group_at(leaves, depth)
    }
}

/// The tree that imports `leaves`, with shared path segments written once.
pub fn build_tree(leaves: Vec<UseLeaf>) -> (res: UseTree)
    requires
        leaves.len() >= 1,
        buildable(leaves_view(leaves@)),
    ensures
        flatten(res, Seq::empty()) == rebuilt_in(leaves_view(leaves@), entry_order(leaves_view(leaves@), 0)),
        flatten(res, Seq::empty()).to_multiset() == rebuilt(leaves_view(leaves@)).to_multiset(),
        tree_view(res) == tree_of(leaves_view(leaves@), 0),
{
    let ghost ls = leaves_view(leaves@);
    assert(agree_to(ls, 0)) by {
        assert forall|i: int| 0 <= i < ls.len() implies #[trigger] ls[i].segs.len() >= 0 && ls[i].segs.take(0)
            == ls[0].segs.take(0) by {
            assert(ls[i].segs.take(0) =~= ls[0].segs.take(0));
        }
    }
    let res = build_tree_inner(&leaves, 0);
    assert(ls[0].segs.take(0) =~= Seq::<Seq<char>>::empty());
    res
}


/// Whether `a` is a proper prefix of `b`.
fn strings_proper_prefix(a: &Vec<String>, b: &Vec<String>) -> (res: bool)
    ensures
        res == proper_prefix(strings_view(a@), strings_view(b@)),
{
    a.len() < b.len() && crate::path::strings_prefix(a, b)
}

/// Whether some entry among the first `upto` properly extends entry `i`.
fn extended_below(leaves: &Vec<UseLeaf>, i: usize, upto: usize) -> (res: bool)
    requires
        i < leaves.len(),
        upto <= leaves.len(),
    ensures
        res == exists|k: int|
            0 <= k < upto && proper_prefix(
                leaves_view(leaves@)[i as int].segs,
                #[trigger] leaves_view(leaves@)[k].segs,
            ),
{
    let ghost ls = leaves_view(leaves@);
    for k in 0..upto
        invariant
            ls == leaves_view(leaves@),
            i < leaves.len(),
            upto <= leaves.len(),
            forall|kk: int| 0 <= kk < k ==> !proper_prefix(ls[i as int].segs, #[trigger] ls[kk].segs),
    {
        assert(ls[i as int] == leaves@[i as int]@);
        assert(ls[k as int] == leaves@[k as int]@);
        if strings_proper_prefix(&leaves[i].segs, &leaves[k].segs) {
            assert(proper_prefix(ls[i as int].segs, ls[k as int].segs));
            return true;
        }
    }
    false
}

/// Whether [`build_tree`] comes to an end on `leaves`.
pub fn is_buildable(leaves: &Vec<UseLeaf>) -> (res: bool)
    ensures
        res == buildable(leaves_view(leaves@)),
{
    let ghost ls = leaves_view(leaves@);
    let n = leaves.len();
    // distinct paths
    for i in 0..n
        invariant
            n == leaves.len(),
            ls == leaves_view(leaves@),
            forall|a: int, b: int|
                #![trigger ls[a].segs, ls[b].segs]
                0 <= a < i && 0 <= b < n && a != b ==> ls[a].segs != ls[b].segs,
    {
        for j in 0..n
            invariant
                n == leaves.len(),
                i < n,
                ls == leaves_view(leaves@),
                forall|a: int, b: int|
                    #![trigger ls[a].segs, ls[b].segs]
                    0 <= a < i && 0 <= b < n && a != b ==> ls[a].segs != ls[b].segs,
                forall|b: int| #![trigger ls[b].segs] 0 <= b < j && b != i ==> ls[i as int].segs != ls[b].segs,
        {
            assert(ls[i as int] == leaves@[i as int]@);
            assert(ls[j as int] == leaves@[j as int]@);
            if i != j && crate::path::strings_eq(&leaves[i].segs, &leaves[j].segs) {
                assert(ls[i as int].segs == ls[j as int].segs);
                assert(!distinct_paths(ls));
                return false;
            }
        }
        assert forall|a: int, b: int|
            #![trigger ls[a].segs, ls[b].segs]
            0 <= a < i + 1 && 0 <= b < n && a != b implies ls[a].segs != ls[b].segs by {
            if a == i {
                assert(ls[i as int].segs != ls[b].segs);
            }
        }
    }
    assert(distinct_paths(ls));
    // extended entries are preceded by an extension
    for i in 0..n
        invariant
            n == leaves.len(),
            ls == leaves_view(leaves@),
            forall|a: int, b: int|
                0 <= a < i && 0 <= b < n && ls[a].segs.len() > 0 && proper_prefix(
                    #[trigger] ls[a].segs,
                    #[trigger] ls[b].segs,
                ) ==> exists|k: int| 0 <= k < a && proper_prefix(ls[a].segs, #[trigger] ls[k].segs),
    {
        assert(ls[i as int] == leaves@[i as int]@);
        if leaves[i].segs.len() > 0 && extended_below(leaves, i, n) && !extended_below(leaves, i, i) {
            let ghost j = choose|j: int| 0 <= j < n && proper_prefix(ls[i as int].segs, #[trigger] ls[j].segs);
            assert(!extensions_preceded(ls)) by {
                assert(ls[i as int].segs.len() > 0);
                assert(proper_prefix(ls[i as int].segs, ls[j].segs));
            }
            return false;
        }
        assert forall|a: int, b: int|
            0 <= a < i + 1 && 0 <= b < n && ls[a].segs.len() > 0 && proper_prefix(
                #[trigger] ls[a].segs,
                #[trigger] ls[b].segs,
            ) implies exists|k: int| 0 <= k < a && proper_prefix(ls[a].segs, #[trigger] ls[k].segs) by {
            if a == i {
                assert(proper_prefix(ls[i as int].segs, ls[b].segs));
            }
        }
    }
    assert(extensions_preceded(ls));
    // non-empty segments
    for i in 0..n
        invariant
            n == leaves.len(),
            ls == leaves_view(leaves@),
            forall|a: int| 0 <= a < i ==> crate::path::segments_nonempty(#[trigger] ls[a].segs),
    {
        assert(ls[i as int] == leaves@[i as int]@);
        let segs = &leaves[i].segs;
        for k in 0..segs.len()
            invariant
                ls == leaves_view(leaves@),
                i < n,
                n == leaves.len(),
                segs == leaves@[i as int].segs,
                forall|kk: int| 0 <= kk < k ==> #[trigger] ls[i as int].segs[kk].len() > 0,
        {
            if segs[k].as_str().is_empty() {
                assert(ls[i as int].segs[k as int].len() == 0);
                return false;
            }
        }
        assert(crate::path::segments_nonempty(ls[i as int].segs));
    }
    true
}


/// A tree rebuilt from entries whose name or alias entries have non-empty
/// paths extended by no other entry holds exactly those entries.
pub proof fn lemma_rebuild_keeps_entries(ls: Seq<LeafView>, t: UseTree)
    requires
        forall|i: int|
            0 <= i < ls.len() ==> (#[trigger] ls[i]).kind is Glob || (ls[i].segs.len() > 0
                && !has_extension(ls, ls[i])),
        flatten(t, Seq::empty()).to_multiset() == rebuilt(ls).to_multiset(),
    ensures
        flatten(t, Seq::empty()).to_multiset() == ls.to_multiset(),
{
    assert forall|i: int| 0 <= i < ls.len() implies #[trigger] rebuilt(ls)[i] == ls[i] by {
        assert(ls[i].kind is Glob || (ls[i].segs.len() > 0 && !has_extension(ls, ls[i])));
    }
    assert(rebuilt(ls) =~= ls);
}

} // verus!
