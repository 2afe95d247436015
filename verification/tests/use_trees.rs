use cargo_refactor_lib::path::RustPath;
use cargo_refactor_lib::rename::Rename;
use cargo_refactor_lib::rewriter::{Rewriter, Warning};
use cargo_refactor_lib::rebuild::{build_group_at, build_tree, build_tree_inner, is_buildable};
use cargo_refactor_lib::use_tree::{collect_leaves, Leaf, UseLeaf, UseTree};

fn p(s: &str) -> RustPath {
    RustPath::parse(s).unwrap()
}

fn rename(from: &str, to: &str) -> Rename {
    Rename::new_rename(p(from), p(to))
}

fn mv(from: &str, to: &str) -> Rename {
    Rename::new_move(p(from), p(to))
}

fn path(segs: &[&str], end: UseTree) -> UseTree {
    let mut t = end;
    for s in segs.iter().rev() {
        t = UseTree::Path(s.to_string(), Box::new(t));
    }
    t
}

fn name(s: &str) -> UseTree {
    UseTree::Name(s.to_string())
}

fn alias(s: &str, a: &str) -> UseTree {
    UseTree::Rename(s.to_string(), a.to_string())
}

fn strings(v: &[&str]) -> Vec<String> {
    v.iter().map(|s| s.to_string()).collect()
}

fn leaves_of(t: &UseTree) -> Vec<UseLeaf> {
    let mut prefix = Vec::new();
    let mut out = Vec::new();
    collect_leaves(t, &mut prefix, &mut out);
    out
}

fn rewrite(r: &Rename, t: &mut UseTree) -> (bool, bool, Vec<Warning>) {
    let mut rw = Rewriter::new(r);
    assert!(rw.use_tree_rewritable(t));
    rw.rewrite_use_tree(t);
    (rw.changed, rw.short_name_bound, rw.warnings.clone())
}

#[test]
fn collect_flattens_groups() {
    let t = path(
        &["a", "b"],
        UseTree::Group(vec![path(&["c"], name("X")), path(&["d"], alias("Y", "Z")), path(&["e"], UseTree::Glob)]),
    );
    let ls = leaves_of(&t);
    assert_eq!(
        ls,
        vec![
            UseLeaf { segs: strings(&["a", "b", "c", "X"]), leaf: Leaf::Name },
            UseLeaf { segs: strings(&["a", "b", "d", "Y"]), leaf: Leaf::Alias("Z".to_string()) },
            UseLeaf { segs: strings(&["a", "b", "e"]), leaf: Leaf::Glob },
        ]
    );
}

#[test]
fn use_tree_rename_simple() {
    let mut t = path(&["a", "b", "c"], name("OldName"));
    let (changed, short, warnings) = rewrite(&rename("a::b::c::OldName", "a::b::c::NewName"), &mut t);
    assert!(changed);
    assert!(short);
    assert!(warnings.is_empty());
    assert_eq!(t, path(&["a", "b", "c"], name("NewName")));
}

#[test]
fn use_tree_rename_grouped() {
    let mut t = path(&["a", "b", "c"], UseTree::Group(vec![name("OldName"), name("Other")]));
    rewrite(&rename("a::b::c::OldName", "a::b::c::NewName"), &mut t);
    assert_eq!(t, path(&["a", "b", "c"], UseTree::Group(vec![name("NewName"), name("Other")])));
}

#[test]
fn use_tree_rename_alias() {
    let mut t = path(&["a", "b", "c"], alias("OldName", "Alias"));
    let (changed, short, _) = rewrite(&rename("a::b::c::OldName", "a::b::c::NewName"), &mut t);
    assert!(changed);
    // an alias keeps its own name in the file
    assert!(!short);
    assert_eq!(t, path(&["a", "b", "c"], alias("NewName", "Alias")));
}

#[test]
fn use_tree_rename_nested_grouped() {
    let mut t = path(
        &["a", "b"],
        UseTree::Group(vec![path(&["c"], name("OldName")), path(&["d"], name("Other"))]),
    );
    rewrite(&rename("a::b::c::OldName", "a::b::c::NewName"), &mut t);
    assert_eq!(
        t,
        path(&["a", "b"], UseTree::Group(vec![path(&["c"], name("NewName")), path(&["d"], name("Other"))]))
    );
}

#[test]
fn use_tree_move_to_shorter_module() {
    let mut t = path(&["a", "b", "c"], name("OldName"));
    rewrite(&mv("a::b::c::OldName", "x::NewName"), &mut t);
    assert_eq!(t, path(&["x"], name("NewName")));
}

#[test]
fn use_tree_below_item_moves_too() {
    let mut t = path(&["a", "b", "OldName"], name("SubItem"));
    let (changed, short, _) = rewrite(&rename("a::b::OldName", "a::b::NewName"), &mut t);
    assert!(changed);
    assert!(!short);
    assert_eq!(t, path(&["a", "b", "NewName"], name("SubItem")));
}

#[test]
fn use_tree_unrelated_is_untouched() {
    let mut t = path(&["std", "fmt"], name("Debug"));
    let (changed, short, warnings) = rewrite(&rename("a::b::OldName", "a::b::NewName"), &mut t);
    assert!(!changed);
    assert!(!short);
    assert!(warnings.is_empty());
    assert_eq!(t, path(&["std", "fmt"], name("Debug")));
}

#[test]
fn use_tree_split_group_when_module_changes() {
    let mut t = path(&["a", "b", "c"], UseTree::Group(vec![name("OldName"), name("Other")]));
    rewrite(&mv("a::b::c::OldName", "x::y::OldName"), &mut t);
    let mut leaves: Vec<Vec<String>> = leaves_of(&t).into_iter().map(|l| l.segs).collect();
    leaves.sort();
    assert_eq!(leaves, vec![strings(&["a", "b", "c", "Other"]), strings(&["x", "y", "OldName"])]);
}

#[test]
fn glob_of_parent_warns_once() {
    let r = rename("a::b::c::OldName", "a::b::c::NewName");
    let mut rw = Rewriter::new(&r);
    let mut t1 = path(&["a", "b", "c"], UseTree::Glob);
    let mut t2 = path(&["a", "b", "c"], UseTree::Glob);
    rw.rewrite_use_tree(&mut t1);
    rw.rewrite_use_tree(&mut t2);
    assert!(rw.glob_warning);
    assert!(!rw.changed);
    assert_eq!(
        rw.warnings,
        vec![Warning {
            message: "glob use (use a::b::c::*) found — short name bindings cannot be tracked, manual check required"
                .to_string()
        }]
    );
    assert_eq!(t1, path(&["a", "b", "c"], UseTree::Glob));
}

#[test]
fn build_tree_shares_common_segments() {
    let leaves = vec![
        UseLeaf { segs: strings(&["a", "b", "X"]), leaf: Leaf::Name },
        UseLeaf { segs: strings(&["a", "c", "Y"]), leaf: Leaf::Name },
        UseLeaf { segs: strings(&["a", "b", "Z"]), leaf: Leaf::Alias("W".to_string()) },
    ];
    assert!(is_buildable(&leaves));
    let t = build_tree(leaves);
    assert_eq!(
        t,
        path(
            &["a"],
            UseTree::Group(vec![
                path(&["b"], UseTree::Group(vec![name("X"), alias("Z", "W")])),
                path(&["c"], name("Y")),
            ])
        )
    );
}

#[test]
fn build_tree_glob_after_sibling() {
    let leaves = vec![
        UseLeaf { segs: strings(&["a", "B"]), leaf: Leaf::Name },
        UseLeaf { segs: strings(&["a"]), leaf: Leaf::Glob },
    ];
    assert!(is_buildable(&leaves));
    let t = build_tree(leaves);
    assert_eq!(t, path(&["a"], UseTree::Group(vec![name("B"), UseTree::Glob])));
}

#[test]
fn build_tree_names_extended_entry_underscore() {
    let leaves = vec![
        UseLeaf { segs: strings(&["a", "b", "c"]), leaf: Leaf::Name },
        UseLeaf { segs: strings(&["a", "b"]), leaf: Leaf::Name },
    ];
    assert!(is_buildable(&leaves));
    let t = build_tree(leaves);
    assert_eq!(t, path(&["a", "b"], UseTree::Group(vec![name("c"), name("_")])));
}

#[test]
fn unbuildable_entries_are_detected() {
    // the extended entry comes first
    let first = vec![
        UseLeaf { segs: strings(&["a"]), leaf: Leaf::Glob },
        UseLeaf { segs: strings(&["a", "B"]), leaf: Leaf::Name },
    ];
    assert!(!is_buildable(&first));
    // two entries with one path
    let dup = vec![
        UseLeaf { segs: strings(&["a", "X"]), leaf: Leaf::Name },
        UseLeaf { segs: strings(&["a", "X"]), leaf: Leaf::Name },
    ];
    assert!(!is_buildable(&dup));
    // an empty segment
    let empty = vec![UseLeaf { segs: strings(&["a", ""]), leaf: Leaf::Name }];
    assert!(!is_buildable(&empty));
}

#[test]
fn rewrite_into_duplicate_is_not_rewritable() {
    let r = rename("a::Old", "a::New");
    let rw = Rewriter::new(&r);
    let t = path(&["a"], UseTree::Group(vec![name("Old"), name("New")]));
    assert!(!rw.use_tree_rewritable(&t));
}

#[test]
fn rename_then_rename_back_restores_entries() {
    let original = path(&["a", "b", "c"], UseTree::Group(vec![name("OldName"), name("Other")]));
    let mut t = path(&["a", "b", "c"], UseTree::Group(vec![name("OldName"), name("Other")]));
    rewrite(&rename("a::b::c::OldName", "a::b::c::NewName"), &mut t);
    rewrite(&rename("a::b::c::NewName", "a::b::c::OldName"), &mut t);
    assert_eq!(t, original);
}

#[test]
fn rebuilt_tree_keeps_entries() {
    let t = path(
        &["m"],
        UseTree::Group(vec![path(&["x"], name("A")), path(&["y"], UseTree::Glob), alias("B", "C")]),
    );
    let before = leaves_of(&t);
    let mut again = Vec::new();
    for l in &before {
        again.push(UseLeaf { segs: l.segs.clone(), leaf: match &l.leaf {
            Leaf::Name => Leaf::Name,
            Leaf::Alias(a) => Leaf::Alias(a.clone()),
            Leaf::Glob => Leaf::Glob,
        } });
    }
    let rebuilt = build_tree(again);
    assert_eq!(leaves_of(&rebuilt), before);
}

#[test]
fn no_entry_left_below_from() {
    let mut t = path(
        &["a"],
        UseTree::Group(vec![path(&["Old"], name("Inner")), name("Old"), path(&["z"], name("K"))]),
    );
    rewrite(&rename("a::Old", "b::New"), &mut t);
    for l in leaves_of(&t) {
        assert!(!(l.segs.len() >= 2 && l.segs[0] == "a" && l.segs[1] == "Old"), "{:?}", l);
    }
}

#[test]
fn group_of_one_entry() {
    let leaves = vec![UseLeaf { segs: strings(&["a", "b"]), leaf: Leaf::Name }];
    assert_eq!(build_group_at(&leaves, 0), UseTree::Group(vec![path(&["a"], name("b"))]));
}

#[test]
fn group_of_entries_sharing_the_segment() {
    let leaves = vec![
        UseLeaf { segs: strings(&["a", "b", "c"]), leaf: Leaf::Name },
        UseLeaf { segs: strings(&["a", "b", "d"]), leaf: Leaf::Name },
    ];
    assert_eq!(
        build_group_at(&leaves, 1),
        UseTree::Group(vec![path(&["b"], UseTree::Group(vec![name("c"), name("d")]))])
    );
}

#[test]
fn tree_of_one_entry_below_a_depth() {
    let leaves = vec![UseLeaf { segs: strings(&["a", "b", "c"]), leaf: Leaf::Name }];
    assert_eq!(build_tree_inner(&leaves, 1), path(&["b"], name("c")));
    let whole = vec![UseLeaf { segs: strings(&["a", "b"]), leaf: Leaf::Alias("x".to_string()) }];
    assert_eq!(build_tree_inner(&whole, 2), alias("_", "x"));
}

#[test]
fn group_below_an_empty_leading_segment() {
    let leaves = vec![
        UseLeaf { segs: strings(&["", "a"]), leaf: Leaf::Name },
        UseLeaf { segs: strings(&["", "b"]), leaf: Leaf::Name },
    ];
    assert_eq!(build_group_at(&leaves, 1), UseTree::Group(vec![name("a"), name("b")]));
}

#[test]
fn group_with_an_entry_ending_at_the_depth() {
    let leaves = vec![
        UseLeaf { segs: strings(&["m"]), leaf: Leaf::Name },
        UseLeaf { segs: strings(&["m", "y"]), leaf: Leaf::Name },
    ];
    assert_eq!(build_group_at(&leaves, 1), UseTree::Group(vec![name("_"), name("y")]));
}
