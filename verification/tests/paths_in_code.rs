use cargo_refactor_lib::path::RustPath;
use cargo_refactor_lib::rename::Rename;
use cargo_refactor_lib::rewriter::{kept_arguments, Rewriter};
use cargo_refactor_lib::use_tree::UseTree;

fn p(s: &str) -> RustPath {
    RustPath::parse(s).unwrap()
}

fn segs(s: &str) -> Vec<String> {
    s.split("::").map(|x| x.to_string()).collect()
}

fn use_of(path: &str) -> UseTree {
    let parts = segs(path);
    let mut t = UseTree::Name(parts[parts.len() - 1].clone());
    for s in parts[..parts.len() - 1].iter().rev() {
        t = UseTree::Path(s.clone(), Box::new(t));
    }
    t
}

#[test]
fn absolute_path_is_rewritten() {
    let r = Rename::new_rename(p("a::b::c::OldName"), p("a::b::c::NewName"));
    let mut rw = Rewriter::new(&r);
    assert_eq!(rw.rewrite_path(&segs("a::b::c::OldName")), Some(segs("a::b::c::NewName")));
    assert_eq!(rw.rewrite_path(&segs("a::b::c::OldName::new")), Some(segs("a::b::c::NewName::new")));
    assert!(rw.changed);
}

#[test]
fn short_name_after_use_is_renamed() {
    let r = Rename::new_rename(p("a::b::c::OldName"), p("a::b::c::NewName"));
    let mut rw = Rewriter::new(&r);
    // before the use declaration binds it, the short name is left alone
    assert_eq!(rw.rewrite_path(&segs("OldName::new")), None);
    assert!(!rw.changed);
    let mut t = use_of("a::b::c::OldName");
    rw.rewrite_use_tree(&mut t);
    assert!(rw.short_name_bound);
    assert_eq!(rw.rewrite_path(&segs("OldName::new")), Some(segs("NewName::new")));
    assert_eq!(rw.rewrite_path(&segs("Other::new")), None);
}

#[test]
fn move_keeps_short_name() {
    let r = Rename::new_move(p("a::b::c::Foo"), p("x::y::Foo"));
    let mut rw = Rewriter::new(&r);
    let mut t = use_of("a::b::c::Foo");
    rw.rewrite_use_tree(&mut t);
    assert_eq!(t, use_of("x::y::Foo"));
    assert!(!rw.short_name_bound);
    assert_eq!(rw.rewrite_path(&segs("Foo::new")), None);
}

#[test]
fn move_and_rename_renames_short_name() {
    let r = Rename::new_move(p("a::b::c::OldName"), p("x::y::NewName"));
    let mut rw = Rewriter::new(&r);
    let mut t = use_of("a::b::c::OldName");
    rw.rewrite_use_tree(&mut t);
    assert_eq!(t, use_of("x::y::NewName"));
    assert!(rw.short_name_bound);
    assert_eq!(rw.rewrite_path(&segs("OldName::new")), Some(segs("NewName::new")));
}

#[test]
fn different_module_depth_path() {
    let r = Rename::new_move(p("a::b::c::OldName"), p("x::NewName"));
    let mut rw = Rewriter::new(&r);
    assert_eq!(rw.rewrite_path(&segs("a::b::c::OldName")), Some(segs("x::NewName")));
    assert_eq!(rw.rewrite_path(&segs("a::b::c")), None);
}

#[test]
fn file_parts_take_uses_before_paths() {
    let r = Rename::new_rename(p("a::b::OldName"), p("a::b::NewName"));
    let mut rw = Rewriter::new(&r);
    // every `use` tree is decided before any path, so the first path sees
    // the short name bound by the second declaration
    let paths = vec![segs("OldName::new"), segs("x::y"), segs("a::b::OldName")];
    let (trees, decisions) = rw.rewrite_parts(vec![use_of("x::Other"), use_of("a::b::OldName")], &paths);
    assert_eq!(trees, vec![use_of("x::Other"), use_of("a::b::NewName")]);
    assert_eq!(decisions, vec![Some(segs("NewName::new")), None, Some(segs("a::b::NewName"))]);
    assert!(rw.changed);
    assert!(rw.short_name_bound);
    assert!(rw.warnings.is_empty());
}

#[test]
fn file_parts_without_uses_leave_short_names() {
    let r = Rename::new_rename(p("a::b::OldName"), p("a::b::NewName"));
    let mut rw = Rewriter::new(&r);
    let (trees, decisions) = rw.rewrite_parts(vec![], &vec![segs("OldName::new")]);
    assert!(trees.is_empty());
    assert_eq!(decisions, vec![None]);
    assert!(!rw.changed);
}

#[test]
fn generic_arguments_kept_by_position() {
    assert_eq!(kept_arguments(2, 3), vec![Some(0), Some(1), None]);
    assert_eq!(kept_arguments(3, 1), vec![Some(0)]);
    assert_eq!(kept_arguments(0, 0), Vec::<Option<usize>>::new());
}
