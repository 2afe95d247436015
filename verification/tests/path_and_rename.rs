use cargo_refactor_lib::path::RustPath;
use cargo_refactor_lib::rename::{Rename, RenameKind};

fn p(s: &str) -> RustPath {
    RustPath::parse(s).unwrap()
}

fn segs(v: &[&str]) -> RustPath {
    RustPath(v.iter().map(|s| s.to_string()).collect())
}

#[test]
fn parse_splits_segments() {
    assert_eq!(p("a::b::c::OldName"), segs(&["a", "b", "c", "OldName"]));
    assert_eq!(p("Single"), segs(&["Single"]));
}

#[test]
fn parse_rejects_empty_path() {
    assert_eq!(RustPath::parse(""), Err("path must not be empty".to_string()));
}

#[test]
fn parse_rejects_empty_segment() {
    assert_eq!(
        RustPath::parse("a::::b"),
        Err("invalid path segment in 'a::::b'".to_string())
    );
    assert_eq!(RustPath::parse("::a"), Err("invalid path segment in '::a'".to_string()));
    assert_eq!(RustPath::parse("a::"), Err("invalid path segment in 'a::'".to_string()));
}

#[test]
fn parse_splits_left_to_right() {
    // ":::" holds one separator, the colon left over stays in the segment
    assert_eq!(p("a:::b"), segs(&["a", ":b"]));
}

#[test]
fn last_and_parent() {
    let path = p("a::b::c");
    assert_eq!(path.last(), "c");
    assert_eq!(path.parent(), Some(p("a::b")));
    assert_eq!(p("a").parent(), None);
}

#[test]
fn prefix_and_rewrite_prefix() {
    let path = p("a::b::c::D");
    assert!(p("a::b").is_prefix_of(&path));
    assert!(path.is_prefix_of(&path));
    assert!(!p("a::x").is_prefix_of(&path));
    assert!(!path.is_prefix_of(&p("a::b")));
    assert_eq!(path.rewrite_prefix(&p("a::b"), &p("x")), Some(p("x::c::D")));
    assert_eq!(path.rewrite_prefix(&p("a::x"), &p("y")), None);
}

#[test]
fn to_string_joins_segments() {
    assert_eq!(p("a::b::c").to_string(), "a::b::c");
    assert_eq!(segs(&[]).to_string(), "");
}

#[test]
fn to_string_of_parse_gives_text_back() {
    for text in ["a::b::c::OldName", "x", "crate::m::Item"] {
        assert_eq!(p(text).to_string(), text);
    }
}

#[test]
fn parse_of_to_string_gives_path_back() {
    let path = segs(&["a", "b", "Name"]);
    assert_eq!(RustPath::parse(&path.to_string()), Ok(path));
}

#[test]
fn rename_kinds() {
    let r = Rename::new_rename(p("a::Old"), p("a::New"));
    assert_eq!(r.kind, RenameKind::RenameOnly);
    assert!(r.name_changed());
    assert_eq!(r.old_name(), "Old");
    assert_eq!(r.new_name(), "New");

    let m = Rename::new_move(p("a::b::Foo"), p("x::Foo"));
    assert_eq!(m.kind, RenameKind::MoveOnly);
    assert!(!m.name_changed());

    let mr = Rename::new_move(p("a::b::Old"), p("x::New"));
    assert_eq!(mr.kind, RenameKind::MoveAndRename);
    assert!(mr.name_changed());
}

#[test]
fn rewrite_prefix_back_gives_path_again() {
    let path = p("a::b::c::D");
    let moved = path.rewrite_prefix(&p("a::b"), &p("x::y::z")).unwrap();
    assert_eq!(moved, p("x::y::z::c::D"));
    assert_eq!(moved.rewrite_prefix(&p("x::y::z"), &p("a::b")), Some(path));
}
