use route_lint::context::Context;
use route_lint::diagnostic::{CharRange, Position, Range};
use route_lint::path::{bytes_equal, normalize_path, resolve_path, unquote_literal};
use route_lint::routes::{array_paths_of, declared_path_of, object_keys_of, route_context_of};
use route_lint::snippet::{count_chars, get_slice_source_and_range};
use route_lint::syntax::{NodeKind, Span, SyntaxTree, TreeError};

fn b(s: &str) -> Vec<u8> {
    s.as_bytes().to_vec()
}

fn resolve(parent: &str, seg: &str) -> String {
    String::from_utf8(resolve_path(&b(parent), &b(seg))).unwrap()
}

#[test]
fn bare_segment_appends_after_slash() {
    assert_eq!(resolve("/a", "b"), "/a/b");
    assert_eq!(resolve("/", "a"), "/a");
    assert_eq!(resolve("/a/b", "c"), "/a/b/c");
}

#[test]
fn dot_segment_is_relative_to_parent() {
    assert_eq!(resolve("/a", "./"), "/a");
    assert_eq!(resolve("/a", "./b"), "/a/b");
    assert_eq!(resolve("/", "./"), "/");
    assert_eq!(resolve("/a", "."), "/a");
}

#[test]
fn absolute_segment_stands_alone() {
    assert_eq!(resolve("/a", "/b"), "/b");
    assert_eq!(resolve("/a", "/"), "/");
}

#[test]
fn normalize_collapses_and_trims() {
    let n = |s: &str| String::from_utf8(normalize_path(&b(s))).unwrap();
    assert_eq!(n("//a///b/"), "/a/b");
    assert_eq!(n("/"), "/");
    assert_eq!(n("///"), "/");
    assert_eq!(n(""), "");
}

#[test]
fn unquote_drops_outer_quotes() {
    assert_eq!(unquote_literal(&b("'/a'")), b("/a"));
    assert_eq!(unquote_literal(&b("\"x\"")), b("x"));
    assert_eq!(unquote_literal(&b("'")), b(""));
}

#[test]
fn bytes_equal_compares_contents() {
    assert!(bytes_equal(&b("/a"), &b("/a")));
    assert!(!bytes_equal(&b("/a"), &b("/b")));
    assert!(!bytes_equal(&b("/a"), &b("/a/")));
}

/// `[{path:'/a', routes:[{path:'b', name:'n'}]}]` laid out by hand.
fn nested() -> (SyntaxTree, [usize; 4]) {
    let text = "[{path:'/a', routes:[{path:'b', name:'n'}]}]";
    let mut t = SyntaxTree::new(text.to_string(), NodeKind::Module, 0, text.len()).unwrap();
    let outer = t.add_node(0, NodeKind::ArrayLit, 0, 44).unwrap();
    let e1 = t.add_node(outer, NodeKind::ExprOrSpread, 1, 43).unwrap();
    let o1 = t.add_node(e1, NodeKind::ObjectLit, 1, 43).unwrap();
    let p1 = t.add_node(o1, NodeKind::KeyValueProp, 2, 11).unwrap();
    t.add_node(p1, NodeKind::Ident, 2, 6).unwrap();
    t.add_node(p1, NodeKind::Str, 7, 11).unwrap();
    let r1 = t.add_node(o1, NodeKind::KeyValueProp, 13, 42).unwrap();
    t.add_node(r1, NodeKind::Ident, 13, 19).unwrap();
    let inner = t.add_node(r1, NodeKind::ArrayLit, 20, 42).unwrap();
    let e2 = t.add_node(inner, NodeKind::ExprOrSpread, 21, 41).unwrap();
    let o2 = t.add_node(e2, NodeKind::ObjectLit, 21, 41).unwrap();
    let p2 = t.add_node(o2, NodeKind::KeyValueProp, 22, 30).unwrap();
    t.add_node(p2, NodeKind::Ident, 22, 26).unwrap();
    t.add_node(p2, NodeKind::Str, 27, 30).unwrap();
    let n2 = t.add_node(o2, NodeKind::KeyValueProp, 32, 40).unwrap();
    t.add_node(n2, NodeKind::Ident, 32, 36).unwrap();
    t.add_node(n2, NodeKind::Str, 37, 40).unwrap();
    (t, [outer, o1, inner, o2])
}

#[test]
fn tree_builder_keeps_links() {
    let (t, [outer, o1, inner, o2]) = nested();
    assert_eq!(t.kind(outer), NodeKind::ArrayLit);
    assert_eq!(t.parent(outer), Some(0));
    assert_eq!(t.parent(0), None);
    assert_eq!(t.children(o1).len(), 2);
    assert_eq!(t.kind(inner), NodeKind::ArrayLit);
    assert_eq!(t.text(o2), b("{path:'b', name:'n'}"));
    assert!(t.text_is(t.children(o2)[0], b"path:'b'"));
    assert_eq!(t.span(inner), Span { lo: 20, hi: 42 });
    assert_eq!(t.len(), 18);
}

#[test]
fn tree_builder_rejects_bad_nodes() {
    let (mut t, [outer, _, _, o2]) = nested();
    let p1 = 4;
    let n = t.len();
    assert_eq!(t.add_node(n, NodeKind::Other, 0, 0), Err(TreeError::UnknownParent));
    assert_eq!(t.add_node(p1, NodeKind::Other, 3, 3), Err(TreeError::NotInPreOrder));
    assert_eq!(t.add_node(o2, NodeKind::Other, 10, 12), Err(TreeError::SpanOutsideParent));
    assert_eq!(t.add_node(o2, NodeKind::Other, 39, 40), Err(TreeError::SpanBeforeSibling));
    assert_eq!(t.len(), n);
    assert_eq!(t.add_node(outer, NodeKind::Other, 43, 43), Ok(n));
}

#[test]
fn tree_needs_text_without_bom_and_a_fitting_root() {
    assert_eq!(SyntaxTree::new("\u{feff}[]".to_string(), NodeKind::Module, 0, 2).err(), Some(TreeError::ByteOrderMark));
    assert_eq!(SyntaxTree::new("[]".to_string(), NodeKind::Module, 0, 3).err(), Some(TreeError::SpanOutOfSource));
    assert_eq!(SyntaxTree::new("[]".to_string(), NodeKind::Module, 2, 1).err(), Some(TreeError::SpanOutOfSource));
    assert!(SyntaxTree::new("[]".to_string(), NodeKind::Module, 0, 2).is_ok());
}

#[test]
fn route_queries_follow_ancestors() {
    let (t, [outer, o1, inner, o2]) = nested();
    assert_eq!(declared_path_of(&t, o1), Some(b("/a")));
    assert_eq!(declared_path_of(&t, o2), Some(b("b")));
    assert_eq!(declared_path_of(&t, outer), None);
    assert_eq!(route_context_of(&t, outer), b("/"));
    assert_eq!(route_context_of(&t, inner), b("/a"));
    assert_eq!(route_context_of(&t, o2), b("/a"));
    assert_eq!(array_paths_of(&t, outer), vec![b("/a")]);
    assert_eq!(array_paths_of(&t, inner), vec![b("/a/b")]);
    assert_eq!(object_keys_of(&t, o2), Some(vec![b("path"), b("name")]));
}

#[test]
fn char_range_as_tuple() {
    let c = CharRange { start_index: 3, end_index: 7 };
    assert_eq!(c.as_tuple(), (3, 7));
}

#[test]
fn position_new_keeps_fields() {
    let p = Position::new(12, 1, 4);
    assert_eq!(p, Position { line_index: 1, column_index: 4, byte_pos: 12 });
}

#[test]
fn count_chars_counts_characters_not_bytes() {
    let s = "a路由b".as_bytes();
    assert_eq!(count_chars(s, 0, s.len()), 4);
    assert_eq!(count_chars(s, 1, 4), 1);
    assert_eq!(count_chars(s, 2, 2), 0);
}

#[test]
fn slice_covers_the_lines_of_a_range() {
    let text = "ab\n路c\nxyz";
    let t = SyntaxTree::new(text.to_string(), NodeKind::Module, 0, text.len()).unwrap();
    let start = Position { line_index: 1, column_index: 1, byte_pos: 6 };
    let end = Position { line_index: 2, column_index: 1, byte_pos: 9 };
    let (span, chars) = get_slice_source_and_range(&t, &Range { start, end }).unwrap();
    assert_eq!(span, Span { lo: 3, hi: 11 });
    assert_eq!(chars.as_tuple(), (1, 4));
    let past = Position { line_index: 3, column_index: 0, byte_pos: 11 };
    assert!(get_slice_source_and_range(&t, &Range { start, end: past }).is_none());
}

#[test]
fn context_adds_and_reads_back() {
    let text = "let x = [];\nlet y = 1;";
    let t = SyntaxTree::new(text.to_string(), NodeKind::Script, 0, text.len()).unwrap();
    let mut ctx = Context::new("a.ts".to_string(), deno_ast::MediaType::TypeScript, t);
    assert_eq!(ctx.file_name(), "a.ts");
    assert_eq!(ctx.media_type(), deno_ast::MediaType::TypeScript);
    assert_eq!(ctx.source_file(), text);
    assert_eq!(ctx.file_text_substring(&Span { lo: 8, hi: 10 }), "[]");
    ctx.add_diagnostic(Span { lo: 8, hi: 10 }, "c1", "m1");
    ctx.add_diagnostic_with_hint(Span { lo: 12, hi: 15 }, "c2", "m2", "h2");
    let ds = ctx.diagnostics();
    assert_eq!(ds.len(), 2);
    assert_eq!((ds[0].code.as_str(), ds[0].message.as_str(), ds[0].hint.clone()), ("c1", "m1", None));
    assert_eq!(ds[1].hint.as_deref(), Some("h2"));
    assert_eq!(ds[1].range.start, Position { line_index: 1, column_index: 0, byte_pos: 12 });
    assert_eq!(ds[1].range.end, Position { line_index: 1, column_index: 3, byte_pos: 15 });
    assert_eq!(ctx.program().len(), 1);
}

#[test]
fn object_with_keyless_member_has_no_key_set() {
    let text = "{...rest}";
    let mut t = SyntaxTree::new(text.to_string(), NodeKind::Module, 0, text.len()).unwrap();
    let o = t.add_node(0, NodeKind::ObjectLit, 0, 9).unwrap();
    t.add_node(o, NodeKind::Other, 1, 8).unwrap();
    assert_eq!(object_keys_of(&t, o), None);
}
