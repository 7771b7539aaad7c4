use route_lint::context::Context;
use route_lint::diagnostic::LintDiagnostic;
use route_lint::rules::children_key::ChildrenKey;
use route_lint::rules::redirect::RedirectKeys;
use route_lint::rules::repeat::RepeatPath;
use route_lint::rules::{get_all_rules_raw, run_rules, LintRule, Rule};
use route_lint::syntax::{NodeKind, SyntaxTree};

/// A literal as the parser shapes it: kind, byte span, children.
struct Lit {
    kind: NodeKind,
    lo: usize,
    hi: usize,
    children: Vec<Lit>,
}

/// Reads the object and array literals of a route configuration, the way
/// the parser lays them out: array elements sit in `ExprOrSpread` nodes,
/// object members are `KeyValueProp` nodes with a key and a value.
struct Reader<'a> {
    b: &'a [u8],
    i: usize,
}

impl<'a> Reader<'a> {
    fn skip_ws(&mut self) {
        while self.i < self.b.len() && (self.b[self.i] as char).is_whitespace() {
            self.i += 1;
        }
    }

    fn eat(&mut self, c: u8) {
        self.skip_ws();
        assert_eq!(self.b[self.i], c, "expected {} at {}", c as char, self.i);
        self.i += 1;
    }

    fn peek(&mut self) -> u8 {
        self.skip_ws();
        self.b[self.i]
    }

    fn ident(&mut self) -> Lit {
        self.skip_ws();
        let lo = self.i;
        while self.i < self.b.len()
            && ((self.b[self.i] as char).is_alphanumeric() || self.b[self.i] == b'_' || self.b[self.i] == b'$')
        {
            self.i += 1;
        }
        assert!(self.i > lo, "expected an identifier at {}", lo);
        Lit { kind: NodeKind::Ident, lo, hi: self.i, children: vec![] }
    }

    fn value(&mut self) -> Lit {
        match self.peek() {
            b'[' => {
                let lo = self.i;
                self.i += 1;
                let mut children = vec![];
                while self.peek() != b']' {
                    let v = self.value();
                    children.push(Lit { kind: NodeKind::ExprOrSpread, lo: v.lo, hi: v.hi, children: vec![v] });
                    if self.peek() == b',' {
                        self.i += 1;
                    }
                }
                self.eat(b']');
                Lit { kind: NodeKind::ArrayLit, lo, hi: self.i, children }
            }
            b'{' => {
                let lo = self.i;
                self.i += 1;
                let mut children = vec![];
                while self.peek() != b'}' {
                    let key = self.ident();
                    if self.peek() == b':' {
                        self.i += 1;
                        let v = self.value();
                        let (klo, vhi) = (key.lo, v.hi);
                        children.push(Lit { kind: NodeKind::KeyValueProp, lo: klo, hi: vhi, children: vec![key, v] });
                    } else {
                        children.push(key);
                    }
                    if self.peek() == b',' {
                        self.i += 1;
                    }
                }
                self.eat(b'}');
                Lit { kind: NodeKind::ObjectLit, lo, hi: self.i, children }
            }
            q @ (b'\'' | b'"') => {
                let lo = self.i;
                self.i += 1;
                while self.b[self.i] != q {
                    self.i += 1;
                }
                self.i += 1;
                Lit { kind: NodeKind::Str, lo, hi: self.i, children: vec![] }
            }
            _ => self.ident(),
        }
    }
}

fn add_all(tree: &mut SyntaxTree, parent: usize, lit: &Lit) {
    let id = tree.add_node(parent, lit.kind, lit.lo, lit.hi).expect("node in pre-order");
    for c in &lit.children {
        add_all(tree, id, c);
    }
}

/// A module `export default <config>;` as a tree.
fn module(config: &str) -> SyntaxTree {
    let text = format!("export default {};\n", config);
    let start = "export default ".len();
    let lit = {
        let mut r = Reader { b: text.as_bytes(), i: start };
        r.value()
    };
    let mut tree = SyntaxTree::new(text.clone(), NodeKind::Module, 0, text.len()).expect("tree");
    let export = tree.add_node(0, NodeKind::ExportDefaultExpr, 0, text.len() - 2).expect("export");
    add_all(&mut tree, export, &lit);
    tree
}

fn context(config: &str) -> Context {
    Context::new("routes.ts".to_string(), deno_ast::MediaType::TypeScript, module(config))
}

fn lint<R: LintRule>(rule: R, config: &str) -> Vec<LintDiagnostic> {
    let mut ctx = context(config);
    rule.lint_program(&mut ctx);
    ctx.diagnostics().to_vec()
}

fn inner_array_lo(config: &str, nth: usize) -> usize {
    "export default ".len() + config.match_indices('[').nth(nth).unwrap().0
}

#[test]
fn children_key_flags_each_object_once() {
    let config = "[{path:'/a', children:[{path:'b'}], component:'A', name:'a'}, {path:'/c', children:[]}]";
    let ds = lint(ChildrenKey, config);
    assert_eq!(ds.len(), 2);
    for d in &ds {
        assert_eq!(d.code, "no-use-children");
        assert_eq!(d.hint, None);
        assert_eq!(d.filename, "routes.ts");
    }
    assert_eq!(ds[0].range.start.byte_pos, "export default [".len());
    assert!(ds[0].range.start.byte_pos < ds[1].range.start.byte_pos);
}

#[test]
fn children_key_ignores_routes_key() {
    let ds = lint(ChildrenKey, "[{path:'/a', routes:[{path:'b'}]}]");
    assert!(ds.is_empty());
}

#[test]
fn children_key_counts_shorthand_members() {
    let ds = lint(ChildrenKey, "[{children, path:'/a'}]");
    assert_eq!(ds.len(), 1);
}

#[test]
fn redirect_with_component_is_flagged() {
    let ds = lint(RedirectKeys, "[{path:'/', redirect:'/home', component:'Home'}]");
    assert_eq!(ds.len(), 1);
    assert_eq!(ds[0].code, "redirect-only-has-redirect-and-path");
    assert_eq!(ds[0].range.start.byte_pos, "export default [".len());
}

#[test]
fn redirect_with_path_only_passes() {
    assert!(lint(RedirectKeys, "[{path:'/', redirect:'/home'}]").is_empty());
    assert!(lint(RedirectKeys, "[{redirect:'/home'}]").is_empty());
}

#[test]
fn redirect_without_path_passes() {
    assert!(lint(RedirectKeys, "[{redirect:'/home', component:'Home', name:'h'}]").is_empty());
}

#[test]
fn redirect_counts_distinct_keys() {
    assert!(lint(RedirectKeys, "[{path:'/', redirect:'/a', redirect:'/b'}]").is_empty());
}

#[test]
fn repeat_two_roots_collide() {
    let config = "[{path:'/'}, {path:'/'}]";
    let ds = lint(RepeatPath, config);
    assert_eq!(ds.len(), 1);
    assert_eq!(ds[0].code, "no-repeat-path");
    assert!(ds[0].hint.is_some());
    assert_eq!(ds[0].range.start.byte_pos, inner_array_lo(config, 0));
}

#[test]
fn repeat_self_entry_never_collides() {
    assert!(lint(RepeatPath, "[{path:'/'}, {path:'./'}]").is_empty());
    assert!(lint(RepeatPath, "[{path:'/a', routes:[{path:'./'}, {path:'./'}]}]").is_empty());
}

#[test]
fn repeat_disjoint_siblings_are_quiet() {
    assert!(lint(RepeatPath, "[{path:'/a'}, {path:'/b'}]").is_empty());
}

#[test]
fn repeat_nested_same_path_reports_at_inner_array() {
    let config = "[{path:'/user', routes:[{path:'/user', component:'./Login'}]}]";
    let ds = lint(RepeatPath, config);
    assert_eq!(ds.len(), 1);
    assert_eq!(ds[0].range.start.byte_pos, inner_array_lo(config, 1));
}

#[test]
fn repeat_relative_child_joins_parent() {
    // 'b' below '/a' is '/a/b', which the second top-level entry repeats.
    let ds = lint(RepeatPath, "[{path:'/a', routes:[{path:'b'}]}, {path:'/a/b'}]");
    assert_eq!(ds.len(), 1);
    // './b' below '/a' is '/a/b' as well.
    let ds = lint(RepeatPath, "[{path:'/a/b'}, {path:'/a', routes:[{path:'./b'}]}]");
    assert_eq!(ds.len(), 1);
    // 'b' below '/a' is not '/ab'.
    assert!(lint(RepeatPath, "[{path:'/a', routes:[{path:'b'}]}, {path:'/ab'}]").is_empty());
}

#[test]
fn repeat_below_self_entry_keeps_parent_path() {
    let ds = lint(RepeatPath, "[{path:'/a', routes:[{path:'./', routes:[{path:'b'}]}]}, {path:'/a/b'}]");
    assert_eq!(ds.len(), 1);
}

#[test]
fn repeat_counts_each_later_occurrence() {
    let ds = lint(RepeatPath, "[{path:'/x'}, {path:'/x'}, {path:'/x'}]");
    assert_eq!(ds.len(), 2);
}

#[test]
fn repeat_skips_malformed_entries() {
    assert!(lint(RepeatPath, "[{path:p}, {path:p}, {name:'a'}, {name:'a'}, 'x', 'x']").is_empty());
}

#[test]
fn repeat_normalizes_trailing_slash() {
    assert_eq!(lint(RepeatPath, "[{path:'/a/'}, {path:'/a'}]").len(), 1);
}

#[test]
fn registry_runs_in_order_with_unique_codes() {
    let rules = get_all_rules_raw();
    let codes: Vec<&str> = rules.iter().map(|r| r.code()).collect();
    assert_eq!(codes, vec!["no-use-children", "redirect-only-has-redirect-and-path", "no-repeat-path"]);
    assert!(matches!(rules[0], Rule::ChildrenKey(_)));
    let config = "[{path:'/a', children:[]}, {path:'/a', redirect:'/b', component:'C'}]";
    let mut ctx = context(config);
    run_rules(&rules, &mut ctx);
    let got: Vec<&str> = ctx.diagnostics().iter().map(|d| d.code.as_str()).collect();
    assert_eq!(got, vec!["no-use-children", "redirect-only-has-redirect-and-path", "no-repeat-path"]);
}

#[test]
fn running_twice_gives_identical_diagnostics() {
    let config = "[{path:'/a', children:[{path:'/a'}]}, {path:'/', redirect:'/a', name:'n'}, {path:'/a'}]";
    let run = || {
        let mut ctx = context(config);
        run_rules(&get_all_rules_raw(), &mut ctx);
        ctx.diagnostics().iter().map(|d| format!("{:?}", d)).collect::<Vec<String>>()
    };
    let first = run();
    assert!(!first.is_empty());
    assert_eq!(first, run());
}

#[test]
fn diagnostic_positions_come_from_lines_and_columns() {
    let config = "[\n  {path:'/a'},\n  {path:'/a'}\n]";
    let ds = lint(RepeatPath, config);
    assert_eq!(ds.len(), 1);
    let r = ds[0].range;
    assert_eq!((r.start.line_index, r.start.column_index), (0, 15));
    assert_eq!((r.end.line_index, r.end.column_index), (3, 1));
    assert_eq!(r.start.byte_pos, 15);
}

#[test]
fn diagnostic_columns_count_characters() {
    let config = "[{name:'路由', children:[]}]";
    let mut ctx = context(config);
    ChildrenKey.lint_program(&mut ctx);
    let d = &ctx.diagnostics()[0];
    let end = d.range.end;
    assert_eq!(end.byte_pos, "export default ".len() + config.len() - 1);
    assert_eq!(end.column_index, end.byte_pos - 4);
}
