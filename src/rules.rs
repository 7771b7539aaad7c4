//! The rules and their registry.
use vstd::prelude::*;

pub mod children_key;
pub mod redirect;
pub mod repeat;

use crate::context::Context;
use crate::diagnostic::Finding;
use crate::syntax::SyntaxTree;
use children_key::ChildrenKey;
use redirect::RedirectKeys;
use repeat::RepeatPath;

verus! {

/// A lint rule: a stable code, and what it reports on a tree.
pub trait LintRule: Sized {
    /// The findings of the rule on `tree`, in the order it reports them.
    spec fn findings(&self, tree: SyntaxTree) -> Seq<Finding>;

    spec fn spec_code(&self) -> Seq<char>;

    /// The unique code that identifies the rule.
    fn code(&self) -> (r: &'static str)
        ensures
            r@ == self.spec_code(),
    ;

    /// Runs the rule over the context's tree, appending what it finds.
    fn lint_program(&self, ctx: &mut Context)
        requires
            old(ctx).wf(),
        ensures
            old(ctx).appended(*final(ctx), self.findings(old(ctx).tree())),
    ;

    fn new() -> (r: Self);
}

/// One of the active rules.
#[derive(Debug)]
pub enum Rule {
    ChildrenKey(ChildrenKey),
    RedirectKeys(RedirectKeys),
    RepeatPath(RepeatPath),
}

impl Rule {
    pub open spec fn findings(&self, tree: SyntaxTree) -> Seq<Finding> {
        match self {
            Rule::ChildrenKey(r) => r.findings(tree),
            Rule::RedirectKeys(r) => r.findings(tree),
            Rule::RepeatPath(r) => r.findings(tree),
        }
    }

    pub open spec fn spec_code(&self) -> Seq<char> {
        match self {
            Rule::ChildrenKey(r) => r.spec_code(),
            Rule::RedirectKeys(r) => r.spec_code(),
            Rule::RepeatPath(r) => r.spec_code(),
        }
    }

    pub fn code(&self) -> (r: &'static str)
        ensures
            r@ == self.spec_code(),
    {
        match self {
            Rule::ChildrenKey(r) => r.code(),
            Rule::RedirectKeys(r) => r.code(),
            Rule::RepeatPath(r) => r.code(),
        }
    }

    pub fn lint_program(&self, ctx: &mut Context)
        requires
            old(ctx).wf(),
        ensures
            old(ctx).appended(*final(ctx), self.findings(old(ctx).tree())),
    {
        match self {
            Rule::ChildrenKey(r) => r.lint_program(ctx),
            Rule::RedirectKeys(r) => r.lint_program(ctx),
            Rule::RepeatPath(r) => r.lint_program(ctx),
        }
    }
}

/// The active rules, in the order in which they run.
pub open spec fn registry() -> Seq<Rule> {
    seq![
        Rule::ChildrenKey(ChildrenKey),
        Rule::RedirectKeys(RedirectKeys),
        Rule::RepeatPath(RepeatPath),
    ]
}

/// The findings of `rules` run one after another on `tree`.
pub open spec fn rules_findings(rules: Seq<Rule>, tree: SyntaxTree) -> Seq<Finding>
    decreases rules.len(),
{
    if rules.len() == 0 {
        Seq::empty()
    } else {
        rules_findings(rules.drop_last(), tree) + rules.last().findings(tree)
    }
}

pub fn get_all_rules_raw() -> (r: Vec<Rule>)
    ensures
        r@ == registry(),
{
    let mut r: Vec<Rule> = Vec::new();
    r.push(Rule::ChildrenKey(ChildrenKey::new()));
    r.push(Rule::RedirectKeys(RedirectKeys::new()));
    r.push(Rule::RepeatPath(RepeatPath::new()));
    assert(r@ =~= registry());
    r
}

/// Runs `rules` in order over the context's tree; each appends what it finds
/// after what the earlier ones found.
pub fn run_rules(rules: &Vec<Rule>, ctx: &mut Context)
    requires
        old(ctx).wf(),
    ensures
        old(ctx).appended(*final(ctx), rules_findings(rules@, old(ctx).tree())),
{
    let ghost start = *ctx;
    let mut i: usize = 0;
    proof {
        start.lemma_appended_none();
        assert(rules@.subrange(0, 0) =~= Seq::<Rule>::empty());
    }
    while i < rules.len()
        invariant
            start.wf(),
            i <= rules@.len(),
            start.appended(*ctx, rules_findings(rules@.subrange(0, i as int), start.tree())),
        decreases rules.len() - i,
    {
        let ghost mid = *ctx;
        rules[i].lint_program(ctx);
        proof {
            let done = rules@.subrange(0, i as int);
            let next = rules@.subrange(0, i + 1);
            assert(next.drop_last() =~= done);
            start.lemma_appended_trans(mid, *ctx, rules_findings(done, start.tree()), rules@[i as int].findings(start.tree()));
        }
        i = i + 1;
    }
    assert(rules@.subrange(0, rules@.len() as int) =~= rules@);
}

/// Running the same rules twice over the same file, each time in a fresh
/// context, gives the same diagnostics in the same order.
pub proof fn lemma_run_rules_deterministic(
    rules: Seq<Rule>,
    first: Context,
    first_after: Context,
    second: Context,
    second_after: Context,
)
    requires
        first.tree() == second.tree(),
        first.file_name_view() == second.file_name_view(),
        first.reported() == Seq::<crate::diagnostic::DiagnosticView>::empty(),
        second.reported() == Seq::<crate::diagnostic::DiagnosticView>::empty(),
        first.appended(first_after, rules_findings(rules, first.tree())),
        second.appended(second_after, rules_findings(rules, second.tree())),
    ensures
        first_after.reported() == second_after.reported(),
{
    assert(first.render_all(rules_findings(rules, first.tree())) =~= second.render_all(
        rules_findings(rules, second.tree()),
    ));
}

} // verus!
