//! The scanner: every rule that is in force is put to every node of a tree,
//! in walking order, and what it finds is written down.

use crate::registry::{applicable, rule_views, Registry};
use crate::rule::{MatchError, Rule, RuleView, Severity, TargetKind};
use crate::text::{render_message, rendered};
use crate::tree::{NodeView, Span, SyntaxNode, SyntaxTree};
use crate::walk::{ids, walk_order};
use vstd::prelude::*;

verus! {

/// One place where a rule found what it looks for. Only a scan makes one,
/// and nothing changes it afterwards.
#[derive(Clone, Debug, PartialEq, Eq)]
pub struct Violation {
    rule_id: String,
    severity: Severity,
    message: String,
    span: Span,
    file_path: String,
}

/// The mathematical content of a `Violation`.
pub struct ViolationView {
    pub rule_id: Seq<char>,
    pub severity: Severity,
    pub message: Seq<char>,
    pub span: Span,
    pub file_path: Seq<char>,
}

impl View for Violation {
    type V = ViolationView;

    closed spec fn view(&self) -> ViolationView {
        ViolationView {
            rule_id: self.rule_id@,
            severity: self.severity,
            message: self.message@,
            span: self.span,
            file_path: self.file_path@,
        }
    }
}

impl Violation {
    /// The id of the rule that reported.
    pub fn rule_id(&self) -> (id: &String)
        ensures
            id@ == self@.rule_id,
    {
        &self.rule_id
    }

    /// How grave the rule holds the finding to be.
    pub fn severity(&self) -> (severity: Severity)
        ensures
            severity == self@.severity,
    {
        self.severity
    }

    /// The rule's message, with the matched name filled in.
    pub fn message(&self) -> (message: &String)
        ensures
            message@ == self@.message,
    {
        &self.message
    }

    /// The stretch of source text that the matched node covers.
    pub fn span(&self) -> (span: Span)
        ensures
            span == self@.span,
    {
        self.span
    }

    /// The path of the file in which the node stands.
    pub fn file_path(&self) -> (path: &String)
        ensures
            path@ == self@.file_path,
    {
        &self.file_path
    }
}

/// One place where a rule could not judge a node. The scan goes on; this
/// is a note for the reader and no finding.
#[derive(Clone, Debug, PartialEq, Eq)]
pub struct RuleError {
    rule_id: String,
    error: MatchError,
    span: Span,
    file_path: String,
}

/// The mathematical content of a `RuleError`.
pub struct RuleErrorView {
    pub rule_id: Seq<char>,
    pub error: MatchError,
    pub span: Span,
    pub file_path: Seq<char>,
}

impl View for RuleError {
    type V = RuleErrorView;

    closed spec fn view(&self) -> RuleErrorView {
        RuleErrorView {
            rule_id: self.rule_id@,
            error: self.error,
            span: self.span,
            file_path: self.file_path@,
        }
    }
}

impl RuleError {
    /// The id of the rule that could not judge.
    pub fn rule_id(&self) -> (id: &String)
        ensures
            id@ == self@.rule_id,
    {
        &self.rule_id
    }

    /// What kept the rule from judging.
    pub fn error(&self) -> (error: MatchError)
        ensures
            error == self@.error,
    {
        self.error
    }

    /// The stretch of source text that the node covers.
    pub fn span(&self) -> (span: Span)
        ensures
            span == self@.span,
    {
        self.span
    }

    /// The path of the file in which the node stands.
    pub fn file_path(&self) -> (path: &String)
        ensures
            path@ == self@.file_path,
    {
        &self.file_path
    }
}

/// The contents of a list of violations.
pub open spec fn violation_views(list: Seq<Violation>) -> Seq<ViolationView> {
    list.map_values(|v: Violation| v@)
}

/// The contents of a list of rule errors.
pub open spec fn rule_error_views(list: Seq<RuleError>) -> Seq<RuleErrorView> {
    list.map_values(|e: RuleError| e@)
}

/// What `rule` reports when it hits `node` in the file `file`.
pub open spec fn finding(rule: RuleView, node: NodeView, file: Seq<char>) -> ViolationView {
    ViolationView {
        rule_id: rule.id,
        severity: rule.severity,
        message: rendered(rule.message, node.name),
        span: node.span,
        file_path: file,
    }
}

/// What is noted when `rule` cannot judge `node`.
pub open spec fn fault(rule: RuleView, node: NodeView, file: Seq<char>, error: MatchError)
    -> RuleErrorView {
    RuleErrorView { rule_id: rule.id, error, span: node.span, file_path: file }
}

/// The findings at one node: one for each rule that hits it, in the order
/// of the rules.
pub open spec fn node_findings(rules: Seq<RuleView>, node: NodeView, file: Seq<char>) -> Seq<
    ViolationView,
>
    decreases rules.len(),
{
    if rules.len() == 0 {
        Seq::empty()
    } else {
        let before = node_findings(rules.drop_last(), node, file);
        if rules.last().matcher.hits(node) {
            before.push(finding(rules.last(), node, file))
        } else {
            before
        }
    }
}

/// The rule errors at one node: one for each rule that cannot judge it, in
/// the order of the rules.
pub open spec fn node_faults(rules: Seq<RuleView>, node: NodeView, file: Seq<char>) -> Seq<
    RuleErrorView,
>
    decreases rules.len(),
{
    if rules.len() == 0 {
        Seq::empty()
    } else {
        let before = node_faults(rules.drop_last(), node, file);
        match rules.last().matcher.outcome(node) {
            Err(error) => before.push(fault(rules.last(), node, file, error)),
            Ok(_) => before,
        }
    }
}

/// The findings at the nodes `order`, node after node.
pub open spec fn findings(
    t: Seq<NodeView>,
    order: Seq<int>,
    rules: Seq<RuleView>,
    file: Seq<char>,
) -> Seq<ViolationView>
    decreases order.len(),
{
    if order.len() == 0 {
        Seq::empty()
    } else {
        findings(t, order.drop_last(), rules, file) + node_findings(rules, t[order.last()], file)
    }
}

/// The rule errors at the nodes `order`, node after node.
pub open spec fn faults(
    t: Seq<NodeView>,
    order: Seq<int>,
    rules: Seq<RuleView>,
    file: Seq<char>,
) -> Seq<RuleErrorView>
    decreases order.len(),
{
    if order.len() == 0 {
        Seq::empty()
    } else {
        faults(t, order.drop_last(), rules, file) + node_faults(rules, t[order.last()], file)
    }
}

/// What a scan of the tree `t` finds, given the registered rules, the kind
/// of the file and its path: the nodes in walking order, and at each node
/// the rules in force in registration order.
pub open spec fn scan_findings(
    t: Seq<NodeView>,
    rules: Seq<RuleView>,
    target: TargetKind,
    file: Seq<char>,
) -> Seq<ViolationView> {
    findings(t, walk_order(t), applicable(rules, target), file)
}

/// The rule errors that a scan of the tree `t` notes, in the same order.
pub open spec fn scan_faults(
    t: Seq<NodeView>,
    rules: Seq<RuleView>,
    target: TargetKind,
    file: Seq<char>,
) -> Seq<RuleErrorView> {
    faults(t, walk_order(t), applicable(rules, target), file)
}

/// The context that a scan of `t` under `rules` leaves behind: what was
/// found is added behind what `before` held, and nothing else changes.
pub open spec fn after_scan(before: ScanContextView, t: Seq<NodeView>, rules: Seq<RuleView>)
    -> ScanContextView {
    ScanContextView {
        violations: before.violations + scan_findings(
            t,
            rules,
            before.target_kind,
            before.file_path,
        ),
        rule_errors: before.rule_errors + scan_faults(
            t,
            rules,
            before.target_kind,
            before.file_path,
        ),
        ..before
    }
}

/// What is known of the file under scan, and what was found in it so far.
/// Findings are only ever added at the end.
#[derive(Debug)]
pub struct ScanContext {
    file_path: String,
    target_kind: TargetKind,
    violations: Vec<Violation>,
    rule_errors: Vec<RuleError>,
}

/// The mathematical content of a `ScanContext`.
pub struct ScanContextView {
    pub file_path: Seq<char>,
    pub target_kind: TargetKind,
    pub violations: Seq<ViolationView>,
    pub rule_errors: Seq<RuleErrorView>,
}

impl View for ScanContext {
    type V = ScanContextView;

    closed spec fn view(&self) -> ScanContextView {
        ScanContextView {
            file_path: self.file_path@,
            target_kind: self.target_kind,
            violations: violation_views(self.violations@),
            rule_errors: rule_error_views(self.rule_errors@),
        }
    }
}

impl ScanContext {
    /// A context for the file at `file_path`, with nothing found yet.
    pub fn new(file_path: &str, target_kind: TargetKind) -> (ctx: ScanContext)
        ensures
            ctx@ == (ScanContextView {
                file_path: file_path@,
                target_kind,
                violations: Seq::empty(),
                rule_errors: Seq::empty(),
            }),
    {
        let ctx = ScanContext {
            file_path: file_path.to_owned(),
            target_kind,
            violations: Vec::new(),
            rule_errors: Vec::new(),
        };
        proof {
            assert(ctx@.violations =~= Seq::empty());
            assert(ctx@.rule_errors =~= Seq::empty());
        }
        ctx
    }

    /// The path of the file under scan.
    pub fn file_path(&self) -> (path: &String)
        ensures
            path@ == self@.file_path,
    {
        &self.file_path
    }

    /// What the file is built into.
    pub fn target_kind(&self) -> (kind: TargetKind)
        ensures
            kind == self@.target_kind,
    {
        self.target_kind
    }

    /// The findings so far, oldest first.
    pub fn violations(&self) -> (list: &Vec<Violation>)
        ensures
            violation_views(list@) == self@.violations,
    {
        &self.violations
    }

    /// The rule errors so far, oldest first.
    pub fn rule_errors(&self) -> (list: &Vec<RuleError>)
        ensures
            rule_error_views(list@) == self@.rule_errors,
    {
        &self.rule_errors
    }

    /// Puts each of `rules` to `node` and writes down what comes of it.
    fn visit(&mut self, tree: &SyntaxTree, node: SyntaxNode, rules: &Vec<&Rule>)
        requires
            tree.has(node),
        ensures
            final(self)@ == (ScanContextView {
                violations: old(self)@.violations + node_findings(
                    rule_views(rules@),
                    tree@[node.id()],
                    old(self)@.file_path,
                ),
                rule_errors: old(self)@.rule_errors + node_faults(
                    rule_views(rules@),
                    tree@[node.id()],
                    old(self)@.file_path,
                ),
                ..old(self)@
            }),
    {
        let ghost start = self@;
        let ghost all = rule_views(rules@);
        let ghost at = tree@[node.id()];
        let mut j: usize = 0;
        proof {
            assert(all.take(0) =~= Seq::<RuleView>::empty());
            assert(start.violations + Seq::<ViolationView>::empty() =~= start.violations);
            assert(start.rule_errors + Seq::<RuleErrorView>::empty() =~= start.rule_errors);
        }
        while j < rules.len()
            invariant
                j <= rules@.len(),
                tree.has(node),
                all == rule_views(rules@),
                at == tree@[node.id()],
                self@ == (ScanContextView {
                    violations: start.violations + node_findings(
                        all.take(j as int),
                        at,
                        start.file_path,
                    ),
                    rule_errors: start.rule_errors + node_faults(
                        all.take(j as int),
                        at,
                        start.file_path,
                    ),
                    ..start
                }),
            decreases rules@.len() - j,
        {
            let rule = rules[j];
            let ghost found = node_findings(all.take(j as int), at, start.file_path);
            let ghost failed = node_faults(all.take(j as int), at, start.file_path);
            let ghost before = self@;
            proof {
                assert(all.take(j + 1).drop_last() =~= all.take(j as int));
                assert(all.take(j + 1).last() == rule@);
            }
            match rule.matcher.matches(tree, node) {
                Ok(true) => {
                    let violation = Violation {
                        rule_id: rule.id.clone(),
                        severity: rule.severity,
                        message: render_message(rule.message.as_str(), tree.name(node).as_str()),
                        span: tree.span(node),
                        file_path: self.file_path.clone(),
                    };
                    self.violations.push(violation);
                    proof {
                        assert(violation@ == finding(rule@, at, start.file_path));
                        assert(self@.violations =~= before.violations.push(violation@));
                        assert(self@.violations =~= start.violations + found.push(violation@));
                    }
                },
                Ok(false) => {},
                Err(error) => {
                    let note = RuleError {
                        rule_id: rule.id.clone(),
                        error,
                        span: tree.span(node),
                        file_path: self.file_path.clone(),
                    };
                    self.rule_errors.push(note);
                    proof {
                        assert(note@ == fault(rule@, at, start.file_path, error));
                        assert(self@.rule_errors =~= before.rule_errors.push(note@));
                        assert(self@.rule_errors =~= start.rule_errors + failed.push(note@));
                    }
                },
            }
            j += 1;
        }
        proof {
            assert(all.take(j as int) =~= all);
        }
    }
}

/// Scans one file: walks the tree depth first, a node before its children,
/// and at each node puts the rules in force to it in registration order.
/// Findings and rule errors are added to `ctx` in that order; what `ctx`
/// held before stays in front. No node is left out, whatever was found
/// above it.
pub fn scan(tree: &SyntaxTree, registry: &Registry, ctx: &mut ScanContext)
    requires
        tree.wf(),
    ensures
        final(ctx)@ == after_scan(old(ctx)@, tree@, registry@),
{
    let ghost start = ctx@;
    let order = tree.preorder();
    let rules = registry.applicable_rules(ctx.target_kind());
    let ghost all = rule_views(rules@);
    let ghost path = ids(order@);
    let mut i: usize = 0;
    proof {
        assert(path.take(0) =~= Seq::<int>::empty());
        assert(start.violations + Seq::<ViolationView>::empty() =~= start.violations);
        assert(start.rule_errors + Seq::<RuleErrorView>::empty() =~= start.rule_errors);
    }
    while i < order.len()
        invariant
            i <= order@.len(),
            path == ids(order@),
            all == rule_views(rules@),
            forall|k: int| 0 <= k < order@.len() ==> tree.has(#[trigger] order@[k]),
            ctx@ == (ScanContextView {
                violations: start.violations + findings(
                    tree@,
                    path.take(i as int),
                    all,
                    start.file_path,
                ),
                rule_errors: start.rule_errors + faults(
                    tree@,
                    path.take(i as int),
                    all,
                    start.file_path,
                ),
                ..start
            }),
        decreases order@.len() - i,
    {
        let node = order[i];
        let ghost found = findings(tree@, path.take(i as int), all, start.file_path);
        let ghost failed = faults(tree@, path.take(i as int), all, start.file_path);
        proof {
            assert(path.take(i + 1).drop_last() =~= path.take(i as int));
            assert(path.take(i + 1).last() == node.id());
        }
        ctx.visit(tree, node, &rules);
        proof {
            let here = node_findings(all, tree@[node.id()], start.file_path);
            let faulty = node_faults(all, tree@[node.id()], start.file_path);
            assert((start.violations + found) + here =~= start.violations + (found + here));
            assert((start.rule_errors + failed) + faulty =~= start.rule_errors + (failed
                + faulty));
        }
        i += 1;
    }
    proof {
        assert(path.take(i as int) =~= path);
    }
}

} // verus!
