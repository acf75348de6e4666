//! What holds of every scan, whatever the tree and the rules.

use crate::registry::{
    applicable, distinct_ids, has_id, lemma_applicable_push, lemma_without_push, without,
};
use crate::rule::{MatcherView, RuleView, TargetKind};
use crate::scan::{
    after_scan, finding, findings, node_findings, scan_findings, ScanContextView, ViolationView,
};
use crate::tree::{well_formed, NodeView};
use crate::walk::{lemma_walk_visits_each_node_once, walk_order};
use vstd::prelude::*;

verus! {

/// The test whether a violation was reported by the rule `id`.
pub open spec fn by_rule(id: Seq<char>) -> spec_fn(ViolationView) -> bool {
    |v: ViolationView| v.rule_id == id
}

/// The test whether a violation was reported by another rule than `id`.
pub open spec fn by_other_rule(id: Seq<char>) -> spec_fn(ViolationView) -> bool {
    |v: ViolationView| v.rule_id != id
}

/// The test whether the matcher `m` hits node `n` of `t`.
pub open spec fn hit_by(t: Seq<NodeView>, m: MatcherView) -> spec_fn(int) -> bool {
    |n: int| m.hits(t[n])
}

/// The nodes of `t` that the matcher `m` hits.
pub open spec fn hit_nodes(t: Seq<NodeView>, m: MatcherView) -> Set<int> {
    Set::new(|n: int| 0 <= n < t.len() && m.hits(t[n]))
}

/// Scanning is a function of what the tree, the registry and the context
/// hold: two scans of the same tree under the same rules, started from
/// contexts that hold the same, leave contexts that hold the same, finding
/// for finding and character for character.
pub proof fn lemma_scan_is_deterministic(
    before: ScanContextView,
    t: Seq<NodeView>,
    rules: Seq<RuleView>,
    first: ScanContextView,
    second: ScanContextView,
)
    requires
        first == after_scan(before, t, rules),
        second == after_scan(before, t, rules),
    ensures
        first == second,
        first.violations == second.violations,
        first.rule_errors == second.rule_errors,
{
}

/// An id among the rules in force is an id among all rules.
proof fn lemma_applicable_keeps_ids(rules: Seq<RuleView>, target: TargetKind, id: Seq<char>)
    requires
        has_id(applicable(rules, target), id),
    ensures
        has_id(rules, id),
{
    let kept = applicable(rules, target);
    let i = choose|i: int| 0 <= i < kept.len() && (#[trigger] kept[i]).id == id;
    assert(kept.contains(kept[i]));
    rules.lemma_filter_contains_rev(|r: RuleView| r.scope.admits(target), kept[i]);
    let j = choose|j: int| 0 <= j < rules.len() && rules[j] == kept[i];
    assert(rules[j].id == id);
}

/// Every finding at a node carries the id of one of the rules put to it.
proof fn lemma_node_findings_name_rules(
    rules: Seq<RuleView>,
    node: NodeView,
    file: Seq<char>,
    i: int,
)
    requires
        0 <= i < node_findings(rules, node, file).len(),
    ensures
        has_id(rules, node_findings(rules, node, file)[i].rule_id),
    decreases rules.len(),
{
    let init = rules.drop_last();
    let before = node_findings(init, node, file);
    if i < before.len() {
        lemma_node_findings_name_rules(init, node, file, i);
        let j = choose|j: int|
            0 <= j < init.len() && (#[trigger] init[j]).id == before[i].rule_id;
        assert(rules[j].id == before[i].rule_id);
    } else {
        assert(rules[rules.len() - 1].id == finding(rules.last(), node, file).rule_id);
    }
}

/// Every finding along a path carries the id of one of the rules put to it.
proof fn lemma_findings_name_rules(
    t: Seq<NodeView>,
    order: Seq<int>,
    rules: Seq<RuleView>,
    file: Seq<char>,
    i: int,
)
    requires
        0 <= i < findings(t, order, rules, file).len(),
    ensures
        has_id(rules, findings(t, order, rules, file)[i].rule_id),
    decreases order.len(),
{
    let earlier = findings(t, order.drop_last(), rules, file);
    if i < earlier.len() {
        lemma_findings_name_rules(t, order.drop_last(), rules, file, i);
    } else {
        lemma_node_findings_name_rules(rules, t[order.last()], file, i - earlier.len());
    }
}

/// Every violation that a scan reports carries the id of a rule of the
/// registry that the scan was given.
pub proof fn lemma_violations_name_registered_rules(
    t: Seq<NodeView>,
    rules: Seq<RuleView>,
    target: TargetKind,
    file: Seq<char>,
)
    ensures
        forall|i: int|
            0 <= i < scan_findings(t, rules, target, file).len() ==> has_id(
                rules,
                (#[trigger] scan_findings(t, rules, target, file)[i]).rule_id,
            ),
{
    let found = scan_findings(t, rules, target, file);
    assert forall|i: int| 0 <= i < found.len() implies has_id(rules, (#[trigger] found[i]).rule_id) by {
        lemma_findings_name_rules(t, walk_order(t), applicable(rules, target), file, i);
        lemma_applicable_keeps_ids(rules, target, found[i].rule_id);
    }
}

/// It makes no difference whether a rule is taken out before or after the
/// rules in force are picked.
proof fn lemma_applicable_without_commute(rules: Seq<RuleView>, target: TargetKind, id: Seq<char>)
    ensures
        applicable(without(rules, id), target) == without(applicable(rules, target), id),
    decreases rules.len(),
{
    if rules.len() == 0 {
        reveal(Seq::filter);
    } else {
        let init = rules.drop_last();
        let last = rules.last();
        assert(init.push(last) =~= rules);
        lemma_applicable_without_commute(init, target, id);
        lemma_without_push(init, last, id);
        lemma_applicable_push(init, last, target);
        lemma_applicable_push(without(init, id), last, target);
        lemma_without_push(applicable(init, target), last, id);
    }
}

/// At one node, taking a rule out takes out what it found there.
proof fn lemma_node_findings_without(
    rules: Seq<RuleView>,
    node: NodeView,
    file: Seq<char>,
    id: Seq<char>,
)
    ensures
        node_findings(without(rules, id), node, file) == node_findings(rules, node, file).filter(
            by_other_rule(id),
        ),
    decreases rules.len(),
{
    if rules.len() == 0 {
        reveal(Seq::filter);
    } else {
        let init = rules.drop_last();
        let last = rules.last();
        assert(init.push(last) =~= rules);
        lemma_node_findings_without(init, node, file, id);
        lemma_without_push(init, last, id);
        let before = node_findings(init, node, file);
        if last.id != id {
            assert(without(init, id).push(last).drop_last() =~= without(init, id));
        }
        if last.matcher.hits(node) {
            before.lemma_filter_push(finding(last, node, file), by_other_rule(id));
        }
    }
}

/// Along a path, taking a rule out takes out what it found there.
proof fn lemma_findings_without(
    t: Seq<NodeView>,
    order: Seq<int>,
    rules: Seq<RuleView>,
    file: Seq<char>,
    id: Seq<char>,
)
    ensures
        findings(t, order, without(rules, id), file) == findings(t, order, rules, file).filter(
            by_other_rule(id),
        ),
    decreases order.len(),
{
    if order.len() == 0 {
        reveal(Seq::filter);
    } else {
        lemma_findings_without(t, order.drop_last(), rules, file, id);
        lemma_node_findings_without(rules, t[order.last()], file, id);
        Seq::filter_distributes_over_add(
            findings(t, order.drop_last(), rules, file),
            node_findings(rules, t[order.last()], file),
            by_other_rule(id),
        );
    }
}

/// Taking a rule out of the registry takes its violations out of the
/// result and changes nothing else: what the other rules report stays, in
/// the same order.
pub proof fn lemma_disabling_a_rule_removes_its_violations_only(
    t: Seq<NodeView>,
    rules: Seq<RuleView>,
    id: Seq<char>,
    target: TargetKind,
    file: Seq<char>,
)
    ensures
        scan_findings(t, without(rules, id), target, file) == scan_findings(
            t,
            rules,
            target,
            file,
        ).filter(by_other_rule(id)),
{
    lemma_applicable_without_commute(rules, target, id);
    lemma_findings_without(t, walk_order(t), applicable(rules, target), file, id);
}

/// No finding carries an id that none of the rules has.
proof fn lemma_node_findings_of_unknown_rule(
    rules: Seq<RuleView>,
    node: NodeView,
    file: Seq<char>,
    id: Seq<char>,
)
    requires
        !has_id(rules, id),
    ensures
        node_findings(rules, node, file).filter(by_rule(id)).len() == 0,
    decreases rules.len(),
{
    if rules.len() == 0 {
        reveal(Seq::filter);
    } else {
        let init = rules.drop_last();
        let last = rules.last();
        assert(rules[rules.len() - 1].id != id);
        assert forall|i: int| 0 <= i < init.len() implies (#[trigger] init[i]).id != id by {
            assert(rules[i].id != id);
        }
        lemma_node_findings_of_unknown_rule(init, node, file, id);
        if last.matcher.hits(node) {
            node_findings(init, node, file).lemma_filter_push(
                finding(last, node, file),
                by_rule(id),
            );
        }
    }
}

/// At one node a rule reports once where it hits, and not at all where it
/// does not.
proof fn lemma_node_findings_of_rule(
    rules: Seq<RuleView>,
    at: int,
    node: NodeView,
    file: Seq<char>,
)
    requires
        distinct_ids(rules),
        0 <= at < rules.len(),
    ensures
        node_findings(rules, node, file).filter(by_rule(rules[at].id)).len() == (if rules[at].matcher.hits(
            node,
        ) {
            1nat
        } else {
            0nat
        }),
    decreases rules.len(),
{
    let id = rules[at].id;
    let init = rules.drop_last();
    let last = rules.last();
    let before = node_findings(init, node, file);
    if at == rules.len() - 1 {
        assert forall|i: int| 0 <= i < init.len() implies (#[trigger] init[i]).id != id by {
            assert(rules[i].id != rules[at].id);
        }
        lemma_node_findings_of_unknown_rule(init, node, file, id);
    } else {
        assert(rules[at].id != rules[rules.len() - 1].id);
        assert(init[at] == rules[at]);
        assert forall|i: int, j: int| 0 <= i < j < init.len() implies (#[trigger] init[i]).id != (
        #[trigger] init[j]).id by {
            assert(rules[i].id != rules[j].id);
        }
        lemma_node_findings_of_rule(init, at, node, file);
    }
    if last.matcher.hits(node) {
        before.lemma_filter_push(finding(last, node, file), by_rule(id));
    }
}

/// Along a path a rule reports as often as there are nodes that it hits.
proof fn lemma_findings_of_rule(
    t: Seq<NodeView>,
    order: Seq<int>,
    rules: Seq<RuleView>,
    at: int,
    file: Seq<char>,
)
    requires
        distinct_ids(rules),
        0 <= at < rules.len(),
    ensures
        findings(t, order, rules, file).filter(by_rule(rules[at].id)).len() == order.filter(
            hit_by(t, rules[at].matcher),
        ).len(),
    decreases order.len(),
{
    if order.len() == 0 {
        reveal(Seq::filter);
    } else {
        let init = order.drop_last();
        assert(init.push(order.last()) =~= order);
        lemma_findings_of_rule(t, init, rules, at, file);
        lemma_node_findings_of_rule(rules, at, t[order.last()], file);
        Seq::filter_distributes_over_add(
            findings(t, init, rules, file),
            node_findings(rules, t[order.last()], file),
            by_rule(rules[at].id),
        );
        init.lemma_filter_push(order.last(), hit_by(t, rules[at].matcher));
    }
}

/// Picking the rules in force keeps ids distinct.
proof fn lemma_applicable_distinct(rules: Seq<RuleView>, target: TargetKind)
    requires
        distinct_ids(rules),
    ensures
        distinct_ids(applicable(rules, target)),
    decreases rules.len(),
{
    if rules.len() == 0 {
        reveal(Seq::filter);
    } else {
        let init = rules.drop_last();
        let last = rules.last();
        let kept = applicable(init, target);
        assert(init.push(last) =~= rules);
        assert forall|i: int, j: int| 0 <= i < j < init.len() implies (#[trigger] init[i]).id != (
        #[trigger] init[j]).id by {
            assert(rules[i].id != rules[j].id);
        }
        lemma_applicable_distinct(init, target);
        lemma_applicable_push(init, last, target);
        if last.scope.admits(target) {
            assert forall|i: int| 0 <= i < kept.len() implies (#[trigger] kept[i]).id
                != last.id by {
                if kept[i].id == last.id {
                    lemma_applicable_keeps_ids(init, target, last.id);
                    let j = choose|j: int| 0 <= j < init.len() && (#[trigger] init[j]).id == last.id;
                    assert(rules[j].id != rules[rules.len() - 1].id);
                }
            }
        }
    }
}

/// Filtering a sequence without repetitions leaves one without
/// repetitions, which holds what passed the test.
proof fn lemma_filter_no_duplicates(order: Seq<int>, pred: spec_fn(int) -> bool)
    requires
        order.no_duplicates(),
    ensures
        order.filter(pred).no_duplicates(),
        forall|x: int| #[trigger] order.filter(pred).contains(x) <==> order.contains(x) && pred(x),
    decreases order.len(),
{
    if order.len() == 0 {
        reveal(Seq::filter);
    } else {
        let init = order.drop_last();
        let last = order.last();
        let kept = init.filter(pred);
        assert(init.push(last) =~= order);
        lemma_filter_no_duplicates(init, pred);
        init.lemma_filter_push(last, pred);
        assert(!init.contains(last)) by {
            if init.contains(last) {
                let i = choose|i: int| 0 <= i < init.len() && init[i] == last;
                assert(order[i] == order[order.len() - 1]);
            }
        }
        if pred(last) {
            let grown = kept.push(last);
            assert(!kept.contains(last));
            assert forall|i: int, j: int| 0 <= i < grown.len() && 0 <= j < grown.len() && i
                != j implies grown[i] != grown[j] by {
                if i < kept.len() {
                    assert(kept.contains(kept[i]));
                }
                if j < kept.len() {
                    assert(kept.contains(kept[j]));
                }
            }
        }
        assert forall|x: int| #[trigger] order.filter(pred).contains(x) <==> order.contains(x)
            && pred(x) by {
            if order.contains(x) {
                let i = choose|i: int| 0 <= i < order.len() && order[i] == x;
                if i < init.len() {
                    assert(init[i] == x);
                }
            }
            if init.contains(x) {
                let i = choose|i: int| 0 <= i < init.len() && init[i] == x;
                assert(order[i] == x);
            }
            assert(order[order.len() - 1] == last);
            if pred(last) {
                assert(kept.push(last)[kept.len() as int] == last);
                if kept.contains(x) {
                    let i = choose|i: int| 0 <= i < kept.len() && kept[i] == x;
                    assert(kept.push(last)[i] == x);
                }
                if kept.push(last).contains(x) {
                    let i = choose|i: int| 0 <= i < kept.push(last).len() && kept.push(last)[i] == x;
                    if i < kept.len() {
                        assert(kept[i] == x);
                    }
                }
            }
        }
    }
}

/// Nothing escapes the walk and nothing is counted twice: a rule that is
/// in force reports exactly one violation for each node of the tree that
/// its matcher hits, however deep the node lies.
pub proof fn lemma_one_violation_for_each_hit(
    t: Seq<NodeView>,
    rules: Seq<RuleView>,
    at: int,
    target: TargetKind,
    file: Seq<char>,
)
    requires
        well_formed(t),
        distinct_ids(rules),
        0 <= at < rules.len(),
        rules[at].scope.admits(target),
    ensures
        hit_nodes(t, rules[at].matcher).finite(),
        scan_findings(t, rules, target, file).filter(by_rule(rules[at].id)).len() == hit_nodes(
            t,
            rules[at].matcher,
        ).len(),
{
    let rule = rules[at];
    let kept = applicable(rules, target);
    let order = walk_order(t);
    lemma_applicable_distinct(rules, target);
    rules.lemma_filter_contains(|r: RuleView| r.scope.admits(target), at);
    let pos = choose|i: int| 0 <= i < kept.len() && kept[i] == rule;
    lemma_findings_of_rule(t, order, kept, pos, file);
    lemma_walk_visits_each_node_once(t);
    let hits = order.filter(hit_by(t, rule.matcher));
    lemma_filter_no_duplicates(order, hit_by(t, rule.matcher));
    hits.unique_seq_to_set();
    assert(hits.to_set() =~= hit_nodes(t, rule.matcher));
    vstd::seq_lib::seq_to_set_is_finite(hits);
}

} // verus!
