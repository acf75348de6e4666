//! The rule registry: the rules of a run, in the order in which they were
//! registered. It is filled before the first scan and only read after that.

use crate::rule::{Rule, RuleView, Severity, TargetKind};
use vstd::prelude::*;

verus! {

/// Why the registry refused a request.
#[derive(Clone, Copy, Debug, PartialEq, Eq, Structural)]
pub enum RegistryError {
    /// A rule with this id is registered already.
    DuplicateRuleId,
    /// The rule has no id, or its matcher names nothing.
    InvalidRule,
    /// No rule with this id is registered.
    UnknownRuleId,
}

/// Whether some rule in `rules` has the id `id`.
pub open spec fn has_id(rules: Seq<RuleView>, id: Seq<char>) -> bool {
    exists|i: int| 0 <= i < rules.len() && (#[trigger] rules[i]).id == id
}

/// No two rules share an id.
pub open spec fn distinct_ids(rules: Seq<RuleView>) -> bool {
    forall|i: int, j: int|
        0 <= i < j < rules.len() ==> (#[trigger] rules[i]).id != (#[trigger] rules[j]).id
}

/// What holds of the rules of every registry: each can be used, and no id
/// occurs twice.
pub open spec fn well_formed_rules(rules: Seq<RuleView>) -> bool {
    &&& distinct_ids(rules)
    &&& forall|i: int| 0 <= i < rules.len() ==> (#[trigger] rules[i]).valid()
}

/// The rules that are in force in a file of kind `target`, in registration
/// order.
pub open spec fn applicable(rules: Seq<RuleView>, target: TargetKind) -> Seq<RuleView> {
    rules.filter(|r: RuleView| r.scope.admits(target))
}

/// The rules without the one named `id`, in registration order.
pub open spec fn without(rules: Seq<RuleView>, id: Seq<char>) -> Seq<RuleView> {
    rules.filter(|r: RuleView| r.id != id)
}

/// The contents of a list of borrowed rules.
pub open spec fn rule_views(rules: Seq<&Rule>) -> Seq<RuleView> {
    rules.map_values(|r: &Rule| r@)
}

/// How `applicable` treats a list that grew by one rule.
pub proof fn lemma_applicable_push(rules: Seq<RuleView>, rule: RuleView, target: TargetKind)
    ensures
        applicable(rules.push(rule), target) == if rule.scope.admits(target) {
            applicable(rules, target).push(rule)
        } else {
            applicable(rules, target)
        },
{
    reveal(Seq::filter);
    assert(rules.push(rule).drop_last() =~= rules);
}

/// How `without` treats a list that grew by one rule.
pub proof fn lemma_without_push(rules: Seq<RuleView>, rule: RuleView, id: Seq<char>)
    ensures
        without(rules.push(rule), id) == if rule.id != id {
            without(rules, id).push(rule)
        } else {
            without(rules, id)
        },
{
    reveal(Seq::filter);
    assert(rules.push(rule).drop_last() =~= rules);
}

/// Taking out a rule whose id nobody has changes nothing.
pub proof fn lemma_without_unknown(rules: Seq<RuleView>, id: Seq<char>)
    requires
        !has_id(rules, id),
    ensures
        without(rules, id) == rules,
    decreases rules.len(),
{
    if rules.len() > 0 {
        let init = rules.drop_last();
        assert(rules[rules.len() - 1].id != id);
        assert forall|i: int| 0 <= i < init.len() implies (#[trigger] init[i]).id != id by {
            assert(rules[i].id != id);
        }
        lemma_without_unknown(init, id);
        lemma_without_push(init, rules.last(), id);
        assert(init.push(rules.last()) =~= rules);
    } else {
        reveal(Seq::filter);
    }
}

/// Where ids are distinct, taking out a rule by its id takes out that one
/// rule and leaves the others where they were.
pub proof fn lemma_without_is_remove(rules: Seq<RuleView>, at: int)
    requires
        distinct_ids(rules),
        0 <= at < rules.len(),
    ensures
        without(rules, rules[at].id) == rules.remove(at),
    decreases rules.len(),
{
    let id = rules[at].id;
    let init = rules.drop_last();
    if at == rules.len() - 1 {
        assert forall|i: int| 0 <= i < init.len() implies (#[trigger] init[i]).id != id by {
            assert(rules[i].id != rules[at].id);
        }
        lemma_without_unknown(init, id);
        lemma_without_push(init, rules.last(), id);
        assert(init.push(rules.last()) =~= rules);
        assert(rules.remove(at) =~= init);
    } else {
        assert(rules[at].id != rules[rules.len() - 1].id);
        assert(init[at] == rules[at]);
        assert forall|i: int, j: int| 0 <= i < j < init.len() implies (#[trigger] init[i]).id != (
        #[trigger] init[j]).id by {
            assert(rules[i].id != rules[j].id);
        }
        lemma_without_is_remove(init, at);
        lemma_without_push(init, rules.last(), id);
        assert(init.push(rules.last()) =~= rules);
        assert(init.remove(at).push(rules.last()) =~= rules.remove(at));
    }
}

/// The rules of a run.
#[derive(Debug)]
pub struct Registry {
    rules: Vec<Rule>,
}

impl View for Registry {
    type V = Seq<RuleView>;

    closed spec fn view(&self) -> Seq<RuleView> {
        self.rules@.map_values(|r: Rule| r@)
    }
}

impl Registry {
    /// Holds of every registry that `new` and the methods below produce.
    pub open spec fn wf(&self) -> bool {
        well_formed_rules(self@)
    }

    /// A registry without rules.
    pub fn new() -> (registry: Registry)
        ensures
            registry.wf(),
            registry@.len() == 0,
    {
        Registry { rules: Vec::new() }
    }

    /// The number of rules.
    pub fn len(&self) -> (n: usize)
        ensures
            n == self@.len(),
    {
        self.rules.len()
    }

    /// The rule at position `at` in registration order.
    pub fn get(&self, at: usize) -> (rule: &Rule)
        requires
            at < self@.len(),
        ensures
            rule@ == self@[at as int],
    {
        &self.rules[at]
    }

    /// Where the rule named `id` stands in registration order.
    pub fn position(&self, id: &String) -> (at: Option<usize>)
        ensures
            at is Some <==> has_id(self@, id@),
            at matches Some(i) ==> i < self@.len() && self@[i as int].id == id@ && forall|j: int|
                0 <= j < i ==> (#[trigger] self@[j]).id != id@,
    {
        let mut i: usize = 0;
        while i < self.rules.len()
            invariant
                i <= self@.len(),
                forall|j: int| 0 <= j < i ==> (#[trigger] self@[j]).id != id@,
            decreases self@.len() - i,
        {
            if self.rules[i].id == *id {
                assert(self@[i as int].id == id@);
                return Some(i);
            }
            i += 1;
        }
        None
    }

    /// Adds `rule` behind the rules registered so far. A rule that cannot be
    /// used, or whose id is taken, is refused and the registry stays as it
    /// was.
    pub fn register(&mut self, rule: Rule) -> (outcome: Result<(), RegistryError>)
        requires
            old(self).wf(),
        ensures
            final(self).wf(),
            !rule@.valid() ==> outcome == Err::<(), RegistryError>(RegistryError::InvalidRule),
            rule@.valid() && has_id(old(self)@, rule@.id) ==> outcome == Err::<(), RegistryError>(
                RegistryError::DuplicateRuleId,
            ),
            rule@.valid() && !has_id(old(self)@, rule@.id) ==> outcome == Ok::<(), RegistryError>(
                (),
            ),
            outcome is Ok ==> final(self)@ == old(self)@.push(rule@),
            outcome is Err ==> final(self)@ == old(self)@,
    {
        if !rule.is_valid() {
            return Err(RegistryError::InvalidRule);
        }
        if self.position(&rule.id).is_some() {
            return Err(RegistryError::DuplicateRuleId);
        }
        let ghost before = self@;
        self.rules.push(rule);
        proof {
            assert(self@ =~= before.push(rule@));
        }
        Ok(())
    }

    /// Takes the rule named `id` out; the other rules keep their order.
    pub fn remove(&mut self, id: &String) -> (outcome: Result<(), RegistryError>)
        requires
            old(self).wf(),
        ensures
            final(self).wf(),
            has_id(old(self)@, id@) ==> outcome == Ok::<(), RegistryError>(()),
            !has_id(old(self)@, id@) ==> outcome == Err::<(), RegistryError>(
                RegistryError::UnknownRuleId,
            ),
            final(self)@ == without(old(self)@, id@),
    {
        let ghost before = self@;
        match self.position(id) {
            None => {
                proof {
                    lemma_without_unknown(before, id@);
                }
                Err(RegistryError::UnknownRuleId)
            },
            Some(at) => {
                self.rules.remove(at);
                proof {
                    lemma_without_is_remove(before, at as int);
                    assert(self@ =~= before.remove(at as int));
                    assert forall|i: int, j: int| 0 <= i < j < self@.len() implies (
                    #[trigger] self@[i]).id != (#[trigger] self@[j]).id by {
                        let a = if i < at { i } else { i + 1 };
                        let b = if j < at { j } else { j + 1 };
                        assert(before[a].id != before[b].id);
                    }
                    assert forall|i: int| 0 <= i < self@.len() implies (
                    #[trigger] self@[i]).valid() by {
                        let a = if i < at { i } else { i + 1 };
                        assert(before[a].valid());
                    }
                }
                Ok(())
            },
        }
    }

    /// Gives the rule named `id` another severity; nothing else changes.
    pub fn set_severity(&mut self, id: &String, severity: Severity) -> (outcome: Result<
        (),
        RegistryError,
    >)
        requires
            old(self).wf(),
        ensures
            final(self).wf(),
            has_id(old(self)@, id@) ==> outcome == Ok::<(), RegistryError>(()),
            !has_id(old(self)@, id@) ==> outcome == Err::<(), RegistryError>(
                RegistryError::UnknownRuleId,
            ),
            outcome is Err ==> final(self)@ == old(self)@,
            outcome is Ok ==> exists|at: int|
                0 <= at < old(self)@.len() && (#[trigger] old(self)@[at]).id == id@ && final(self)@
                    == old(self)@.update(at, (RuleView { severity, ..old(self)@[at] })),
    {
        let ghost before = self@;
        match self.position(id) {
            None => Err(RegistryError::UnknownRuleId),
            Some(at) => {
                self.rules[at].severity = severity;
                proof {
                    let changed = RuleView { severity, ..before[at as int] };
                    assert(self@[at as int] == changed);
                    assert(self@ =~= before.update(at as int, changed));
                    assert forall|i: int, j: int| 0 <= i < j < self@.len() implies (
                    #[trigger] self@[i]).id != (#[trigger] self@[j]).id by {
                        assert(before[i].id != before[j].id);
                    }
                    assert forall|i: int| 0 <= i < self@.len() implies (
                    #[trigger] self@[i]).valid() by {
                        assert(before[i].valid());
                    }
                }
                Ok(())
            },
        }
    }

    /// The rules that are in force in a file of kind `target`, in
    /// registration order.
    pub fn applicable_rules(&self, target: TargetKind) -> (rules: Vec<&Rule>)
        ensures
            rule_views(rules@) == applicable(self@, target),
    {
        let mut rules: Vec<&Rule> = Vec::new();
        let mut i: usize = 0;
        proof {
            reveal(Seq::filter);
            assert(self@.take(0) =~= Seq::<RuleView>::empty());
            assert(rule_views(rules@) =~= Seq::<RuleView>::empty());
        }
        while i < self.rules.len()
            invariant
                i <= self@.len(),
                rule_views(rules@) == applicable(self@.take(i as int), target),
            decreases self@.len() - i,
        {
            let ghost so_far = rule_views(rules@);
            let rule = &self.rules[i];
            proof {
                lemma_applicable_push(self@.take(i as int), rule@, target);
                assert(self@.take(i as int).push(rule@) =~= self@.take(i + 1));
            }
            if rule.scope.applies_to(target) {
                rules.push(rule);
                proof {
                    assert(rule_views(rules@) =~= so_far.push(rule@));
                }
            }
            i += 1;
        }
        proof {
            assert(self@.take(i as int) =~= self@);
        }
        rules
    }
}

} // verus!
