//! Rules: what a rule looks for, where it applies, and how grave a finding is.

use crate::tree::{NodeKind, NodeView, SyntaxNode, SyntaxTree};
use vstd::prelude::*;

verus! {

/// How grave a finding is.
#[derive(Clone, Copy, Debug, PartialEq, Eq, Structural)]
pub enum Severity {
    Warning,
    Error,
}

/// What the scanned file is built into.
#[derive(Clone, Copy, Debug, PartialEq, Eq, Structural)]
pub enum TargetKind {
    Library,
    Binary,
    Test,
}

/// The files in which a rule is in force.
#[derive(Clone, Copy, Debug, PartialEq, Eq, Structural)]
pub enum Scope {
    AnyFile,
    LibraryTargetOnly,
    BinaryTargetOnly,
}

/// The constraint that a method-call pattern puts on the number of arguments.
#[derive(Clone, Copy, Debug, PartialEq, Eq, Structural)]
pub enum ArgCount {
    Any,
    Exactly(usize),
}

/// Why a matcher could not judge a node.
#[derive(Clone, Copy, Debug, PartialEq, Eq, Structural)]
pub enum MatchError {
    /// A call or a macro invocation that carries no name.
    UnnamedNode,
}

impl Scope {
    /// Whether a rule of this scope is in force in a file of kind `target`.
    pub open spec fn admits(self, target: TargetKind) -> bool {
        match self {
            Scope::AnyFile => true,
            Scope::LibraryTargetOnly => target == TargetKind::Library,
            Scope::BinaryTargetOnly => target == TargetKind::Binary,
        }
    }

    /// Whether a rule of this scope is in force in a file of kind `target`.
    pub fn applies_to(&self, target: TargetKind) -> (b: bool)
        ensures
            b == self.admits(target),
    {
        match self {
            Scope::AnyFile => true,
            Scope::LibraryTargetOnly => target == TargetKind::Library,
            Scope::BinaryTargetOnly => target == TargetKind::Binary,
        }
    }
}

impl ArgCount {
    /// Whether a call with `n` arguments meets the constraint.
    pub open spec fn admits(self, n: nat) -> bool {
        match self {
            ArgCount::Any => true,
            ArgCount::Exactly(k) => n == k,
        }
    }

    /// Whether a call with `n` arguments meets the constraint.
    pub fn allows(&self, n: usize) -> (b: bool)
        ensures
            b == self.admits(n as nat),
    {
        match self {
            ArgCount::Any => true,
            ArgCount::Exactly(k) => n == *k,
        }
    }
}

/// What a rule looks for. Matching goes by kind and name alone: nothing is
/// resolved, so a call of anything that is named like a listed method counts.
#[derive(Debug)]
pub enum Matcher {
    /// A call of one of `names` whose argument count meets `args`.
    MethodCall { names: Vec<String>, args: ArgCount },
    /// An invocation of the macro `name`, whatever its arguments.
    MacroInvocation { name: String },
}

/// The character sequences of a list of strings.
pub open spec fn texts(names: Seq<String>) -> Seq<Seq<char>> {
    names.map_values(|s: String| s@)
}

/// The mathematical content of a `Matcher`.
pub enum MatcherView {
    MethodCall { names: Seq<Seq<char>>, args: ArgCount },
    MacroInvocation { name: Seq<char> },
}

impl View for Matcher {
    type V = MatcherView;

    open spec fn view(&self) -> MatcherView {
        match self {
            Matcher::MethodCall { names, args } => MatcherView::MethodCall {
                names: texts(names@),
                args: *args,
            },
            Matcher::MacroInvocation { name } => MatcherView::MacroInvocation { name: name@ },
        }
    }
}

impl MatcherView {
    /// A matcher is usable when every name in it is non-empty and a
    /// method-call pattern lists at least one name.
    pub open spec fn valid(self) -> bool {
        match self {
            MatcherView::MethodCall { names, args } => {
                &&& names.len() > 0
                &&& forall|i: int| 0 <= i < names.len() ==> (#[trigger] names[i]).len() > 0
            },
            MatcherView::MacroInvocation { name } => name.len() > 0,
        }
    }

    /// The verdict on one node. A node of another kind never matches; a
    /// node of the right kind without a name cannot be judged; otherwise
    /// the name decides, and for a call the argument count as well.
    pub open spec fn outcome(self, node: NodeView) -> Result<bool, MatchError> {
        match self {
            MatcherView::MethodCall { names, args } => {
                if node.kind != NodeKind::Call {
                    Ok(false)
                } else if node.name.len() == 0 {
                    Err(MatchError::UnnamedNode)
                } else {
                    Ok(names.contains(node.name) && args.admits(node.arg_count))
                }
            },
            MatcherView::MacroInvocation { name } => {
                if node.kind != NodeKind::MacroInvocation {
                    Ok(false)
                } else if node.name.len() == 0 {
                    Err(MatchError::UnnamedNode)
                } else {
                    Ok(name == node.name)
                }
            },
        }
    }

    /// Whether the matcher judges the node and finds what it looks for.
    pub open spec fn hits(self, node: NodeView) -> bool {
        self.outcome(node) == Ok::<bool, MatchError>(true)
    }
}

/// Whether `name` is one of `names`.
fn listed(names: &Vec<String>, name: &String) -> (found: bool)
    ensures
        found == texts(names@).contains(name@),
{
    let ghost table = texts(names@);
    let mut i: usize = 0;
    while i < names.len()
        invariant
            i <= names@.len(),
            table == texts(names@),
            forall|j: int| 0 <= j < i ==> table[j] != name@,
        decreases names@.len() - i,
    {
        if names[i] == *name {
            assert(table[i as int] == name@);
            return true;
        }
        i += 1;
    }
    false
}

impl Matcher {
    /// Judges one node of a tree.
    pub fn matches(&self, tree: &SyntaxTree, node: SyntaxNode) -> (verdict: Result<
        bool,
        MatchError,
    >)
        requires
            tree.has(node),
        ensures
            verdict == self@.outcome(tree@[node.id()]),
    {
        match self {
            Matcher::MethodCall { names, args } => {
                if tree.kind(node) != NodeKind::Call {
                    Ok(false)
                } else if tree.name(node).as_str().is_empty() {
                    Err(MatchError::UnnamedNode)
                } else {
                    Ok(listed(names, tree.name(node)) && args.allows(tree.arg_count(node)))
                }
            },
            Matcher::MacroInvocation { name } => {
                if tree.kind(node) != NodeKind::MacroInvocation {
                    Ok(false)
                } else if tree.name(node).as_str().is_empty() {
                    Err(MatchError::UnnamedNode)
                } else {
                    Ok(*name == *tree.name(node))
                }
            },
        }
    }
}

/// A named check: what it looks for, where it is in force, and what it
/// reports. In `message`, `{name}` stands for the name that was matched.
#[derive(Debug)]
pub struct Rule {
    pub id: String,
    pub category: String,
    pub severity: Severity,
    pub scope: Scope,
    pub matcher: Matcher,
    pub message: String,
}

/// The mathematical content of a `Rule`.
pub struct RuleView {
    pub id: Seq<char>,
    pub category: Seq<char>,
    pub severity: Severity,
    pub scope: Scope,
    pub matcher: MatcherView,
    pub message: Seq<char>,
}

impl View for Rule {
    type V = RuleView;

    open spec fn view(&self) -> RuleView {
        RuleView {
            id: self.id@,
            category: self.category@,
            severity: self.severity,
            scope: self.scope,
            matcher: self.matcher@,
            message: self.message@,
        }
    }
}

impl RuleView {
    /// A rule can be registered when it has an id and its matcher is usable.
    pub open spec fn valid(self) -> bool {
        self.id.len() > 0 && self.matcher.valid()
    }
}

/// Whether no name in `names` is empty.
fn all_named(names: &Vec<String>) -> (b: bool)
    ensures
        b == forall|i: int| 0 <= i < names@.len() ==> (#[trigger] texts(names@)[i]).len() > 0,
{
    let mut i: usize = 0;
    while i < names.len()
        invariant
            i <= names@.len(),
            forall|j: int| 0 <= j < i ==> (#[trigger] texts(names@)[j]).len() > 0,
        decreases names@.len() - i,
    {
        if names[i].as_str().is_empty() {
            assert(texts(names@)[i as int].len() == 0);
            return false;
        }
        i += 1;
    }
    true
}

impl Matcher {
    /// Whether the matcher is usable.
    pub fn is_valid(&self) -> (b: bool)
        ensures
            b == self@.valid(),
    {
        match self {
            Matcher::MethodCall { names, args } => names.len() > 0 && all_named(names),
            Matcher::MacroInvocation { name } => !name.as_str().is_empty(),
        }
    }
}

impl Rule {
    /// Whether the rule can be registered.
    pub fn is_valid(&self) -> (b: bool)
        ensures
            b == self@.valid(),
    {
        !self.id.as_str().is_empty() && self.matcher.is_valid()
    }
}

} // verus!
