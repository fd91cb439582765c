//! Grammar symbols and production rules.

use vstd::prelude::*;

verus! {

/// Mathematical value of a [`Symbol`]: the tag together with the name's
/// character sequence.
pub enum SymbolV {
    Nonterminal(Seq<char>),
    Terminal(Seq<char>),
}

impl SymbolV {
    /// The name carried by either variant.
    pub open spec fn name(self) -> Seq<char> {
        match self {
            SymbolV::Nonterminal(s) => s,
            SymbolV::Terminal(s) => s,
        }
    }

    pub open spec fn is_terminal(self) -> bool {
        matches!(self, SymbolV::Terminal(_))
    }

    pub open spec fn is_nonterminal(self) -> bool {
        matches!(self, SymbolV::Nonterminal(_))
    }
}

/// A grammar symbol: a terminal appears in actual input, a nonterminal is
/// expanded by rules. Equality is by (tag, name).
#[derive(Clone, PartialEq, Eq, Hash, Debug)]
pub enum Symbol {
    Nonterminal(String),
    Terminal(String),
}

impl View for Symbol {
    type V = SymbolV;

    open spec fn view(&self) -> SymbolV {
        match self {
            Symbol::Nonterminal(s) => SymbolV::Nonterminal(s@),
            Symbol::Terminal(s) => SymbolV::Terminal(s@),
        }
    }
}

impl DeepView for Symbol {
    type V = SymbolV;

    open spec fn deep_view(&self) -> SymbolV {
        self.view()
    }
}

impl Symbol {
    /// The symbol's bare name, without the tag.
    pub fn to_string(&self) -> (r: String)
        ensures
            r@ == self@.name(),
    {
        match self {
            Symbol::Nonterminal(s) => s.clone(),
            Symbol::Terminal(s) => s.clone(),
        }
    }

    /// True iff `self` is a `Terminal`.
    pub fn is_terminal(&self) -> (r: bool)
        ensures
            r == self@.is_terminal(),
    {
        matches!(self, Symbol::Terminal(_))
    }
}

/// Structural equality of symbols, reflected into the view.
pub fn symbol_eq(a: &Symbol, b: &Symbol) -> (r: bool)
    ensures
        r == (a@ == b@),
{
    match (a, b) {
        (Symbol::Nonterminal(x), Symbol::Nonterminal(y)) => x.eq(y),
        (Symbol::Terminal(x), Symbol::Terminal(y)) => x.eq(y),
        _ => false,
    }
}

/// A copy of `s` with the same view.
pub fn clone_symbol(s: &Symbol) -> (r: Symbol)
    ensures
        r@ == s@,
{
    match s {
        Symbol::Nonterminal(x) => Symbol::Nonterminal(x.clone()),
        Symbol::Terminal(x) => Symbol::Terminal(x.clone()),
    }
}

/// Mathematical value of a [`Rule`].
pub struct RuleV {
    pub lhs: SymbolV,
    pub rhs: Seq<SymbolV>,
}

/// A production: a nonterminal left-hand side and an ordered right-hand
/// side. Compared structurally, not by identity.
#[derive(Clone, PartialEq, Eq, Hash, Debug)]
pub struct Rule {
    pub lhs: Symbol,
    pub rhs: Vec<Symbol>,
}

impl View for Rule {
    type V = RuleV;

    open spec fn view(&self) -> RuleV {
        RuleV { lhs: self.lhs@, rhs: self.rhs.deep_view() }
    }
}

impl DeepView for Rule {
    type V = RuleV;

    open spec fn deep_view(&self) -> RuleV {
        self.view()
    }
}

impl Rule {
    /// A rule with the given left-hand side and an empty right-hand side;
    /// symbols are appended to `rhs` afterwards.
    pub fn new(lhs: Symbol) -> (r: Rule)
        ensures
            r@.lhs == lhs@,
            r@.rhs =~= Seq::<SymbolV>::empty(),
    {
        Rule { lhs, rhs: vec![] }
    }
}

/// Structural equality of rules, reflected into the view.
pub fn rule_eq(a: &Rule, b: &Rule) -> (r: bool)
    ensures
        r == (a@ == b@),
{
    if !symbol_eq(&a.lhs, &b.lhs) {
        return false;
    }
    if a.rhs.len() != b.rhs.len() {
        assert(a@.rhs.len() != b@.rhs.len());
        return false;
    }
    let n = a.rhs.len();
    let mut i: usize = 0;
    while i < n
        invariant
            n == a.rhs.len() == b.rhs.len(),
            i <= n,
            a@.lhs == b@.lhs,
            forall|k: int| 0 <= k < i ==> a@.rhs[k] == b@.rhs[k],
        decreases n - i,
    {
        if !symbol_eq(&a.rhs[i], &b.rhs[i]) {
            assert(a@.rhs[i as int] != b@.rhs[i as int]);
            return false;
        }
        i += 1;
    }
    proof {
        assert(a@.rhs =~= b@.rhs);
    }
    true
}

/// A copy of `r` with the same view.
pub fn clone_rule(r: &Rule) -> (c: Rule)
    ensures
        c@ == r@,
{
    let mut rhs: Vec<Symbol> = Vec::new();
    let n = r.rhs.len();
    let mut i: usize = 0;
    while i < n
        invariant
            n == r.rhs.len(),
            i <= n,
            rhs.len() == i,
            forall|k: int| 0 <= k < i ==> rhs@[k]@ == r.rhs@[k]@,
        decreases n - i,
    {
        rhs.push(clone_symbol(&r.rhs[i]));
        i += 1;
    }
    let c = Rule { lhs: clone_symbol(&r.lhs), rhs };
    proof {
        assert forall|k: int| 0 <= k < c@.rhs.len() implies c@.rhs[k] == r@.rhs[k] by {
            assert(c.rhs@[k]@ == r.rhs@[k]@);
        }
        assert(c@.rhs =~= r@.rhs);
    }
    c
}

} // verus!
