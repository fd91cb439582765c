//! LR(1) table construction: FIRST sets, item-set closure, the canonical
//! collection of item sets with its `goto` map, and the ACTION table.

use vstd::prelude::*;
use vstd::string::StrSliceExecFns;

use crate::rule::{Symbol, SymbolV, Rule, RuleV, symbol_eq, rule_eq, clone_symbol, clone_rule};

verus! {

/// Mathematical value of an [`Item`].
pub struct ItemV {
    pub rule: RuleV,
    pub dot: nat,
    pub la: SymbolV,
}

/// An LR(1) item: a production, a dot position (`0..=rhs.len()`) marking
/// parse progress, and a single lookahead terminal. Compared structurally.
#[derive(Clone, PartialEq, Eq, Hash, Debug)]
pub struct Item(pub Rule, pub usize, pub Symbol);

impl View for Item {
    type V = ItemV;

    open spec fn view(&self) -> ItemV {
        ItemV { rule: self.0@, dot: self.1 as nat, la: self.2@ }
    }
}

impl DeepView for Item {
    type V = ItemV;

    open spec fn deep_view(&self) -> ItemV {
        self.view()
    }
}

/// Structural equality of items, reflected into the view.
pub fn item_eq(a: &Item, b: &Item) -> (r: bool)
    ensures
        r == (a@ == b@),
{
    a.1 == b.1 && symbol_eq(&a.2, &b.2) && rule_eq(&a.0, &b.0)
}

/// A copy of `it` with the same view.
pub fn clone_item(it: &Item) -> (r: Item)
    ensures
        r@ == it@,
{
    Item(clone_rule(&it.0), it.1, clone_symbol(&it.2))
}

/// True iff `items` holds an item with the view of `it`.
pub fn contains_item(items: &Vec<Item>, it: &Item) -> (r: bool)
    ensures
        r == items.deep_view().contains(it@),
{
    let n = items.len();
    let mut i: usize = 0;
    while i < n
        invariant
            n == items.len(),
            i <= n,
            forall|k: int| 0 <= k < i ==> items.deep_view()[k] != it@,
        decreases n - i,
    {
        if item_eq(&items[i], it) {
            assert(items.deep_view()[i as int] == it@);
            return true;
        }
        i += 1;
    }
    false
}

/// True iff `syms` holds a symbol with the view of `s`.
pub fn contains_symbol(syms: &Vec<Symbol>, s: &Symbol) -> (r: bool)
    ensures
        r == syms.deep_view().contains(s@),
{
    let n = syms.len();
    let mut i: usize = 0;
    while i < n
        invariant
            n == syms.len(),
            i <= n,
            forall|k: int| 0 <= k < i ==> syms.deep_view()[k] != s@,
        decreases n - i,
    {
        if symbol_eq(&syms[i], s) {
            assert(syms.deep_view()[i as int] == s@);
            return true;
        }
        i += 1;
    }
    false
}

/// A decision of the ACTION table: shift into a state, reduce by a rule
/// index, or accept the input.
#[derive(Clone, Copy, Debug, PartialEq, Eq, Structural)]
pub enum Action {
    Shift(usize),
    Reduce(usize),
    Acc,
}

/// Why table construction was refused.
#[derive(Clone, Copy, Debug, PartialEq, Eq, Structural)]
pub enum GrammarError {
    /// No rule at all, or some rule with an empty right-hand side: the
    /// FIRST-set engine has no valid seed.
    MalformedGrammar,
    /// A nonterminal occurs in some right-hand side but no rule defines it,
    /// so a closure lookahead could require an absent FIRST set.
    UnresolvedLookahead,
}

/// One FIRST-map binding: the terminals that can begin a string derived
/// from `key`.
pub struct FirstEntry {
    pub key: Symbol,
    pub terms: Vec<Symbol>,
}

/// Mathematical value of a [`FirstEntry`].
pub struct FirstEntryV {
    pub key: SymbolV,
    pub terms: Seq<SymbolV>,
}

impl View for FirstEntry {
    type V = FirstEntryV;

    open spec fn view(&self) -> FirstEntryV {
        FirstEntryV { key: self.key@, terms: self.terms.deep_view() }
    }
}

impl DeepView for FirstEntry {
    type V = FirstEntryV;

    open spec fn deep_view(&self) -> FirstEntryV {
        self.view()
    }
}

/// One `goto` edge: from state `state` over `sym` into state `target`.
pub struct GotoEntry {
    pub state: usize,
    pub sym: Symbol,
    pub target: usize,
}

/// One ACTION cell: in state `state`, on terminal `sym`, take `act`.
pub struct ActionEntry {
    pub state: usize,
    pub sym: Symbol,
    pub act: Action,
}

// ---------------------------------------------------------------------------
// Tokenization of rule text
// ---------------------------------------------------------------------------

/// An ASCII uppercase letter: the first character of a nonterminal token.
pub open spec fn is_upper(c: char) -> bool {
    'A' <= c && c <= 'Z'
}

/// A single-character terminal lexeme.
pub open spec fn is_op(c: char) -> bool {
    c == '+' || c == '-' || c == '*' || c == '/' || c == '(' || c == ')'
}

/// The token sequence of a right-hand-side text: at each position, first a
/// nonterminal token (an uppercase letter with an optional prime mark), then
/// a one-character operator or bracket terminal, then the `num` terminal;
/// a character that starts no token is skipped.
pub open spec fn tokenize(s: Seq<char>) -> Seq<SymbolV>
    decreases s.len(),
{
    if s.len() == 0 {
        Seq::empty()
    } else if is_upper(s[0]) {
        if s.len() >= 2 && s[1] == '\'' {
            seq![SymbolV::Nonterminal(s.take(2))] + tokenize(s.skip(2))
        } else {
            seq![SymbolV::Nonterminal(s.take(1))] + tokenize(s.skip(1))
        }
    } else if is_op(s[0]) {
        seq![SymbolV::Terminal(s.take(1))] + tokenize(s.skip(1))
    } else if s.len() >= 3 && s[0] == 'n' && s[1] == 'u' && s[2] == 'm' {
        seq![SymbolV::Terminal(s.take(3))] + tokenize(s.skip(3))
    } else {
        tokenize(s.skip(1))
    }
}

/// Tokenizes right-hand-side text into grammar symbols, exactly as
/// [`tokenize`] describes.
fn tokenize_rhs(s: &str) -> (toks: Vec<Symbol>)
    ensures
        toks.deep_view() == tokenize(s@),
{
    let n = s.unicode_len();
    let mut toks: Vec<Symbol> = Vec::new();
    let mut i: usize = 0;
    proof {
        assert(s@.skip(0) =~= s@);
        assert(toks.deep_view() =~= Seq::<SymbolV>::empty());
        assert(toks.deep_view() + tokenize(s@) =~= tokenize(s@));
    }
    while i < n
        invariant
            n == s@.len(),
            i <= n,
            toks.deep_view() + tokenize(s@.skip(i as int)) == tokenize(s@),
        decreases n - i,
    {
        let ghost pre = toks.deep_view();
        let ghost su = s@.skip(i as int);
        assert(su.len() == n - i);
        assert(su[0] == s@[i as int]);
        let c = s.get_char(i);
        let step: usize;
        if 'A' <= c && c <= 'Z' {
            if i + 1 < n && s.get_char(i + 1) == '\'' {
                assert(su[1] == s@[i + 1]);
                let name = s.substring_char(i, i + 2).to_owned();
                assert(name@ =~= su.take(2));
                toks.push(Symbol::Nonterminal(name));
                step = 2;
            } else {
                let name = s.substring_char(i, i + 1).to_owned();
                assert(name@ =~= su.take(1));
                toks.push(Symbol::Nonterminal(name));
                step = 1;
            }
        } else if c == '+' || c == '-' || c == '*' || c == '/' || c == '(' || c == ')' {
            let name = s.substring_char(i, i + 1).to_owned();
            assert(name@ =~= su.take(1));
            toks.push(Symbol::Terminal(name));
            step = 1;
        } else if c == 'n' && n - i > 2 && s.get_char(i + 1) == 'u' && s.get_char(i + 2) == 'm' {
            assert(su[1] == s@[i + 1] && su[2] == s@[i + 2]);
            let name = s.substring_char(i, i + 3).to_owned();
            assert(name@ =~= su.take(3));
            toks.push(Symbol::Terminal(name));
            step = 3;
        } else {
            step = 1;
        }
        proof {
            let st = step as int;
            assert(su.skip(st) =~= s@.skip(i + st));
            if toks.deep_view().len() > pre.len() {
                let t = toks.deep_view().last();
                assert(toks.deep_view() =~= pre.push(t));
                assert(tokenize(su) == seq![t] + tokenize(su.skip(st)));
                assert(pre.push(t) + tokenize(s@.skip(i + st)) =~= pre + tokenize(su));
            } else {
                assert(toks.deep_view() == pre);
                assert(tokenize(su) == tokenize(su.skip(st)));
            }
        }
        i += step;
    }
    proof {
        assert(s@.skip(n as int) =~= Seq::<char>::empty());
        assert(tokenize(s@.skip(n as int)) =~= Seq::<SymbolV>::empty());
        assert(toks.deep_view() + tokenize(s@.skip(n as int)) =~= toks.deep_view());
    }
    toks
}

// ---------------------------------------------------------------------------
// The parser
// ---------------------------------------------------------------------------

/// The table-construction engine: an ordered rule list with its nonterminal
/// set, and — once [`Parser::build`] has run — the FIRST map, the canonical
/// collection of LR(1) item sets, and the `goto` / `action` tables.
pub struct Parser {
    /// Ordered productions; a rule's position is its reduce-action index.
    pub rules: Vec<Rule>,
    /// The augmented start symbol `S'`; its sole rule must be rule 0.
    pub start_symbol: Symbol,
    /// The distinct nonterminals registered as rule left-hand sides.
    pub nt_set: Vec<Symbol>,
    /// FIRST map, one entry per nonterminal of `nt_set`, in its order.
    pub first: Vec<FirstEntry>,
    /// The canonical collection: state index = position.
    pub closures: Vec<Vec<Item>>,
    /// The transition map over both terminal and nonterminal edges.
    pub goto: Vec<GotoEntry>,
    /// The shift/reduce/accept table over terminal columns.
    pub action: Vec<ActionEntry>,
}

impl Parser {
    /// The grammar's rules as mathematical values.
    pub open spec fn rules_v(&self) -> Seq<RuleV> {
        self.rules.deep_view()
    }

    /// The registered nonterminals as mathematical values.
    pub open spec fn nt_v(&self) -> Seq<SymbolV> {
        self.nt_set.deep_view()
    }

    /// Well-formedness of the construction-phase fields: `nt_set` holds,
    /// without duplicates, exactly the left-hand sides of the rules, and
    /// every left-hand side is a nonterminal.
    pub open spec fn wf(&self) -> bool {
        &&& self.nt_v().no_duplicates()
        &&& forall|i: int|
            0 <= i < self.nt_v().len() ==> exists|j: int|
                0 <= j < self.rules_v().len() && (#[trigger] self.nt_v()[i])
                    == self.rules_v()[j].lhs
        &&& forall|j: int|
            0 <= j < self.rules_v().len() ==> self.nt_v().contains(
                (#[trigger] self.rules_v()[j]).lhs,
            )
        &&& forall|j: int|
            0 <= j < self.rules_v().len() ==> (#[trigger] self.rules_v()[j]).lhs.is_nonterminal()
        &&& self.start_symbol@.is_nonterminal()
    }

    /// A parser with no rules yet; `start_symbol` names the augmented start
    /// nonterminal whose sole rule must be added first.
    pub fn new(start_symbol: &str) -> (p: Parser)
        ensures
            p.wf(),
            p.rules_v() =~= Seq::<RuleV>::empty(),
            p.nt_v() =~= Seq::<SymbolV>::empty(),
            p.start_symbol@ == SymbolV::Nonterminal(start_symbol@),
            p.closures.deep_view() =~= Seq::<Seq<ItemV>>::empty(),
    {
        Parser {
            rules: vec![],
            start_symbol: Symbol::Nonterminal(start_symbol.to_owned()),
            nt_set: vec![],
            first: vec![],
            closures: vec![],
            goto: vec![],
            action: vec![],
        }
    }

    /// Appends the production `lhs -> tokenize(rhs)` and registers `lhs`
    /// among the nonterminals. Unrecognized characters in `rhs` are skipped,
    /// never an error.
    pub fn add_rule(&mut self, lhs: &str, rhs: &str)
        requires
            old(self).wf(),
        ensures
            final(self).wf(),
            final(self).rules_v() == old(self).rules_v().push(
                RuleV { lhs: SymbolV::Nonterminal(lhs@), rhs: tokenize(rhs@) },
            ),
            final(self).nt_v() == if old(self).nt_v().contains(SymbolV::Nonterminal(lhs@)) {
                old(self).nt_v()
            } else {
                old(self).nt_v().push(SymbolV::Nonterminal(lhs@))
            },
            final(self).start_symbol@ == old(self).start_symbol@,
            final(self).closures.deep_view() == old(self).closures.deep_view(),
    {
        let ghost old_rules = self.rules_v();
        let ghost old_nt = self.nt_v();
        let lhs_sym = Symbol::Nonterminal(lhs.to_owned());
        if !contains_symbol(&self.nt_set, &lhs_sym) {
            self.nt_set.push(clone_symbol(&lhs_sym));
            proof {
                assert(self.nt_v() =~= old_nt.push(SymbolV::Nonterminal(lhs@)));
            }
        }
        let toks = tokenize_rhs(rhs);
        let rule = Rule { lhs: lhs_sym, rhs: toks };
        assert(rule@ == RuleV { lhs: SymbolV::Nonterminal(lhs@), rhs: tokenize(rhs@) });
        self.rules.push(rule);
        proof {
            assert(self.rules_v() =~= old_rules.push(
                RuleV { lhs: SymbolV::Nonterminal(lhs@), rhs: tokenize(rhs@) },
            ));
            let lhsv = SymbolV::Nonterminal(lhs@);
            if old_nt.contains(lhsv) {
                let k0 = choose|k: int| 0 <= k < old_nt.len() && old_nt[k] == lhsv;
                assert(self.nt_v()[k0] == lhsv);
                assert(self.nt_v().contains(lhsv));
            } else {
                assert(self.nt_v() =~= old_nt.push(lhsv));
                assert(self.nt_v()[old_nt.len() as int] == lhsv);
                assert(self.nt_v().contains(lhsv));
            }
            assert forall|i: int| 0 <= i < self.nt_v().len() implies exists|j: int|
                0 <= j < self.rules_v().len() && (#[trigger] self.nt_v()[i])
                    == self.rules_v()[j].lhs by {
                if i < old_nt.len() {
                    let j0 = choose|j: int|
                        0 <= j < old_rules.len() && old_nt[i] == old_rules[j].lhs;
                    assert(self.rules_v()[j0].lhs == self.nt_v()[i]);
                } else {
                    assert(self.rules_v()[old_rules.len() as int].lhs == self.nt_v()[i]);
                }
            }
            assert forall|j: int| 0 <= j < self.rules_v().len() implies self.nt_v().contains(
                (#[trigger] self.rules_v()[j]).lhs,
            ) by {
                if j < old_rules.len() {
                    let k0 = choose|k: int| 0 <= k < old_nt.len() && old_nt[k] == old_rules[j].lhs;
                    assert(self.nt_v()[k0] == self.rules_v()[j].lhs);
                } else {
                    assert(self.nt_v().contains(SymbolV::Nonterminal(lhs@)));
                }
            }
        }
    }
}


// ---------------------------------------------------------------------------
// FIRST map: specification
// ---------------------------------------------------------------------------

/// True iff the map binds `k`.
pub open spec fn fm_has(fm: Seq<FirstEntryV>, k: SymbolV) -> bool {
    exists|i: int| 0 <= i < fm.len() && fm[i].key == k
}

/// The index of the binding of `k` (meaningful when keys are unique).
pub open spec fn fm_idx(fm: Seq<FirstEntryV>, k: SymbolV) -> int {
    choose|i: int| 0 <= i < fm.len() && fm[i].key == k
}

/// The FIRST set bound to `k`.
pub open spec fn fm_at(fm: Seq<FirstEntryV>, k: SymbolV) -> Set<SymbolV> {
    fm[fm_idx(fm, k)].terms.to_set()
}

/// The map's keys are exactly `keys`, in order.
pub open spec fn fm_matches_keys(fm: Seq<FirstEntryV>, keys: Seq<SymbolV>) -> bool {
    fm.len() == keys.len() && forall|i: int|
        0 <= i < fm.len() ==> (#[trigger] fm[i]).key == keys[i]
}

/// No two bindings share a key.
pub open spec fn fm_keys_unique(fm: Seq<FirstEntryV>) -> bool {
    forall|i: int, j: int|
        0 <= i < fm.len() && 0 <= j < fm.len() && i != j ==> (#[trigger] fm[i]).key
            != (#[trigger] fm[j]).key
}

/// No binding's term list repeats a symbol.
pub open spec fn fm_no_dups(fm: Seq<FirstEntryV>) -> bool {
    forall|i: int| 0 <= i < fm.len() ==> (#[trigger] fm[i]).terms.no_duplicates()
}

/// `x` is the leading right-hand-side symbol of some rule.
pub open spec fn sym_in_universe(rules: Seq<RuleV>, x: SymbolV) -> bool {
    exists|j: int|
        0 <= j < rules.len() && (#[trigger] rules[j]).rhs.len() > 0 && x == rules[j].rhs[0]
}

/// Every recorded terminal is the leading right-hand-side symbol of some
/// rule: the universe the FIRST fixpoint draws from.
pub open spec fn fm_universe_ok(rules: Seq<RuleV>, fm: Seq<FirstEntryV>) -> bool {
    forall|i: int, t: int|
        0 <= i < fm.len() && 0 <= t < fm[i].terms.len() ==> sym_in_universe(
            rules,
            #[trigger] fm[i].terms[t],
        )
}

/// FIRST soundness: for every rule `A -> t...` with `t` terminal,
/// `t \in FIRST(A)`; for every rule `A -> B...` with `B` nonterminal,
/// `FIRST(B) \subseteq FIRST(A)`.
pub open spec fn first_sound(rules: Seq<RuleV>, fm: Seq<FirstEntryV>) -> bool {
    forall|j: int|
        0 <= j < rules.len() && (#[trigger] rules[j]).rhs.len() > 0 ==> {
            let s0 = rules[j].rhs[0];
            &&& (s0.is_terminal() ==> fm_at(fm, rules[j].lhs).contains(s0))
            &&& (s0.is_nonterminal() ==> fm_at(fm, s0).subset_of(fm_at(fm, rules[j].lhs)))
        }
}

/// One pass's obligation for rule `j`: the contribution computed from the
/// frozen snapshot `prev` is present in the live map `fm`.
pub open spec fn rule_contrib(
    rules: Seq<RuleV>,
    prev: Seq<FirstEntryV>,
    fm: Seq<FirstEntryV>,
    j: int,
) -> bool {
    rules[j].rhs.len() > 0 ==> {
        let s0 = rules[j].rhs[0];
        &&& (s0.is_terminal() ==> fm_at(fm, rules[j].lhs).contains(s0))
        &&& (s0.is_nonterminal() ==> fm_at(prev, s0).subset_of(fm_at(fm, rules[j].lhs)))
    }
}

/// Pointwise ordering of two maps with the same key layout.
pub open spec fn fm_leq(a: Seq<FirstEntryV>, b: Seq<FirstEntryV>) -> bool {
    a.len() == b.len() && forall|i: int|
        0 <= i < a.len() ==> (#[trigger] a[i]).key == b[i].key && a[i].terms.to_set().subset_of(
            b[i].terms.to_set(),
        )
}

/// Total number of recorded terminals, over all bindings.
pub open spec fn total_terms(fm: Seq<FirstEntryV>) -> nat
    decreases fm.len(),
{
    if fm.len() == 0 {
        0
    } else {
        total_terms(fm.drop_last()) + fm.last().terms.len()
    }
}

/// With unique keys, the binding of `fm[i].key` is `i` itself.
proof fn lemma_fm_idx_is(fm: Seq<FirstEntryV>, i: int)
    requires
        fm_keys_unique(fm),
        0 <= i < fm.len(),
    ensures
        fm_has(fm, fm[i].key),
        fm_idx(fm, fm[i].key) == i,
{
    assert(fm_has(fm, fm[i].key));
    let c = fm_idx(fm, fm[i].key);
    if c != i {
        assert(fm[c].key == fm[i].key);
        assert(false);
    }
}

/// Replacing one binding shifts the total by the difference of that
/// binding's size.
proof fn lemma_total_terms_update(fm: Seq<FirstEntryV>, i: int, e: FirstEntryV)
    requires
        0 <= i < fm.len(),
    ensures
        total_terms(fm.update(i, e)) + fm[i].terms.len() == total_terms(fm) + e.terms.len(),
    decreases fm.len(),
{
    let up = fm.update(i, e);
    if i == fm.len() - 1 {
        assert(up.drop_last() =~= fm.drop_last());
        assert(up.last() == e);
    } else {
        assert(up.drop_last() =~= fm.drop_last().update(i, e));
        assert(up.last() == fm.last());
        lemma_total_terms_update(fm.drop_last(), i, e);
    }
}

/// A duplicate-free term list drawn from the rules' leading symbols has at
/// most one entry per rule.
proof fn lemma_terms_bound(rules: Seq<RuleV>, terms: Seq<SymbolV>)
    requires
        terms.no_duplicates(),
        forall|t: int| 0 <= t < terms.len() ==> sym_in_universe(rules, #[trigger] terms[t]),
    ensures
        terms.len() <= rules.len(),
{
    broadcast use vstd::seq_lib::seq_to_set_is_finite;

    let u = Seq::new(rules.len(), |j: int| if rules[j].rhs.len() > 0 { rules[j].rhs[0] } else { rules[j].lhs });
    terms.unique_seq_to_set();
    assert forall|x: SymbolV| terms.to_set().contains(x) implies u.to_set().contains(x) by {
        let t = choose|t: int| 0 <= t < terms.len() && terms[t] == x;
        assert(sym_in_universe(rules, terms[t]));
        let j = choose|j: int|
            0 <= j < rules.len() && (#[trigger] rules[j]).rhs.len() > 0 && terms[t]
                == rules[j].rhs[0];
        assert(u[j] == x);
        assert(u.contains(x));
    }
    vstd::set_lib::lemma_len_subset(terms.to_set(), u.to_set());
    u.lemma_cardinality_of_set();
}

/// The whole map is bounded by (number of bindings) x (number of rules).
proof fn lemma_total_terms_bound(rules: Seq<RuleV>, fm: Seq<FirstEntryV>)
    requires
        fm_no_dups(fm),
        fm_universe_ok(rules, fm),
    ensures
        total_terms(fm) <= fm.len() * rules.len(),
    decreases fm.len(),
{
    if fm.len() > 0 {
        let rest = fm.drop_last();
        assert(fm_no_dups(rest)) by {
            assert forall|i: int| 0 <= i < rest.len() implies (
            #[trigger] rest[i]).terms.no_duplicates() by {
                assert(rest[i] == fm[i]);
            }
        }
        assert(fm_universe_ok(rules, rest)) by {
            assert forall|i: int, t: int|
                0 <= i < rest.len() && 0 <= t < rest[i].terms.len() implies sym_in_universe(
                rules,
                #[trigger] rest[i].terms[t],
            ) by {
                assert(rest[i] == fm[i]);
                assert(sym_in_universe(rules, fm[i].terms[t]));
            }
        }
        lemma_total_terms_bound(rules, rest);
        let li = fm.len() - 1;
        assert(fm[li].terms.no_duplicates());
        let terms = fm[li].terms;
        assert forall|tt: int| 0 <= tt < terms.len() implies sym_in_universe(
            rules,
            #[trigger] terms[tt],
        ) by {
            assert(sym_in_universe(rules, fm[li].terms[tt]));
        }
        lemma_terms_bound(rules, terms);
        assert((fm.len() - 1) * rules.len() + rules.len() == fm.len() * rules.len())
            by (nonlinear_arith);
    }
}

/// Key layout equal to a duplicate-free key list makes the keys unique.
proof fn lemma_matches_unique(fm: Seq<FirstEntryV>, keys: Seq<SymbolV>)
    requires
        fm_matches_keys(fm, keys),
        keys.no_duplicates(),
    ensures
        fm_keys_unique(fm),
{
}

/// With equal unique key layouts, the same key selects the same index.
proof fn lemma_fm_idx_eq(a: Seq<FirstEntryV>, b: Seq<FirstEntryV>, k: SymbolV)
    requires
        fm_keys_unique(a),
        a.len() == b.len(),
        forall|i: int| 0 <= i < a.len() ==> (#[trigger] a[i]).key == b[i].key,
        fm_has(a, k),
    ensures
        fm_has(b, k),
        fm_idx(b, k) == fm_idx(a, k),
{
    let i = fm_idx(a, k);
    assert(0 <= i < a.len() && a[i].key == k);
    assert(b[i].key == k);
    assert(fm_has(b, k));
    let c = fm_idx(b, k);
    assert(0 <= c < b.len() && b[c].key == k);
    if c != i {
        assert(a[c].key == b[c].key);
        assert(false);
    }
}

// ---------------------------------------------------------------------------
// FIRST map: executable helpers
// ---------------------------------------------------------------------------

/// The index of the binding of `key`, if the map holds one.
fn fm_find(fm: &Vec<FirstEntry>, key: &Symbol) -> (r: Option<usize>)
    ensures
        match r {
            Some(i) => i < fm.len() && fm.deep_view()[i as int].key == key@,
            None => forall|i: int| 0 <= i < fm.len() ==> (#[trigger] fm.deep_view()[i]).key != key@,
        },
{
    let n = fm.len();
    let mut i: usize = 0;
    while i < n
        invariant
            n == fm.len(),
            i <= n,
            forall|k: int| 0 <= k < i ==> (#[trigger] fm.deep_view()[k]).key != key@,
        decreases n - i,
    {
        if symbol_eq(&fm[i].key, key) {
            assert(fm.deep_view()[i as int].key == key@);
            return Some(i);
        }
        i += 1;
    }
    None
}

/// Adds `sym` to the binding at `idx` unless already present; reports
/// whether the map grew.
fn fm_insert(fm: &mut Vec<FirstEntry>, idx: usize, sym: &Symbol) -> (added: bool)
    requires
        idx < old(fm).len(),
    ensures
        final(fm)@.len() == old(fm)@.len(),
        forall|i: int|
            0 <= i < old(fm)@.len() && i != idx ==> final(fm).deep_view()[i] == old(
                fm,
            ).deep_view()[i],
        final(fm).deep_view()[idx as int].key == old(fm).deep_view()[idx as int].key,
        !added ==> final(fm).deep_view() == old(fm).deep_view() && old(fm).deep_view()[
            idx as int
        ].terms.contains(sym@),
        added ==> final(fm).deep_view()[idx as int].terms == old(fm).deep_view()[
            idx as int
        ].terms.push(sym@) && !old(fm).deep_view()[idx as int].terms.contains(sym@),
{
    let ghost pre = fm.deep_view();
    if contains_symbol(&fm[idx].terms, sym) {
        proof {
            assert(fm.deep_view() =~= pre);
        }
        false
    } else {
        fm[idx].terms.push(clone_symbol(sym));
        proof {
            assert(final(fm).deep_view()[idx as int].terms =~= pre[idx as int].terms.push(sym@));
            assert forall|i: int| 0 <= i < pre.len() && i != idx implies final(fm).deep_view()[i]
                == pre[i] by {}
        }
        true
    }
}

/// A copy of the map with the same view.
fn clone_first(fm: &Vec<FirstEntry>) -> (r: Vec<FirstEntry>)
    ensures
        r.deep_view() == fm.deep_view(),
{
    let mut r: Vec<FirstEntry> = Vec::new();
    let n = fm.len();
    let mut i: usize = 0;
    while i < n
        invariant
            n == fm.len(),
            i <= n,
            r.len() == i,
            forall|k: int| 0 <= k < i ==> r.deep_view()[k] == fm.deep_view()[k],
        decreases n - i,
    {
        let e = &fm[i];
        let mut terms: Vec<Symbol> = Vec::new();
        let m = e.terms.len();
        let mut j: usize = 0;
        while j < m
            invariant
                m == e.terms.len(),
                j <= m,
                terms.len() == j,
                forall|k: int| 0 <= k < j ==> terms@[k]@ == e.terms@[k]@,
            decreases m - j,
        {
            terms.push(clone_symbol(&e.terms[j]));
            j += 1;
        }
        proof {
            assert forall|k: int| 0 <= k < terms.deep_view().len() implies terms.deep_view()[k]
                == e.terms.deep_view()[k] by {
                assert(terms@[k]@ == e.terms@[k]@);
            }
            assert(terms.deep_view() =~= e.terms.deep_view());
        }
        r.push(FirstEntry { key: clone_symbol(&e.key), terms });
        proof {
            assert(r.deep_view()[i as int] == fm.deep_view()[i as int]);
        }
        i += 1;
    }
    proof {
        assert(r.deep_view() =~= fm.deep_view());
    }
    r
}

/// Shape bookkeeping for one successful insertion into the map.
proof fn lemma_after_insert(
    rules: Seq<RuleV>,
    keys: Seq<SymbolV>,
    pre: Seq<FirstEntryV>,
    post: Seq<FirstEntryV>,
    idx: int,
    x: SymbolV,
)
    requires
        fm_matches_keys(pre, keys),
        keys.no_duplicates(),
        fm_no_dups(pre),
        fm_universe_ok(rules, pre),
        sym_in_universe(rules, x),
        0 <= idx < pre.len(),
        !pre[idx].terms.contains(x),
        post.len() == pre.len(),
        forall|i: int| 0 <= i < pre.len() && i != idx ==> #[trigger] post[i] == pre[i],
        post[idx].key == pre[idx].key,
        post[idx].terms == pre[idx].terms.push(x),
    ensures
        fm_matches_keys(post, keys),
        fm_keys_unique(post),
        fm_no_dups(post),
        fm_universe_ok(rules, post),
        total_terms(post) == total_terms(pre) + 1,
        forall|i: int|
            0 <= i < pre.len() ==> (#[trigger] pre[i]).terms.to_set().subset_of(
                post[i].terms.to_set(),
            ),
        post[idx].terms.to_set() == pre[idx].terms.to_set().insert(x),
{
    lemma_push_no_dup_g(pre[idx].terms, x);
    lemma_to_set_push_g(pre[idx].terms, x);
    assert(post =~= pre.update(idx, post[idx]));
    lemma_total_terms_update(pre, idx, post[idx]);
    assert(fm_matches_keys(post, keys)) by {
        assert forall|i: int| 0 <= i < post.len() implies (#[trigger] post[i]).key == keys[i] by {
            if i != idx {
                assert(post[i] == pre[i]);
            }
        }
    }
    lemma_matches_unique(post, keys);
    assert(fm_no_dups(post)) by {
        assert forall|i: int| 0 <= i < post.len() implies (
        #[trigger] post[i]).terms.no_duplicates() by {
            if i != idx {
                assert(post[i] == pre[i]);
            }
        }
    }
    assert(fm_universe_ok(rules, post)) by {
        assert forall|i: int, tt: int|
            0 <= i < post.len() && 0 <= tt < post[i].terms.len() implies sym_in_universe(
            rules,
            #[trigger] post[i].terms[tt],
        ) by {
            if i != idx {
                assert(post[i] == pre[i]);
                assert(sym_in_universe(rules, pre[i].terms[tt]));
            } else {
                if tt < pre[idx].terms.len() {
                    assert(post[idx].terms[tt] == pre[idx].terms[tt]);
                    assert(sym_in_universe(rules, pre[idx].terms[tt]));
                } else {
                    assert(post[idx].terms[tt] == x);
                }
            }
        }
    }
    assert forall|i: int| 0 <= i < pre.len() implies (
    #[trigger] pre[i]).terms.to_set().subset_of(post[i].terms.to_set()) by {
        if i != idx {
            assert(post[i] == pre[i]);
        }
    }
}

/// A pass obligation survives pointwise growth of the live map.
proof fn lemma_contrib_mono(
    rules: Seq<RuleV>,
    prev: Seq<FirstEntryV>,
    a: Seq<FirstEntryV>,
    b: Seq<FirstEntryV>,
    j: int,
)
    requires
        0 <= j < rules.len(),
        rule_contrib(rules, prev, a, j),
        fm_keys_unique(a),
        a.len() == b.len(),
        forall|i: int| 0 <= i < a.len() ==> (#[trigger] a[i]).key == b[i].key,
        forall|i: int|
            0 <= i < a.len() ==> (#[trigger] a[i]).terms.to_set().subset_of(b[i].terms.to_set()),
        rules[j].rhs.len() > 0 ==> fm_has(a, rules[j].lhs),
    ensures
        rule_contrib(rules, prev, b, j),
{
    if rules[j].rhs.len() > 0 {
        lemma_fm_idx_eq(a, b, rules[j].lhs);
        let li = fm_idx(a, rules[j].lhs);
        assert(a[li].terms.to_set().subset_of(b[li].terms.to_set()));
    }
}

impl Parser {
    /// The FIRST map as mathematical values.
    pub open spec fn first_v(&self) -> Seq<FirstEntryV> {
        self.first.deep_view()
    }

    /// Computes the FIRST set of every registered nonterminal: the least map
    /// (pointwise, under the key layout of `nt_set`) that is FIRST-sound for
    /// the grammar's rules.
    fn get_first(&mut self)
        requires
            old(self).wf(),
            forall|j: int|
                0 <= j < old(self).rules_v().len() ==> (#[trigger] old(
                    self,
                ).rules_v()[j]).rhs.len() > 0,
            forall|j: int|
                0 <= j < old(self).rules_v().len() ==> ((#[trigger] old(
                    self,
                ).rules_v()[j]).rhs[0].is_nonterminal() ==> old(self).nt_v().contains(
                    old(self).rules_v()[j].rhs[0],
                )),
        ensures
            final(self).rules == old(self).rules,
            final(self).nt_set == old(self).nt_set,
            final(self).start_symbol == old(self).start_symbol,
            final(self).closures == old(self).closures,
            final(self).goto == old(self).goto,
            final(self).action == old(self).action,
            fm_matches_keys(final(self).first_v(), old(self).nt_v()),
            fm_no_dups(final(self).first_v()),
            fm_universe_ok(old(self).rules_v(), final(self).first_v()),
            first_sound(old(self).rules_v(), final(self).first_v()),
            forall|g: Seq<FirstEntryV>|
                fm_matches_keys(g, old(self).nt_v()) && first_sound(old(self).rules_v(), g)
                    ==> fm_leq(final(self).first_v(), g),
    {
        let ghost ntv = self.nt_v();
        let ghost rv = self.rules_v();
        self.first = Vec::new();
        let nnt = self.nt_set.len();
        let mut k: usize = 0;
        while k < nnt
            invariant
                self.rules == old(self).rules,
                self.nt_set == old(self).nt_set,
                self.start_symbol == old(self).start_symbol,
                self.closures == old(self).closures,
                self.goto == old(self).goto,
                self.action == old(self).action,
                nnt == self.nt_set.len(),
                ntv == self.nt_v(),
                rv == self.rules_v(),
                k <= nnt,
                self.first.len() == k,
                forall|i: int|
                    0 <= i < k ==> (#[trigger] self.first_v()[i]).key == ntv[i]
                        && self.first_v()[i].terms.len() == 0,
            decreases nnt - k,
        {
            let ghost fmp = self.first_v();
            let e = FirstEntry { key: clone_symbol(&self.nt_set[k]), terms: Vec::new() };
            self.first.push(e);
            proof {
                assert(self.first_v()[k as int].key == ntv[k as int]);
                assert(self.first_v()[k as int].terms.len() == 0);
                assert forall|i: int| 0 <= i < k implies (#[trigger] self.first_v()[i]).key
                    == ntv[i] && self.first_v()[i].terms.len() == 0 by {
                    assert(self.first_v()[i] == fmp[i]);
                }
            }
            k += 1;
        }
        proof {
            assert(fm_matches_keys(self.first_v(), ntv));
            lemma_matches_unique(self.first_v(), ntv);
            assert forall|i: int| 0 <= i < self.first_v().len() implies (
            #[trigger] self.first_v()[i]).terms.to_set() =~= Set::<SymbolV>::empty() by {
                assert(self.first_v()[i].terms.len() == 0);
                assert(forall|x: SymbolV| !(#[trigger] self.first_v()[i].terms.contains(x)));
            }
            lemma_total_terms_bound(rv, self.first_v());
        }
        proof {
            assert forall|j2: int| 0 <= j2 < rv.len() implies ntv.contains(
                (#[trigger] rv[j2]).lhs,
            ) by {}
        }
        let ghost bound = (ntv.len() * rv.len()) as int;
        let mut changed = true;
        while changed
            invariant
                self.rules == old(self).rules,
                self.nt_set == old(self).nt_set,
                self.start_symbol == old(self).start_symbol,
                self.closures == old(self).closures,
                self.goto == old(self).goto,
                self.action == old(self).action,
                ntv == self.nt_v(),
                rv == self.rules_v(),
                old(self).wf(),
                forall|j: int| 0 <= j < rv.len() ==> (#[trigger] rv[j]).rhs.len() > 0,
                forall|j: int|
                    0 <= j < rv.len() ==> ((#[trigger] rv[j]).rhs[0].is_nonterminal()
                        ==> ntv.contains(rv[j].rhs[0])),
                forall|j: int| 0 <= j < rv.len() ==> ntv.contains((#[trigger] rv[j]).lhs),
                bound == ntv.len() * rv.len(),
                fm_matches_keys(self.first_v(), ntv),
                fm_keys_unique(self.first_v()),
                fm_no_dups(self.first_v()),
                fm_universe_ok(rv, self.first_v()),
                total_terms(self.first_v()) <= bound,
                forall|g: Seq<FirstEntryV>|
                    fm_matches_keys(g, ntv) && first_sound(rv, g) ==> fm_leq(self.first_v(), g),
                !changed ==> first_sound(rv, self.first_v()),
            decreases bound - total_terms(self.first_v()), (if changed { 1int } else { 0int }),
        {
            let prev = clone_first(&self.first);
            let ghost prev_v = self.first_v();
            let mut anychange = false;
            let nr = self.rules.len();
            let mut j: usize = 0;
            while j < nr
                invariant
                    self.rules == old(self).rules,
                    self.nt_set == old(self).nt_set,
                    self.start_symbol == old(self).start_symbol,
                    self.closures == old(self).closures,
                    self.goto == old(self).goto,
                    self.action == old(self).action,
                    ntv == self.nt_v(),
                    rv == self.rules_v(),
                    old(self).wf(),
                    forall|j2: int| 0 <= j2 < rv.len() ==> (#[trigger] rv[j2]).rhs.len() > 0,
                    forall|j2: int|
                        0 <= j2 < rv.len() ==> ((#[trigger] rv[j2]).rhs[0].is_nonterminal()
                            ==> ntv.contains(rv[j2].rhs[0])),
                    forall|j2: int| 0 <= j2 < rv.len() ==> ntv.contains((#[trigger] rv[j2]).lhs),
                    nr == self.rules.len(),
                    j <= nr,
                    prev.deep_view() == prev_v,
                    fm_matches_keys(prev_v, ntv),
                    fm_keys_unique(prev_v),
                    fm_universe_ok(rv, prev_v),
                    fm_matches_keys(self.first_v(), ntv),
                    fm_keys_unique(self.first_v()),
                    fm_no_dups(self.first_v()),
                    fm_universe_ok(rv, self.first_v()),
                    self.first_v().len() == prev_v.len(),
                    forall|i: int|
                        0 <= i < prev_v.len() ==> (#[trigger] prev_v[i]).terms.to_set().subset_of(
                            self.first_v()[i].terms.to_set(),
                        ),
                    anychange ==> total_terms(self.first_v()) > total_terms(prev_v),
                    !anychange ==> self.first_v() == prev_v,
                    forall|j2: int| 0 <= j2 < j ==> rule_contrib(rv, prev_v, self.first_v(), j2),
                    forall|g: Seq<FirstEntryV>|
                        fm_matches_keys(g, ntv) && first_sound(rv, g) ==> fm_leq(prev_v, g),
                    forall|g: Seq<FirstEntryV>|
                        fm_matches_keys(g, ntv) && first_sound(rv, g) ==> fm_leq(
                            self.first_v(),
                            g,
                        ),
                decreases nr - j,
            {
                let ghost fm0 = self.first_v();
                let lhs_c = clone_symbol(&self.rules[j].lhs);
                proof {
                    assert(ntv.contains(rv[j as int].lhs));
                }
                let li = match fm_find(&self.first, &lhs_c) {
                    Some(i) => i,
                    None => {
                        proof {
                            let ki = choose|ki: int|
                                0 <= ki < ntv.len() && ntv[ki] == rv[j as int].lhs;
                            assert(self.first_v()[ki].key == rv[j as int].lhs);
                            assert(false);
                        }
                        0
                    },
                };
                proof {
                    lemma_fm_idx_is(self.first_v(), li as int);
                    lemma_fm_idx_is(prev_v, li as int);
                }
                let s0 = clone_symbol(&self.rules[j].rhs[0]);
                if s0.is_terminal() {
                    let added = fm_insert(&mut self.first, li, &s0);
                    proof {
                        if added {
                            lemma_after_insert(rv, ntv, fm0, self.first_v(), li as int, s0@);
                            assert(self.first_v()[li as int].terms[fm0[
                                li as int
                            ].terms.len() as int] == s0@);
                        }
                        assert(self.first_v()[li as int].terms.contains(s0@));
                        assert(fm_at(self.first_v(), rv[j as int].lhs).contains(s0@)) by {
                            lemma_fm_idx_is(self.first_v(), li as int);
                        }
                        assert forall|j2: int| 0 <= j2 < j + 1 implies rule_contrib(
                            rv,
                            prev_v,
                            self.first_v(),
                            j2,
                        ) by {
                            if j2 < j {
                                assert(ntv.contains(rv[j2].lhs));
                                let ki = choose|ki: int|
                                    0 <= ki < ntv.len() && ntv[ki] == rv[j2].lhs;
                                assert(fm0[ki].key == rv[j2].lhs);
                                assert(fm_has(fm0, rv[j2].lhs));
                                lemma_contrib_mono(rv, prev_v, fm0, self.first_v(), j2);
                            }
                        }
                        assert forall|g: Seq<FirstEntryV>|
                            fm_matches_keys(g, ntv) && first_sound(rv, g) implies fm_leq(
                            self.first_v(),
                            g,
                        ) by {
                            lemma_matches_unique(g, ntv);
                            lemma_fm_idx_is(g, li as int);
                            assert(fm_at(g, rv[j as int].lhs).contains(s0@));
                            assert(g[li as int].terms.to_set().contains(s0@));
                            assert(fm_leq(fm0, g));
                            assert forall|i: int| 0 <= i < self.first_v().len() implies (
                            #[trigger] self.first_v()[i]).key == g[i].key
                                && self.first_v()[i].terms.to_set().subset_of(
                                g[i].terms.to_set(),
                            ) by {
                                if i != li as int {
                                    assert(self.first_v()[i] == fm0[i]);
                                }
                            }
                        }
                    }
                    if added {
                        anychange = true;
                    }
                } else {
                    proof {
                        assert(rv[j as int].rhs[0].is_nonterminal());
                        assert(ntv.contains(rv[j as int].rhs[0]));
                    }
                    let si = match fm_find(&prev, &s0) {
                        Some(i) => i,
                        None => {
                            proof {
                                let ki = choose|ki: int|
                                    0 <= ki < ntv.len() && ntv[ki] == rv[j as int].rhs[0];
                                assert(prev_v[ki].key == rv[j as int].rhs[0]);
                                assert(false);
                            }
                            0
                        },
                    };
                    proof {
                        lemma_fm_idx_is(prev_v, si as int);
                    }
                    let m = prev[si].terms.len();
                    let mut ti: usize = 0;
                    while ti < m
                        invariant
                            self.rules == old(self).rules,
                            self.nt_set == old(self).nt_set,
                            self.start_symbol == old(self).start_symbol,
                            self.closures == old(self).closures,
                            self.goto == old(self).goto,
                            self.action == old(self).action,
                            ntv == self.nt_v(),
                            rv == self.rules_v(),
                            old(self).wf(),
                            forall|j2: int| 0 <= j2 < rv.len() ==> (#[trigger] rv[j2]).rhs.len() > 0,
                            forall|j2: int|
                                0 <= j2 < rv.len() ==> ntv.contains((#[trigger] rv[j2]).lhs),
                            nr == self.rules.len(),
                            j < nr,
                            prev.deep_view() == prev_v,
                            fm_matches_keys(prev_v, ntv),
                            fm_keys_unique(prev_v),
                            fm_universe_ok(rv, prev_v),
                            si < prev.len(),
                            prev_v[si as int].key == rv[j as int].rhs[0],
                            fm_idx(prev_v, rv[j as int].rhs[0]) == si as int,
                            li < prev_v.len(),
                            prev_v[li as int].key == rv[j as int].lhs,
                            self.first_v().len() == prev_v.len(),
                            self.first_v()[li as int].key == rv[j as int].lhs,
                            fm_idx(self.first_v(), rv[j as int].lhs) == li as int,
                            rv[j as int].rhs.len() > 0,
                            rv[j as int].rhs[0].is_nonterminal(),
                            m == prev_v[si as int].terms.len(),
                            ti <= m,
                            fm_matches_keys(self.first_v(), ntv),
                            fm_keys_unique(self.first_v()),
                            fm_no_dups(self.first_v()),
                            fm_universe_ok(rv, self.first_v()),
                            forall|i: int|
                                0 <= i < prev_v.len() ==> (
                                #[trigger] prev_v[i]).terms.to_set().subset_of(
                                    self.first_v()[i].terms.to_set(),
                                ),
                            anychange ==> total_terms(self.first_v()) > total_terms(prev_v),
                            !anychange ==> self.first_v() == prev_v,
                            forall|j2: int|
                                0 <= j2 < j ==> rule_contrib(rv, prev_v, self.first_v(), j2),
                            forall|g: Seq<FirstEntryV>|
                                fm_matches_keys(g, ntv) && first_sound(rv, g) ==> fm_leq(
                                    prev_v,
                                    g,
                                ),
                            forall|g: Seq<FirstEntryV>|
                                fm_matches_keys(g, ntv) && first_sound(rv, g) ==> fm_leq(
                                    self.first_v(),
                                    g,
                                ),
                            forall|t2: int|
                                0 <= t2 < ti ==> self.first_v()[li as int].terms.to_set().contains(
                                    #[trigger] prev_v[si as int].terms[t2],
                                ),
                        decreases m - ti,
                    {
                        let ghost fm1 = self.first_v();
                        let x = clone_symbol(&prev[si].terms[ti]);
                        let added = fm_insert(&mut self.first, li, &x);
                        proof {
                            assert(sym_in_universe(rv, x@)) by {
                                assert(prev_v[si as int].terms[ti as int] == x@);
                                assert(sym_in_universe(rv, prev_v[si as int].terms[ti as int]));
                            }
                            if added {
                                lemma_after_insert(rv, ntv, fm1, self.first_v(), li as int, x@);
                                assert(self.first_v()[li as int].terms[fm1[
                                    li as int
                                ].terms.len() as int] == x@);
                            }
                            assert(self.first_v()[li as int].terms.contains(x@));
                            assert forall|t2: int| 0 <= t2 < ti + 1 implies self.first_v()[
                                li as int
                            ].terms.to_set().contains(
                                #[trigger] prev_v[si as int].terms[t2],
                            ) by {
                                if t2 < ti {
                                    assert(fm1[li as int].terms.to_set().contains(
                                        prev_v[si as int].terms[t2],
                                    ));
                                    assert(fm1[li as int].terms.to_set().subset_of(
                                        self.first_v()[li as int].terms.to_set(),
                                    ));
                                }
                            }
                            assert forall|j2: int| 0 <= j2 < j implies rule_contrib(
                                rv,
                                prev_v,
                                self.first_v(),
                                j2,
                            ) by {
                                assert(ntv.contains(rv[j2].lhs));
                                let ki = choose|ki: int|
                                    0 <= ki < ntv.len() && ntv[ki] == rv[j2].lhs;
                                assert(fm1[ki].key == rv[j2].lhs);
                                assert(fm_has(fm1, rv[j2].lhs));
                                lemma_contrib_mono(rv, prev_v, fm1, self.first_v(), j2);
                            }
                            assert forall|g: Seq<FirstEntryV>|
                                fm_matches_keys(g, ntv) && first_sound(rv, g) implies fm_leq(
                                self.first_v(),
                                g,
                            ) by {
                                lemma_matches_unique(g, ntv);
                                lemma_fm_idx_is(g, li as int);
                                lemma_fm_idx_is(g, si as int);
                                assert(fm_leq(prev_v, g));
                                assert(prev_v[si as int].terms.to_set().subset_of(
                                    g[si as int].terms.to_set(),
                                ));
                                assert(fm_at(g, rv[j as int].rhs[0]).subset_of(
                                    fm_at(g, rv[j as int].lhs),
                                ));
                                assert(prev_v[si as int].terms[ti as int] == x@);
                                assert(prev_v[si as int].terms.contains(x@));
                                assert(prev_v[si as int].terms.to_set().contains(x@));
                                assert(g[si as int].terms.to_set().contains(x@));
                                assert(g[li as int].terms.to_set().contains(x@));
                                assert(fm_leq(fm1, g));
                                assert forall|i: int| 0 <= i < self.first_v().len() implies (
                                #[trigger] self.first_v()[i]).key == g[i].key
                                    && self.first_v()[i].terms.to_set().subset_of(
                                    g[i].terms.to_set(),
                                ) by {
                                    if i != li as int {
                                        assert(self.first_v()[i] == fm1[i]);
                                    }
                                }
                            }
                        }
                        if added {
                            anychange = true;
                        }
                        ti += 1;
                    }
                    proof {
                        assert(rule_contrib(rv, prev_v, self.first_v(), j as int)) by {
                            assert(fm_at(prev_v, rv[j as int].rhs[0]) == prev_v[
                                si as int
                            ].terms.to_set());
                            assert forall|x2: SymbolV|
                                prev_v[si as int].terms.to_set().contains(x2) implies fm_at(
                                self.first_v(),
                                rv[j as int].lhs,
                            ).contains(x2) by {
                                let t2 = choose|t2: int|
                                    0 <= t2 < prev_v[si as int].terms.len() && prev_v[
                                        si as int
                                    ].terms[t2] == x2;
                                assert(self.first_v()[li as int].terms.to_set().contains(
                                    prev_v[si as int].terms[t2],
                                ));
                            }
                        }
                    }
                }
                j += 1;
            }
            proof {
                lemma_total_terms_bound(rv, self.first_v());
                if !anychange {
                    assert(self.first_v() == prev_v);
                    assert forall|j2: int|
                        0 <= j2 < rv.len() && (#[trigger] rv[j2]).rhs.len() > 0 implies {
                        let s0 = rv[j2].rhs[0];
                        &&& (s0.is_terminal() ==> fm_at(self.first_v(), rv[j2].lhs).contains(s0))
                        &&& (s0.is_nonterminal() ==> fm_at(self.first_v(), s0).subset_of(
                            fm_at(self.first_v(), rv[j2].lhs),
                        ))
                    } by {
                        assert(rule_contrib(rv, prev_v, self.first_v(), j2));
                    }
                    assert(first_sound(rv, self.first_v()));
                }
            }
            changed = anychange;
        }
    }
}


// ---------------------------------------------------------------------------
// LR(1) closure: specification
// ---------------------------------------------------------------------------

/// Every nonterminal occurring in a right-hand side is a registered
/// nonterminal, so its FIRST set exists.
pub open spec fn grammar_resolved(rules: Seq<RuleV>, nt: Seq<SymbolV>) -> bool {
    forall|j: int, p: int|
        0 <= j < rules.len() && 0 <= p < rules[j].rhs.len() && (
        #[trigger] rules[j].rhs[p]).is_nonterminal() ==> nt.contains(rules[j].rhs[p])
}

/// The item's rule is one of the grammar's rules and its dot is within
/// bounds.
pub open spec fn item_wf(rules: Seq<RuleV>, it: ItemV) -> bool {
    &&& exists|j: int| 0 <= j < rules.len() && (#[trigger] rules[j]) == it.rule
    &&& it.dot <= it.rule.rhs.len()
}

/// All items of the sequence are well formed.
pub open spec fn items_wf(rules: Seq<RuleV>, s: Seq<ItemV>) -> bool {
    forall|i: int| 0 <= i < s.len() ==> item_wf(rules, #[trigger] s[i])
}

/// The lookaheads an item propagates when its dot symbol is expanded: the
/// symbol after the dot symbol if it is a terminal, its FIRST set if it is
/// a nonterminal, and the item's own lookahead when the dot symbol is last.
pub open spec fn la_set(fm: Seq<FirstEntryV>, it: ItemV) -> Set<SymbolV> {
    if it.dot + 1 < it.rule.rhs.len() {
        let f = it.rule.rhs[it.dot as int + 1];
        if f.is_nonterminal() {
            fm_at(fm, f)
        } else {
            set![f]
        }
    } else {
        set![it.la]
    }
}

/// `it2` is one of the items the closure expansion adds for `it`.
pub open spec fn derives(fm: Seq<FirstEntryV>, it: ItemV, it2: ItemV) -> bool {
    &&& it.dot < it.rule.rhs.len()
    &&& it.rule.rhs[it.dot as int].is_nonterminal()
    &&& it2.dot == 0
    &&& it2.rule.lhs == it.rule.rhs[it.dot as int]
    &&& la_set(fm, it).contains(it2.la)
}

/// `s` is closed under the expansion rule: whatever an item of `s` derives
/// (through a grammar rule) is again in `s`.
pub open spec fn closure_closed(rules: Seq<RuleV>, fm: Seq<FirstEntryV>, s: Set<ItemV>) -> bool {
    forall|it: ItemV, it2: ItemV|
        #![trigger s.contains(it), s.contains(it2)]
        s.contains(it) && derives(fm, it, it2) && item_wf(rules, it2) ==> s.contains(it2)
}

/// `c` is the closure of `kernel`: the least superset of `kernel` closed
/// under the expansion rule.
pub open spec fn is_closure_of(
    rules: Seq<RuleV>,
    fm: Seq<FirstEntryV>,
    kernel: Set<ItemV>,
    c: Set<ItemV>,
) -> bool {
    &&& kernel.subset_of(c)
    &&& closure_closed(rules, fm, c)
    &&& forall|t: Set<ItemV>|
        kernel.subset_of(t) && closure_closed(rules, fm, t) ==> c.subset_of(t)
}

/// Every element of the sequence lies in `t`.
pub open spec fn all_in(s: Seq<ItemV>, t: Set<ItemV>) -> bool {
    forall|i: int| 0 <= i < s.len() ==> t.contains(#[trigger] s[i])
}

/// Index `i` of `s` has been expanded: every item it derives through a
/// grammar rule is already in `s`.
pub open spec fn item_processed(
    rules: Seq<RuleV>,
    fm: Seq<FirstEntryV>,
    s: Seq<ItemV>,
    i: int,
) -> bool {
    (s[i].dot < s[i].rule.rhs.len() && s[i].rule.rhs[s[i].dot as int].is_nonterminal())
        ==> forall|j: int, la: SymbolV|
        #![trigger rules[j].lhs, la_set(fm, s[i]).contains(la)]
        0 <= j < rules.len() && rules[j].lhs == s[i].rule.rhs[s[i].dot as int] && la_set(
            fm,
            s[i],
        ).contains(la) ==> s.to_set().contains(ItemV { rule: rules[j], dot: 0, la: la })
}

/// The symbols a closure run can use as lookaheads.
pub open spec fn usym_seq(
    rules: Seq<RuleV>,
    fm: Seq<FirstEntryV>,
    kernel: Seq<ItemV>,
) -> Seq<SymbolV> {
    kernel.map_values(|it: ItemV| it.la) + rules.map_values(|r: RuleV| r.rhs).flatten()
        + fm.map_values(|e: FirstEntryV| e.terms).flatten()
}

/// A finite item universe every closure of `kernel` stays inside: the
/// kernel itself and every dot-0 item of a grammar rule with a lookahead
/// from [`usym_seq`].
pub open spec fn item_univ(
    rules: Seq<RuleV>,
    fm: Seq<FirstEntryV>,
    kernel: Seq<ItemV>,
) -> Seq<ItemV> {
    let us = usym_seq(rules, fm, kernel);
    kernel + Seq::new(
        rules.len() * us.len(),
        |k: int| ItemV { rule: rules[k / (us.len() as int)], dot: 0, la: us[k % (us.len() as int)] },
    )
}

/// Appending a fresh element keeps a sequence duplicate-free.
proof fn lemma_push_no_dup_g<A>(s: Seq<A>, x: A)
    requires
        s.no_duplicates(),
        !s.contains(x),
    ensures
        s.push(x).no_duplicates(),
{
    let p = s.push(x);
    assert forall|i: int, j: int| 0 <= i < p.len() && 0 <= j < p.len() && i != j implies p[i]
        != p[j] by {
        if i < s.len() && j < s.len() {
            assert(s[i] == p[i] && s[j] == p[j]);
        } else if i < s.len() {
            assert(s.contains(s[i]));
        } else if j < s.len() {
            assert(s.contains(s[j]));
        }
    }
}

/// `push` on the sequence is `insert` on its set of elements.
proof fn lemma_to_set_push_g<A>(s: Seq<A>, x: A)
    ensures
        s.push(x).to_set() == s.to_set().insert(x),
{
    let p = s.push(x);
    assert forall|y: A| p.to_set().contains(y) implies s.to_set().insert(x).contains(y) by {
        let i = choose|i: int| 0 <= i < p.len() && p[i] == y;
        if i < s.len() {
            assert(s.contains(y));
        }
    }
    assert forall|y: A| s.to_set().insert(x).contains(y) implies p.to_set().contains(y) by {
        if y == x {
            assert(p[s.len() as int] == x);
            assert(p.contains(y));
        } else {
            let i = choose|i: int| 0 <= i < s.len() && s[i] == y;
            assert(p[i] == y);
            assert(p.contains(y));
        }
    }
    assert(p.to_set() =~= s.to_set().insert(x));
}

/// A duplicate-free sequence drawn from `u` is no longer than `u`.
proof fn lemma_unique_len_bound<A>(s: Seq<A>, u: Seq<A>)
    requires
        s.no_duplicates(),
        forall|i: int| 0 <= i < s.len() ==> u.contains(#[trigger] s[i]),
    ensures
        s.len() <= u.len(),
{
    broadcast use vstd::seq_lib::seq_to_set_is_finite;

    s.unique_seq_to_set();
    assert forall|x: A| s.to_set().contains(x) implies u.to_set().contains(x) by {
        let i = choose|i: int| 0 <= i < s.len() && s[i] == x;
        assert(u.contains(s[i]));
    }
    vstd::set_lib::lemma_len_subset(s.to_set(), u.to_set());
    u.lemma_cardinality_of_set();
}

/// An element of a part is an element of the flattening.
proof fn lemma_flatten_contains<A>(ss: Seq<Seq<A>>, i: int, x: A)
    requires
        0 <= i < ss.len(),
        ss[i].contains(x),
    ensures
        ss.flatten().contains(x),
    decreases ss.len(),
{
    if i == 0 {
        let k = choose|k: int| 0 <= k < ss[0].len() && ss[0][k] == x;
        assert(ss.flatten()[k] == x);
        assert(ss.flatten().contains(x));
    } else {
        lemma_flatten_contains(ss.drop_first(), i - 1, x);
        let rest = ss.drop_first().flatten();
        let k = choose|k: int| 0 <= k < rest.len() && rest[k] == x;
        assert(ss.flatten()[ss.first().len() + k] == x);
        assert(ss.flatten().contains(x));
    }
}

/// Splitting a flat index into the row-column pair of a product layout.
proof fn lemma_prod_index(nr: int, ns: int, j: int, tt: int)
    requires
        0 <= j < nr,
        0 <= tt < ns,
    ensures
        0 <= j * ns + tt < nr * ns,
        (j * ns + tt) / ns == j,
        (j * ns + tt) % ns == tt,
{
    assert(0 <= j * ns + tt < nr * ns && (j * ns + tt) / ns == j && (j * ns + tt) % ns == tt)
        by (nonlinear_arith)
        requires
            0 <= j < nr,
            0 <= tt < ns,
    ;
}

/// A dot-0 item of a grammar rule with a lookahead from [`usym_seq`] lies
/// in the item universe.
proof fn lemma_univ_contains(
    rules: Seq<RuleV>,
    fm: Seq<FirstEntryV>,
    kernel: Seq<ItemV>,
    j: int,
    la: SymbolV,
)
    requires
        0 <= j < rules.len(),
        usym_seq(rules, fm, kernel).contains(la),
    ensures
        item_univ(rules, fm, kernel).contains(ItemV { rule: rules[j], dot: 0, la: la }),
{
    let us = usym_seq(rules, fm, kernel);
    let ns = us.len() as int;
    let tt = choose|tt: int| 0 <= tt < ns && us[tt] == la;
    lemma_prod_index(rules.len() as int, ns, j, tt);
    let k = j * ns + tt;
    assert(item_univ(rules, fm, kernel)[kernel.len() + k] == ItemV {
        rule: rules[j],
        dot: 0,
        la: la,
    });
    assert(item_univ(rules, fm, kernel).contains(ItemV { rule: rules[j], dot: 0, la: la }));
}

/// A copy of `v` with the same views.
fn clone_symbols(v: &Vec<Symbol>) -> (r: Vec<Symbol>)
    ensures
        r.deep_view() == v.deep_view(),
{
    let mut r: Vec<Symbol> = Vec::new();
    let n = v.len();
    let mut i: usize = 0;
    while i < n
        invariant
            n == v.len(),
            i <= n,
            r.len() == i,
            forall|k: int| 0 <= k < i ==> r@[k]@ == v@[k]@,
        decreases n - i,
    {
        r.push(clone_symbol(&v[i]));
        i += 1;
    }
    proof {
        assert forall|k: int| 0 <= k < r.deep_view().len() implies r.deep_view()[k]
            == v.deep_view()[k] by {
            assert(r@[k]@ == v@[k]@);
        }
        assert(r.deep_view() =~= v.deep_view());
    }
    r
}

impl Parser {
    /// Expands a kernel item set into its closure: the least superset
    /// closed under the LR(1) expansion rule, with the kernel kept as a
    /// prefix and no duplicate items.
    fn compute_closure(&self, kernel: Vec<Item>) -> (c: Vec<Item>)
        requires
            self.nt_v().no_duplicates(),
            fm_matches_keys(self.first_v(), self.nt_v()),
            grammar_resolved(self.rules_v(), self.nt_v()),
            kernel.deep_view().no_duplicates(),
            items_wf(self.rules_v(), kernel.deep_view()),
        ensures
            c.deep_view().no_duplicates(),
            items_wf(self.rules_v(), c.deep_view()),
            c.deep_view().len() >= kernel.deep_view().len(),
            c.deep_view().take(kernel.deep_view().len() as int) == kernel.deep_view(),
            is_closure_of(
                self.rules_v(),
                self.first_v(),
                kernel.deep_view().to_set(),
                c.deep_view().to_set(),
            ),
    {
        let ghost rv = self.rules_v();
        let ghost fmv = self.first_v();
        let ghost ntv = self.nt_v();
        let ghost kv = kernel.deep_view();
        let ghost univ = item_univ(rv, fmv, kv);
        let ghost kn = kv.len();
        let mut c = kernel;
        proof {
            assert(c.deep_view().take(kn as int) =~= kv);
            assert forall|i: int| 0 <= i < c.deep_view().len() implies univ.contains(
                #[trigger] c.deep_view()[i],
            ) by {
                assert(univ[i] == kv[i]);
            }
            lemma_unique_len_bound(c.deep_view(), univ);
            lemma_matches_unique(fmv, ntv);
        }
        let mut idx: usize = 0;
        while idx < c.len()
            invariant
                rv == self.rules_v(),
                fmv == self.first_v(),
                ntv == self.nt_v(),
                ntv.no_duplicates(),
                fm_matches_keys(fmv, ntv),
                fm_keys_unique(fmv),
                grammar_resolved(rv, ntv),
                univ == item_univ(rv, fmv, kv),
                kn == kv.len(),
                kv.to_set().subset_of(c.deep_view().to_set()),
                idx <= c.len(),
                c.deep_view().len() >= kn,
                c.deep_view().take(kn as int) == kv,
                c.deep_view().no_duplicates(),
                items_wf(rv, c.deep_view()),
                forall|i: int|
                    0 <= i < c.deep_view().len() ==> univ.contains(#[trigger] c.deep_view()[i]),
                c.deep_view().len() <= univ.len(),
                forall|tset: Set<ItemV>|
                    kv.to_set().subset_of(tset) && closure_closed(rv, fmv, tset) ==> all_in(
                        c.deep_view(),
                        tset,
                    ),
                forall|i: int| 0 <= i < idx ==> item_processed(rv, fmv, c.deep_view(), i),
            decreases univ.len() - c.deep_view().len(), c.len() - idx,
        {
            let ghost cl_i = c.deep_view().len();
            let it = clone_item(&c[idx]);
            proof {
                assert(c.deep_view()[idx as int] == it@);
            }
            let dot_in_range = it.1 < it.0.rhs.len();
            let mut expand = false;
            if dot_in_range {
                if !(&it.0.rhs[it.1]).is_terminal() {
                    expand = true;
                }
            }
            if expand {
                let b = clone_symbol(&it.0.rhs[it.1]);
                proof {
                    assert(b@ == it@.rule.rhs[it@.dot as int]);
                    assert(b@.is_nonterminal());
                }
                let ghost jw = choose|j: int| 0 <= j < rv.len() && rv[j] == it@.rule;
                let las: Vec<Symbol>;
                if it.1 + 1 < it.0.rhs.len() {
                    let f = &it.0.rhs[it.1 + 1];
                    proof {
                        assert(f@ == it@.rule.rhs[it@.dot as int + 1]);
                        assert(f@ == rv[jw].rhs[it@.dot as int + 1]);
                    }
                    if !f.is_terminal() {
                        proof {
                            assert(ntv.contains(f@));
                        }
                        let si = match fm_find(&self.first, f) {
                            Some(i) => i,
                            None => {
                                proof {
                                    let ki = choose|ki: int|
                                        0 <= ki < ntv.len() && ntv[ki] == f@;
                                    assert(fmv[ki].key == f@);
                                    assert(false);
                                }
                                0
                            },
                        };
                        proof {
                            lemma_fm_idx_is(fmv, si as int);
                        }
                        las = clone_symbols(&self.first[si].terms);
                        proof {
                            assert(las.deep_view().to_set() == la_set(fmv, it@)) by {
                                assert(fm_idx(fmv, f@) == si as int);
                                assert(la_set(fmv, it@) == fmv[si as int].terms.to_set());
                            }
                            assert forall|t2: int|
                                0 <= t2 < las.deep_view().len() implies usym_seq(
                                rv,
                                fmv,
                                kv,
                            ).contains(#[trigger] las.deep_view()[t2]) by {
                                let x = las.deep_view()[t2];
                                let cpart = fmv.map_values(|e: FirstEntryV| e.terms);
                                assert(cpart[si as int].contains(x)) by {
                                    assert(cpart[si as int] == fmv[si as int].terms);
                                    assert(fmv[si as int].terms[t2] == x);
                                }
                                lemma_flatten_contains(cpart, si as int, x);
                                let cf = cpart.flatten();
                                let k3 = choose|k3: int| 0 <= k3 < cf.len() && cf[k3] == x;
                                let apart = kv.map_values(|it2: ItemV| it2.la);
                                let bpart = rv.map_values(|r: RuleV| r.rhs).flatten();
                                assert(usym_seq(rv, fmv, kv)[apart.len() + bpart.len() + k3]
                                    == x);
                                assert(usym_seq(rv, fmv, kv).contains(x));
                            }
                        }
                    } else {
                        las = vec![clone_symbol(f)];
                        proof {
                            assert(las.deep_view() =~= seq![f@]);
                            assert(las.deep_view().to_set() =~= la_set(fmv, it@)) by {
                                assert(las.deep_view()[0] == f@);
                                assert(la_set(fmv, it@) == set![f@]);
                            }
                            assert forall|t2: int|
                                0 <= t2 < las.deep_view().len() implies usym_seq(
                                rv,
                                fmv,
                                kv,
                            ).contains(#[trigger] las.deep_view()[t2]) by {
                                let bp = rv.map_values(|r: RuleV| r.rhs);
                                assert(bp[jw].contains(f@)) by {
                                    assert(bp[jw] == rv[jw].rhs);
                                    assert(rv[jw].rhs[it@.dot as int + 1] == f@);
                                }
                                lemma_flatten_contains(bp, jw, f@);
                                let bf = bp.flatten();
                                let k3 = choose|k3: int| 0 <= k3 < bf.len() && bf[k3] == f@;
                                let apart = kv.map_values(|it2: ItemV| it2.la);
                                assert(usym_seq(rv, fmv, kv)[apart.len() + k3] == f@);
                                assert(usym_seq(rv, fmv, kv).contains(f@));
                            }
                        }
                    }
                } else {
                    las = vec![clone_symbol(&it.2)];
                    proof {
                        assert(las.deep_view() =~= seq![it@.la]);
                        assert(las.deep_view().to_set() =~= la_set(fmv, it@)) by {
                            assert(las.deep_view()[0] == it@.la);
                            assert(la_set(fmv, it@) == set![it@.la]);
                        }
                        assert forall|t2: int|
                            0 <= t2 < las.deep_view().len() implies usym_seq(rv, fmv, kv).contains(
                            #[trigger] las.deep_view()[t2],
                        ) by {
                            let us = usym_seq(rv, fmv, kv);
                            let x = it@.la;
                            assert(univ.contains(it@));
                            let iu = choose|iu: int| 0 <= iu < univ.len() && univ[iu] == it@;
                            let apart = kv.map_values(|it2: ItemV| it2.la);
                            if iu < kn {
                                assert(kv[iu] == it@);
                                assert(us[iu] == apart[iu]);
                                assert(apart[iu] == x);
                                assert(us.contains(x));
                            } else {
                                let k2 = iu - kn;
                                let ns = us.len() as int;
                                assert(0 <= k2 < rv.len() * ns);
                                assert(ns > 0) by (nonlinear_arith)
                                    requires
                                        0 <= k2 < rv.len() * ns,
                                        0 <= ns,
                                ;
                                assert(univ[iu] == ItemV {
                                    rule: rv[k2 / ns],
                                    dot: 0,
                                    la: us[k2 % ns],
                                });
                                assert(0 <= k2 % ns < ns) by (nonlinear_arith)
                                    requires
                                        ns > 0,
                                        k2 >= 0,
                                ;
                                assert(us[k2 % ns] == x);
                                assert(us.contains(x));
                            }
                        }
                    }
                }
                let nr = self.rules.len();
                let mut j2: usize = 0;
                while j2 < nr
                    invariant
                        rv == self.rules_v(),
                        fmv == self.first_v(),
                        ntv == self.nt_v(),
                        ntv.no_duplicates(),
                        fm_matches_keys(fmv, ntv),
                        fm_keys_unique(fmv),
                        grammar_resolved(rv, ntv),
                        univ == item_univ(rv, fmv, kv),
                        kn == kv.len(),
                        kv.to_set().subset_of(c.deep_view().to_set()),
                        idx < c.len(),
                        c.deep_view().len() >= kn,
                        c.deep_view().take(kn as int) == kv,
                        c.deep_view().no_duplicates(),
                        items_wf(rv, c.deep_view()),
                        forall|i: int|
                            0 <= i < c.deep_view().len() ==> univ.contains(
                                #[trigger] c.deep_view()[i],
                            ),
                        c.deep_view().len() <= univ.len(),
                        forall|tset: Set<ItemV>|
                            kv.to_set().subset_of(tset) && closure_closed(rv, fmv, tset)
                                ==> all_in(c.deep_view(), tset),
                        forall|i: int| 0 <= i < idx ==> item_processed(rv, fmv, c.deep_view(), i),
                        c.deep_view()[idx as int] == it@,
                        it@.dot < it@.rule.rhs.len(),
                        b@ == it@.rule.rhs[it@.dot as int],
                        b@.is_nonterminal(),
                        las.deep_view().to_set() == la_set(fmv, it@),
                        forall|t2: int|
                            0 <= t2 < las.deep_view().len() ==> usym_seq(rv, fmv, kv).contains(
                                #[trigger] las.deep_view()[t2],
                            ),
                        nr == self.rules.len(),
                        j2 <= nr,
                        forall|j3: int, la: SymbolV|
                            #![trigger rv[j3].lhs, la_set(fmv, it@).contains(la)]
                            0 <= j3 < j2 && rv[j3].lhs == b@ && la_set(fmv, it@).contains(la)
                                ==> c.deep_view().to_set().contains(
                                ItemV { rule: rv[j3], dot: 0, la: la },
                            ),
                        c.deep_view().len() >= cl_i,
                    decreases univ.len() - c.deep_view().len(), nr - j2,
                {
                    let ghost cl_j = c.deep_view().len();
                    if symbol_eq(&self.rules[j2].lhs, &b) {
                        let m = las.len();
                        let mut tt: usize = 0;
                        while tt < m
                            invariant
                                rv == self.rules_v(),
                                fmv == self.first_v(),
                                ntv == self.nt_v(),
                                ntv.no_duplicates(),
                                fm_matches_keys(fmv, ntv),
                                fm_keys_unique(fmv),
                                grammar_resolved(rv, ntv),
                                univ == item_univ(rv, fmv, kv),
                                kn == kv.len(),
                                kv.to_set().subset_of(c.deep_view().to_set()),
                                idx < c.len(),
                                c.deep_view().len() >= kn,
                                c.deep_view().take(kn as int) == kv,
                                c.deep_view().no_duplicates(),
                                items_wf(rv, c.deep_view()),
                                forall|i: int|
                                    0 <= i < c.deep_view().len() ==> univ.contains(
                                        #[trigger] c.deep_view()[i],
                                    ),
                                c.deep_view().len() <= univ.len(),
                                forall|tset: Set<ItemV>|
                                    kv.to_set().subset_of(tset) && closure_closed(rv, fmv, tset)
                                        ==> all_in(c.deep_view(), tset),
                                forall|i: int|
                                    0 <= i < idx ==> item_processed(rv, fmv, c.deep_view(), i),
                                c.deep_view()[idx as int] == it@,
                                it@.dot < it@.rule.rhs.len(),
                                b@ == it@.rule.rhs[it@.dot as int],
                                b@.is_nonterminal(),
                                las.deep_view().to_set() == la_set(fmv, it@),
                                forall|t2: int|
                                    0 <= t2 < las.deep_view().len() ==> usym_seq(
                                        rv,
                                        fmv,
                                        kv,
                                    ).contains(#[trigger] las.deep_view()[t2]),
                                nr == self.rules.len(),
                                j2 < nr,
                                rv[j2 as int].lhs == b@,
                                forall|j3: int, la: SymbolV|
                                    #![trigger rv[j3].lhs, la_set(fmv, it@).contains(la)]
                                    0 <= j3 < j2 && rv[j3].lhs == b@ && la_set(fmv, it@).contains(
                                        la,
                                    ) ==> c.deep_view().to_set().contains(
                                        ItemV { rule: rv[j3], dot: 0, la: la },
                                    ),
                                m == las.len(),
                                tt <= m,
                                c.deep_view().len() >= cl_j,
                                cl_j >= cl_i,
                                forall|t2: int|
                                    0 <= t2 < tt ==> c.deep_view().to_set().contains(
                                        ItemV {
                                            rule: rv[j2 as int],
                                            dot: 0,
                                            la: #[trigger] las.deep_view()[t2],
                                        },
                                    ),
                            decreases univ.len() - c.deep_view().len(), m - tt,
                        {
                            let cand = Item(
                                clone_rule(&self.rules[j2]),
                                0,
                                clone_symbol(&las[tt]),
                            );
                            proof {
                                assert(cand@ == ItemV {
                                    rule: rv[j2 as int],
                                    dot: 0,
                                    la: las.deep_view()[tt as int],
                                });
                            }
                            if !contains_item(&c, &cand) {
                                let ghost cv1 = c.deep_view();
                                c.push(cand);
                                proof {
                                    assert(c.deep_view() =~= cv1.push(cand@));
                                    lemma_push_no_dup_g(cv1, cand@);
                                    lemma_to_set_push_g(cv1, cand@);
                                    assert(c.deep_view().take(kn as int) =~= cv1.take(kn as int));
                                    assert(item_wf(rv, cand@)) by {
                                        assert(rv[j2 as int] == cand@.rule);
                                    }
                                    assert forall|i: int|
                                        0 <= i < c.deep_view().len() implies item_wf(
                                        rv,
                                        #[trigger] c.deep_view()[i],
                                    ) by {
                                        if i < cv1.len() {
                                            assert(c.deep_view()[i] == cv1[i]);
                                            assert(item_wf(rv, cv1[i]));
                                        }
                                    }
                                    assert(usym_seq(rv, fmv, kv).contains(
                                        las.deep_view()[tt as int],
                                    ));
                                    lemma_univ_contains(
                                        rv,
                                        fmv,
                                        kv,
                                        j2 as int,
                                        las.deep_view()[tt as int],
                                    );
                                    assert forall|i: int|
                                        0 <= i < c.deep_view().len() implies univ.contains(
                                        #[trigger] c.deep_view()[i],
                                    ) by {
                                        if i < cv1.len() {
                                            assert(c.deep_view()[i] == cv1[i]);
                                        } else {
                                            assert(c.deep_view()[i] == cand@);
                                        }
                                    }
                                    lemma_unique_len_bound(c.deep_view(), univ);
                                    assert forall|tset: Set<ItemV>|
                                        kv.to_set().subset_of(tset) && closure_closed(
                                            rv,
                                            fmv,
                                            tset,
                                        ) implies all_in(c.deep_view(), tset) by {
                                        assert(all_in(cv1, tset));
                                        assert(tset.contains(cv1[idx as int]));
                                        assert(la_set(fmv, it@).contains(cand@.la)) by {
                                            assert(las.deep_view()[tt as int]
                                                == las.deep_view()[tt as int]);
                                            assert(las.deep_view().contains(
                                                las.deep_view()[tt as int],
                                            ));
                                            assert(las.deep_view().to_set().contains(cand@.la));
                                        }
                                        assert(derives(fmv, it@, cand@));
                                        assert(item_wf(rv, cand@));
                                        assert(tset.contains(cand@));
                                        assert forall|i: int|
                                            0 <= i < c.deep_view().len() implies tset.contains(
                                            #[trigger] c.deep_view()[i],
                                        ) by {
                                            if i < cv1.len() {
                                                assert(c.deep_view()[i] == cv1[i]);
                                            } else {
                                                assert(c.deep_view()[i] == cand@);
                                            }
                                        }
                                    }
                                    assert forall|i: int|
                                        0 <= i < idx implies item_processed(
                                        rv,
                                        fmv,
                                        c.deep_view(),
                                        i,
                                    ) by {
                                        let s1 = cv1;
                                        let s2 = c.deep_view();
                                        assert(item_processed(rv, fmv, s1, i));
                                        assert(s2[i] == s1[i]);
                                        if s2[i].dot < s2[i].rule.rhs.len() && s2[i].rule.rhs[
                                            s2[i].dot as int
                                        ].is_nonterminal() {
                                            assert forall|j3: int, la: SymbolV|
                                                #![trigger rv[j3].lhs, la_set(fmv, s2[i]).contains(la)]
                                                0 <= j3 < rv.len() && rv[j3].lhs == s2[i].rule.rhs[
                                                    s2[i].dot as int
                                                ] && la_set(fmv, s2[i]).contains(
                                                    la,
                                                ) implies s2.to_set().contains(
                                                ItemV { rule: rv[j3], dot: 0, la: la },
                                            ) by {
                                                assert(la_set(fmv, s1[i]).contains(la));
                                                assert(s1.to_set().contains(
                                                    ItemV { rule: rv[j3], dot: 0, la: la },
                                                ));
                                            }
                                        }
                                    }
                                    assert(c.deep_view()[idx as int] == it@);
                                }
                            }
                            proof {
                                assert(c.deep_view().contains(cand@)) by {
                                    assert(c.deep_view()[c.deep_view().len() - 1] == cand@
                                        || c.deep_view().contains(cand@));
                                }
                                assert(c.deep_view().to_set().contains(ItemV {
                                    rule: rv[j2 as int],
                                    dot: 0,
                                    la: las.deep_view()[tt as int],
                                }));
                            }
                            tt += 1;
                        }
                        proof {
                            assert forall|j3: int, la: SymbolV|
                                #![trigger rv[j3].lhs, la_set(fmv, it@).contains(la)]
                                0 <= j3 < j2 + 1 && rv[j3].lhs == b@ && la_set(fmv, it@).contains(
                                    la,
                                ) implies c.deep_view().to_set().contains(
                                ItemV { rule: rv[j3], dot: 0, la: la },
                            ) by {
                                if j3 == j2 as int {
                                    assert(las.deep_view().to_set().contains(la));
                                    let t2 = choose|t2: int|
                                        0 <= t2 < las.deep_view().len() && las.deep_view()[t2]
                                            == la;
                                    assert(c.deep_view().to_set().contains(ItemV {
                                        rule: rv[j2 as int],
                                        dot: 0,
                                        la: las.deep_view()[t2],
                                    }));
                                }
                            }
                        }
                    } else {
                        proof {
                            assert(rv[j2 as int].lhs != b@);
                        }
                    }
                    j2 += 1;
                }
                proof {
                    assert(item_processed(rv, fmv, c.deep_view(), idx as int)) by {
                        let s2 = c.deep_view();
                        assert(s2[idx as int] == it@);
                        assert forall|j3: int, la: SymbolV|
                            #![trigger rv[j3].lhs, la_set(fmv, s2[idx as int]).contains(la)]
                            0 <= j3 < rv.len() && rv[j3].lhs == s2[idx as int].rule.rhs[
                                s2[idx as int].dot as int
                            ] && la_set(fmv, s2[idx as int]).contains(la) implies s2.to_set().contains(
                            ItemV { rule: rv[j3], dot: 0, la: la },
                        ) by {
                            assert(la_set(fmv, it@).contains(la));
                            assert(rv[j3].lhs == b@);
                        }
                    }
                }
            } else {
                proof {
                    assert(item_processed(rv, fmv, c.deep_view(), idx as int)) by {
                        let itv = c.deep_view()[idx as int];
                        if dot_in_range {
                            assert(itv.rule.rhs[itv.dot as int].is_terminal());
                        } else {
                            assert(itv.dot >= itv.rule.rhs.len());
                        }
                    }
                }
            }
            idx += 1;
        }
        proof {
            let cs = c.deep_view().to_set();
            assert(kv.to_set().subset_of(cs));
            assert(closure_closed(rv, fmv, cs)) by {
                assert forall|it: ItemV, it2: ItemV|
                    #![trigger cs.contains(it), cs.contains(it2)]
                    cs.contains(it) && derives(fmv, it, it2) && item_wf(rv, it2) implies cs.contains(
                    it2,
                ) by {
                    let i = choose|i: int|
                        0 <= i < c.deep_view().len() && c.deep_view()[i] == it;
                    assert(item_processed(rv, fmv, c.deep_view(), i));
                    let j3 = choose|j3: int| 0 <= j3 < rv.len() && rv[j3] == it2.rule;
                    assert(la_set(fmv, c.deep_view()[i]).contains(it2.la));
                    assert(rv[j3].lhs == c.deep_view()[i].rule.rhs[c.deep_view()[i].dot as int]);
                    assert(cs.contains(ItemV { rule: rv[j3], dot: 0, la: it2.la }));
                    assert(ItemV { rule: rv[j3], dot: 0, la: it2.la } == it2);
                }
            }
            assert forall|tset: Set<ItemV>|
                kv.to_set().subset_of(tset) && closure_closed(rv, fmv, tset) implies cs.subset_of(
                tset,
            ) by {
                assert(all_in(c.deep_view(), tset));
                assert forall|x: ItemV| cs.contains(x) implies tset.contains(x) by {
                    let i = choose|i: int|
                        0 <= i < c.deep_view().len() && c.deep_view()[i] == x;
                    assert(tset.contains(c.deep_view()[i]));
                }
            }
        }
        c
    }
}


// ---------------------------------------------------------------------------
// Counting distinct item sets
// ---------------------------------------------------------------------------

/// A family of distinct subsets of a finite set `u` has at most `2^|u|`
/// members.
proof fn lemma_subsets_count(ss: Set<Set<ItemV>>, u: Set<ItemV>)
    requires
        ss.finite(),
        u.finite(),
        forall|s: Set<ItemV>| ss.contains(s) ==> (#[trigger] s.subset_of(u)),
    ensures
        ss.len() <= vstd::arithmetic::power2::pow2(u.len()),
    decreases u.len(),
{
    broadcast use vstd::arithmetic::power2::lemma_pow2_unfold;
    broadcast use vstd::arithmetic::power2::lemma_pow2_pos;

    if u.len() == 0 {
        u.lemma_len0_is_empty();
        let empty_family = Set::<Set<ItemV>>::empty().insert(Set::<ItemV>::empty());
        assert forall|s: Set<ItemV>| ss.contains(s) implies empty_family.contains(s) by {
            assert(s.subset_of(u));
            assert(s =~= Set::<ItemV>::empty());
        }
        vstd::set_lib::lemma_len_subset(ss, empty_family);
        assert(empty_family.len() == 1);
        vstd::arithmetic::power2::lemma2_to64();
        assert(vstd::arithmetic::power2::pow2(0) == 1);
    } else {
        let x = choose|x: ItemV| u.contains(x);
        assert(u.contains(x)) by {
            if !(exists|x2: ItemV| u.contains(x2)) {
                assert(u =~= Set::<ItemV>::empty());
            }
        }
        let u2 = u.remove(x);
        assert(u2.len() == u.len() - 1);
        let withf = ss.filter(|s: Set<ItemV>| s.contains(x));
        let without = ss.filter(|s: Set<ItemV>| !s.contains(x));
        ss.lemma_len_filter(|s: Set<ItemV>| s.contains(x));
        ss.lemma_len_filter(|s: Set<ItemV>| !s.contains(x));
        let rm = |s: Set<ItemV>| s.remove(x);
        let w2 = withf.map(rm);
        assert(vstd::relations::injective_on(rm, withf)) by {
            assert forall|s1: Set<ItemV>, s2: Set<ItemV>|
                withf.contains(s1) && withf.contains(s2) && #[trigger] rm(s1) == #[trigger] rm(
                    s2,
                ) implies s1 == s2 by {
                assert(s1 =~= s1.remove(x).insert(x));
                assert(s2 =~= s2.remove(x).insert(x));
            }
        }
        vstd::set_lib::lemma_map_size(withf, w2, rm);
        assert forall|s: Set<ItemV>| w2.contains(s) implies (#[trigger] s.subset_of(u2)) by {
            let s0 = choose|s0: Set<ItemV>| withf.contains(s0) && rm(s0) == s;
            assert(s0.subset_of(u));
            assert forall|y: ItemV| s.contains(y) implies u2.contains(y) by {
                assert(s0.contains(y));
            }
        }
        assert forall|s: Set<ItemV>| without.contains(s) implies (#[trigger] s.subset_of(
            u2,
        )) by {
            assert(s.subset_of(u));
            assert forall|y: ItemV| s.contains(y) implies u2.contains(y) by {}
        }
        lemma_subsets_count(w2, u2);
        lemma_subsets_count(without, u2);
        assert(ss =~= withf.union(without));
        vstd::set_lib::lemma_len_union(withf, without);
        assert(ss.len() <= withf.len() + without.len());
        assert(withf.len() == w2.len());
        assert(vstd::arithmetic::power2::pow2(u.len()) == 2 * vstd::arithmetic::power2::pow2(
            u2.len(),
        ));
    }
}


// ---------------------------------------------------------------------------
// Canonical collection: specification
// ---------------------------------------------------------------------------

/// The reserved end-of-input terminal.
pub open spec fn dollar() -> SymbolV {
    SymbolV::Terminal(seq!['$'])
}

/// The kernel item the automaton starts from: rule 0 at dot 0 with
/// lookahead `$`.
pub open spec fn seed_item(rules: Seq<RuleV>) -> ItemV {
    ItemV { rule: rules[0], dot: 0, la: dollar() }
}

/// Every lookahead the whole construction can use: `$`, the rules'
/// right-hand-side symbols, and the FIRST sets' members.
pub open spec fn gsym_seq(rules: Seq<RuleV>, fm: Seq<FirstEntryV>) -> Seq<SymbolV> {
    seq![dollar()] + rules.map_values(|r: RuleV| r.rhs).flatten() + fm.map_values(
        |e: FirstEntryV| e.terms,
    ).flatten()
}

/// One more than the longest right-hand side: the number of dot positions.
pub open spec fn max_dots(rules: Seq<RuleV>) -> nat
    decreases rules.len(),
{
    if rules.len() == 0 {
        1
    } else {
        let m = max_dots(rules.drop_last());
        let l = rules.last().rhs.len() + 1;
        if l > m {
            l
        } else {
            m
        }
    }
}

proof fn lemma_max_dots(rules: Seq<RuleV>, j: int)
    requires
        0 <= j < rules.len(),
    ensures
        rules[j].rhs.len() + 1 <= max_dots(rules),
    decreases rules.len(),
{
    if j == rules.len() - 1 {
        assert(rules.last() == rules[j]);
    } else {
        lemma_max_dots(rules.drop_last(), j);
        assert(rules.drop_last()[j] == rules[j]);
    }
}

/// A finite universe holding every item any state of the automaton can
/// contain: a grammar rule, any dot position, any global lookahead.
pub open spec fn gu_seq(rules: Seq<RuleV>, fm: Seq<FirstEntryV>) -> Seq<ItemV> {
    let gs = gsym_seq(rules, fm);
    let d = max_dots(rules) as int;
    let ns = gs.len() as int;
    Seq::new(
        (rules.len() * (max_dots(rules) * gs.len())) as nat,
        |k: int|
            ItemV {
                rule: rules[k / (d * ns)],
                dot: ((k % (d * ns)) / ns) as nat,
                la: gs[(k % (d * ns)) % ns],
            },
    )
}

/// A well-formed item with a global lookahead lies in the universe.
proof fn lemma_gu_contains(rules: Seq<RuleV>, fm: Seq<FirstEntryV>, it: ItemV)
    requires
        exists|j: int| 0 <= j < rules.len() && (#[trigger] rules[j]) == it.rule,
        it.dot <= it.rule.rhs.len(),
        gsym_seq(rules, fm).contains(it.la),
    ensures
        gu_seq(rules, fm).contains(it),
{
    let gs = gsym_seq(rules, fm);
    let d = max_dots(rules) as int;
    let ns = gs.len() as int;
    let j = choose|j: int| 0 <= j < rules.len() && rules[j] == it.rule;
    lemma_max_dots(rules, j);
    let tt = choose|tt: int| 0 <= tt < ns && gs[tt] == it.la;
    lemma_prod_index(d, ns, it.dot as int, tt);
    let rem = it.dot * ns + tt;
    lemma_prod_index(rules.len() as int, d * ns, j, rem);
    let k = j * (d * ns) + rem;
    assert((rules.len() * (max_dots(rules) * gs.len())) as int == rules.len() as int * (d * ns));
    assert(gu_seq(rules, fm)[k] == it);
    assert(gu_seq(rules, fm).contains(it));
}

/// What membership in the universe gives back.
proof fn lemma_gu_member(rules: Seq<RuleV>, fm: Seq<FirstEntryV>, it: ItemV)
    requires
        gu_seq(rules, fm).contains(it),
    ensures
        exists|j: int| 0 <= j < rules.len() && (#[trigger] rules[j]) == it.rule,
        gsym_seq(rules, fm).contains(it.la),
{
    let gs = gsym_seq(rules, fm);
    let d = max_dots(rules) as int;
    let ns = gs.len() as int;
    let k = choose|k: int| 0 <= k < gu_seq(rules, fm).len() && gu_seq(rules, fm)[k] == it;
    assert(d * ns > 0 && ns > 0 && 0 <= k / (d * ns) < rules.len() && 0 <= (k % (d * ns)) % ns
        < ns) by (nonlinear_arith)
        requires
            0 <= k < rules.len() as int * (d * ns),
            d >= 1,
            ns >= 1,
    {
    }
    assert(rules[k / (d * ns)] == it.rule);
    assert(gs[(k % (d * ns)) % ns] == it.la);
    assert(gs.contains(it.la));
}

/// The universe is closed under the expansion rule.
proof fn lemma_gu_closed(rules: Seq<RuleV>, fm: Seq<FirstEntryV>, nt: Seq<SymbolV>)
    requires
        grammar_resolved(rules, nt),
        fm_matches_keys(fm, nt),
        nt.no_duplicates(),
    ensures
        closure_closed(rules, fm, gu_seq(rules, fm).to_set()),
{
    let gus = gu_seq(rules, fm).to_set();
    let gs = gsym_seq(rules, fm);
    assert forall|it: ItemV, it2: ItemV|
        #![trigger gus.contains(it), gus.contains(it2)]
        gus.contains(it) && derives(fm, it, it2) && item_wf(rules, it2) implies gus.contains(
        it2,
    ) by {
        lemma_gu_member(rules, fm, it);
        let jw = choose|j: int| 0 <= j < rules.len() && rules[j] == it.rule;
        assert(gs.contains(it2.la)) by {
            if it.dot + 1 < it.rule.rhs.len() {
                let f = it.rule.rhs[it.dot as int + 1];
                if f.is_nonterminal() {
                    assert(nt.contains(f)) by {
                        assert(rules[jw].rhs[it.dot as int + 1] == f);
                    }
                    let ki = choose|ki: int| 0 <= ki < nt.len() && nt[ki] == f;
                    assert(fm[ki].key == f);
                    lemma_matches_unique(fm, nt);
                    lemma_fm_idx_is(fm, ki);
                    assert(la_set(fm, it) == fm[ki].terms.to_set());
                    assert(fm[ki].terms.to_set().contains(it2.la));
                    let t2 = choose|t2: int|
                        0 <= t2 < fm[ki].terms.len() && fm[ki].terms[t2] == it2.la;
                    let cpart = fm.map_values(|e: FirstEntryV| e.terms);
                    assert(cpart[ki].contains(it2.la)) by {
                        assert(cpart[ki] == fm[ki].terms);
                    }
                    lemma_flatten_contains(cpart, ki, it2.la);
                    let cf = cpart.flatten();
                    let k3 = choose|k3: int| 0 <= k3 < cf.len() && cf[k3] == it2.la;
                    let bpart = rules.map_values(|r: RuleV| r.rhs).flatten();
                    assert(gs[1 + bpart.len() + k3] == it2.la);
                    assert(gs.contains(it2.la));
                } else {
                    assert(la_set(fm, it) == set![f]);
                    assert(it2.la == f);
                    let bp = rules.map_values(|r: RuleV| r.rhs);
                    assert(bp[jw].contains(f)) by {
                        assert(bp[jw] == rules[jw].rhs);
                        assert(rules[jw].rhs[it.dot as int + 1] == f);
                    }
                    lemma_flatten_contains(bp, jw, f);
                    let bf = bp.flatten();
                    let k3 = choose|k3: int| 0 <= k3 < bf.len() && bf[k3] == f;
                    assert(gs[1 + k3] == f);
                    assert(gs.contains(it2.la));
                }
            } else {
                assert(la_set(fm, it) == set![it.la]);
                assert(it2.la == it.la);
            }
        }
        lemma_gu_contains(rules, fm, it2);
    }
}

/// Mathematical value of a [`GotoEntry`].
pub struct GotoEntryV {
    pub state: int,
    pub sym: SymbolV,
    pub target: int,
}

impl View for GotoEntry {
    type V = GotoEntryV;

    open spec fn view(&self) -> GotoEntryV {
        GotoEntryV { state: self.state as int, sym: self.sym@, target: self.target as int }
    }
}

impl DeepView for GotoEntry {
    type V = GotoEntryV;

    open spec fn deep_view(&self) -> GotoEntryV {
        self.view()
    }
}

/// True iff an edge from state `i` over `x` is recorded.
pub open spec fn g_has(g: Seq<GotoEntryV>, i: int, x: SymbolV) -> bool {
    exists|k: int| 0 <= k < g.len() && (#[trigger] g[k]).state == i && g[k].sym == x
}

pub open spec fn g_idx(g: Seq<GotoEntryV>, i: int, x: SymbolV) -> int {
    choose|k: int| 0 <= k < g.len() && (#[trigger] g[k]).state == i && g[k].sym == x
}

/// The target of the edge from state `i` over `x`.
pub open spec fn g_at(g: Seq<GotoEntryV>, i: int, x: SymbolV) -> int {
    g[g_idx(g, i, x)].target
}

/// No two entries share the (state, symbol) key.
pub open spec fn g_keys_unique(g: Seq<GotoEntryV>) -> bool {
    forall|k1: int, k2: int|
        0 <= k1 < g.len() && 0 <= k2 < g.len() && k1 != k2 ==> ((#[trigger] g[k1]).state != (
        #[trigger] g[k2]).state || g[k1].sym != g[k2].sym)
}

/// Some item of `s` has `x` right after its dot.
pub open spec fn edge_sym(s: Seq<ItemV>, x: SymbolV) -> bool {
    exists|i: int|
        0 <= i < s.len() && (#[trigger] s[i]).dot < s[i].rule.rhs.len() && s[i].rule.rhs[
            s[i].dot as int
        ] == x
}

/// `it2` is an item of `s` with `x` after the dot, dot advanced by one.
pub open spec fn advances_to(s: Seq<ItemV>, x: SymbolV, it2: ItemV) -> bool {
    exists|i: int|
        0 <= i < s.len() && (#[trigger] s[i]).dot < s[i].rule.rhs.len() && s[i].rule.rhs[
            s[i].dot as int
        ] == x && it2 == ItemV { rule: s[i].rule, dot: (s[i].dot + 1) as nat, la: s[i].la }
}

/// The kernel reached from `s` by shifting `x`.
pub open spec fn advance_set(s: Seq<ItemV>, x: SymbolV) -> Set<ItemV> {
    Set::new(|it2: ItemV| advances_to(s, x, it2))
}

/// Some edge enters state `sj`.
pub open spec fn g_target_has(g: Seq<GotoEntryV>, sj: int) -> bool {
    exists|k: int| 0 <= k < g.len() && (#[trigger] g[k]).target == sj
}

/// A recorded edge is between real states, leaves over a real edge symbol,
/// and enters the closure of the advanced kernel.
pub open spec fn goto_entry_ok(
    rules: Seq<RuleV>,
    fm: Seq<FirstEntryV>,
    st: Seq<Seq<ItemV>>,
    e: GotoEntryV,
) -> bool {
    &&& 0 <= e.state < st.len()
    &&& 0 <= e.target < st.len()
    &&& edge_sym(st[e.state], e.sym)
    &&& is_closure_of(rules, fm, advance_set(st[e.state], e.sym), st[e.target].to_set())
}

/// The automaton's invariant, with the first `processed` states fully
/// expanded: distinct closure-complete states, a key-unique `goto` map
/// whose entries are all correct, an edge for every dot symbol of every
/// processed state, and every state but 0 reachable as some edge's target.
pub open spec fn dfa_inv(
    rules: Seq<RuleV>,
    fm: Seq<FirstEntryV>,
    st: Seq<Seq<ItemV>>,
    g: Seq<GotoEntryV>,
    processed: int,
) -> bool {
    &&& st.len() >= 1
    &&& 0 <= processed <= st.len()
    &&& st[0].len() >= 1 && st[0][0] == seed_item(rules)
    &&& is_closure_of(rules, fm, seq![seed_item(rules)].to_set(), st[0].to_set())
    &&& forall|si: int| 0 <= si < st.len() ==> (#[trigger] st[si]).no_duplicates()
    &&& forall|si: int| 0 <= si < st.len() ==> items_wf(rules, #[trigger] st[si])
    &&& forall|si: int|
        0 <= si < st.len() ==> (#[trigger] st[si]).to_set().subset_of(gu_seq(rules, fm).to_set())
    &&& forall|a: int, b: int|
        0 <= a < b < st.len() ==> (#[trigger] st[a]).to_set() != (#[trigger] st[b]).to_set()
    &&& g_keys_unique(g)
    &&& forall|k: int| 0 <= k < g.len() ==> goto_entry_ok(rules, fm, st, #[trigger] g[k])
    &&& forall|si: int, x: SymbolV|
        0 <= si < processed && #[trigger] edge_sym(st[si], x) ==> g_has(g, si, x)
    &&& forall|sj: int| 1 <= sj < st.len() ==> #[trigger] g_target_has(g, sj)
}

/// The number of pairwise-distinct states is bounded by the number of
/// subsets of the item universe.
proof fn lemma_state_count_bound(st: Seq<Seq<ItemV>>, gus: Set<ItemV>)
    requires
        gus.finite(),
        forall|si: int| 0 <= si < st.len() ==> (#[trigger] st[si]).to_set().subset_of(gus),
        forall|a: int, b: int|
            0 <= a < b < st.len() ==> (#[trigger] st[a]).to_set() != (#[trigger] st[b]).to_set(),
    ensures
        st.len() <= vstd::arithmetic::power2::pow2(gus.len()),
{
    broadcast use vstd::seq_lib::seq_to_set_is_finite;

    let fam_seq = st.map_values(|s: Seq<ItemV>| s.to_set());
    assert(fam_seq.no_duplicates()) by {
        assert forall|a: int, b: int|
            0 <= a < fam_seq.len() && 0 <= b < fam_seq.len() && a != b implies fam_seq[a]
            != fam_seq[b] by {
            if a < b {
                assert(fam_seq[a] == st[a].to_set() && fam_seq[b] == st[b].to_set());
            } else {
                assert(fam_seq[a] == st[a].to_set() && fam_seq[b] == st[b].to_set());
            }
        }
    }
    fam_seq.unique_seq_to_set();
    let fam = fam_seq.to_set();
    assert forall|s: Set<ItemV>| fam.contains(s) implies (#[trigger] s.subset_of(gus)) by {
        let i = choose|i: int| 0 <= i < fam_seq.len() && fam_seq[i] == s;
        assert(st[i].to_set().subset_of(gus));
    }
    lemma_subsets_count(fam, gus);
}


// ---------------------------------------------------------------------------
// Canonical collection: executable helpers
// ---------------------------------------------------------------------------

/// The end-of-input terminal's name.
fn dollar_string() -> (s: String)
    ensures
        s@ == seq!['$'],
{
    let s: &str = "$";
    proof {
        reveal_strlit("$");
        assert(s@ =~= seq!['$']);
    }
    s.to_owned()
}

/// The distinct symbols standing right after a dot anywhere in `state`,
/// in first-occurrence order.
fn collect_edges(state: &Vec<Item>) -> (edges: Vec<Symbol>)
    ensures
        edges.deep_view().no_duplicates(),
        forall|k: int|
            0 <= k < edges.deep_view().len() ==> edge_sym(
                state.deep_view(),
                #[trigger] edges.deep_view()[k],
            ),
        forall|x: SymbolV| #[trigger] edge_sym(state.deep_view(), x) ==> edges.deep_view().contains(x),
{
    let ghost sv = state.deep_view();
    let mut edges: Vec<Symbol> = Vec::new();
    let n = state.len();
    let mut i: usize = 0;
    while i < n
        invariant
            n == state.len(),
            sv == state.deep_view(),
            i <= n,
            edges.deep_view().no_duplicates(),
            forall|k: int|
                0 <= k < edges.deep_view().len() ==> edge_sym(sv, #[trigger] edges.deep_view()[k]),
            forall|i2: int|
                0 <= i2 < i && (#[trigger] sv[i2]).dot < sv[i2].rule.rhs.len()
                    ==> edges.deep_view().contains(sv[i2].rule.rhs[sv[i2].dot as int]),
        decreases n - i,
    {
        let it = &state[i];
        if it.1 < it.0.rhs.len() {
            let e = clone_symbol(&it.0.rhs[it.1]);
            proof {
                assert(e@ == sv[i as int].rule.rhs[sv[i as int].dot as int]);
            }
            if !contains_symbol(&edges, &e) {
                let ghost ev = edges.deep_view();
                edges.push(e);
                proof {
                    assert(edges.deep_view() =~= ev.push(sv[i as int].rule.rhs[
                        sv[i as int].dot as int
                    ]));
                    lemma_push_no_dup_g(ev, sv[i as int].rule.rhs[sv[i as int].dot as int]);
                    assert forall|k: int| 0 <= k < edges.deep_view().len() implies edge_sym(
                        sv,
                        #[trigger] edges.deep_view()[k],
                    ) by {
                        if k < ev.len() {
                            assert(edges.deep_view()[k] == ev[k]);
                        } else {
                            assert(edges.deep_view()[k] == sv[i as int].rule.rhs[
                                sv[i as int].dot as int
                            ]);
                            assert(edge_sym(sv, edges.deep_view()[k]));
                        }
                    }
                    assert forall|i2: int|
                        0 <= i2 < i + 1 && (#[trigger] sv[i2]).dot < sv[i2].rule.rhs.len()
                            implies edges.deep_view().contains(
                        sv[i2].rule.rhs[sv[i2].dot as int],
                    ) by {
                        if i2 < i {
                            assert(ev.contains(sv[i2].rule.rhs[sv[i2].dot as int]));
                            let k2 = choose|k2: int|
                                0 <= k2 < ev.len() && ev[k2] == sv[i2].rule.rhs[
                                    sv[i2].dot as int
                                ];
                            assert(edges.deep_view()[k2] == ev[k2]);
                        } else {
                            assert(edges.deep_view()[ev.len() as int] == sv[i2].rule.rhs[
                                sv[i2].dot as int
                            ]);
                        }
                    }
                }
            }
        }
        i += 1;
    }
    proof {
        assert forall|x: SymbolV| #[trigger] edge_sym(sv, x) implies edges.deep_view().contains(
            x,
        ) by {
            let i2 = choose|i2: int|
                0 <= i2 < sv.len() && (#[trigger] sv[i2]).dot < sv[i2].rule.rhs.len()
                    && sv[i2].rule.rhs[sv[i2].dot as int] == x;
            assert(edges.deep_view().contains(sv[i2].rule.rhs[sv[i2].dot as int]));
        }
    }
    edges
}

/// The advanced kernel: every item of `state` with `x` after its dot, dot
/// moved over it, without duplicates.
fn advance_kernel(state: &Vec<Item>, x: &Symbol) -> (kern: Vec<Item>)
    ensures
        kern.deep_view().no_duplicates(),
        kern.deep_view().to_set() == advance_set(state.deep_view(), x@),
{
    let ghost sv = state.deep_view();
    let mut kern: Vec<Item> = Vec::new();
    let n = state.len();
    let mut i: usize = 0;
    while i < n
        invariant
            n == state.len(),
            sv == state.deep_view(),
            i <= n,
            kern.deep_view().no_duplicates(),
            forall|k: int|
                0 <= k < kern.deep_view().len() ==> advances_to(
                    sv,
                    x@,
                    #[trigger] kern.deep_view()[k],
                ),
            forall|i2: int|
                0 <= i2 < i && (#[trigger] sv[i2]).dot < sv[i2].rule.rhs.len() && sv[i2].rule.rhs[
                    sv[i2].dot as int
                ] == x@ ==> kern.deep_view().contains(
                    ItemV {
                        rule: sv[i2].rule,
                        dot: (sv[i2].dot + 1) as nat,
                        la: sv[i2].la,
                    },
                ),
        decreases n - i,
    {
        let it = &state[i];
        if it.1 < it.0.rhs.len() {
            if symbol_eq(&it.0.rhs[it.1], x) {
                let cand = Item(clone_rule(&it.0), it.1 + 1, clone_symbol(&it.2));
                proof {
                    assert(cand@ == ItemV {
                        rule: sv[i as int].rule,
                        dot: (sv[i as int].dot + 1) as nat,
                        la: sv[i as int].la,
                    });
                    assert(advances_to(sv, x@, cand@));
                }
                if !contains_item(&kern, &cand) {
                    let ghost kv2 = kern.deep_view();
                    kern.push(cand);
                    proof {
                        assert(kern.deep_view() =~= kv2.push(cand@));
                        lemma_push_no_dup_g(kv2, cand@);
                        assert forall|k: int|
                            0 <= k < kern.deep_view().len() implies advances_to(
                            sv,
                            x@,
                            #[trigger] kern.deep_view()[k],
                        ) by {
                            if k < kv2.len() {
                                assert(kern.deep_view()[k] == kv2[k]);
                            } else {
                                assert(kern.deep_view()[k] == cand@);
                            }
                        }
                        assert forall|i2: int|
                            0 <= i2 < i + 1 && (#[trigger] sv[i2]).dot < sv[i2].rule.rhs.len()
                                && sv[i2].rule.rhs[sv[i2].dot as int] == x@
                                implies kern.deep_view().contains(
                            ItemV {
                                rule: sv[i2].rule,
                                dot: (sv[i2].dot + 1) as nat,
                                la: sv[i2].la,
                            },
                        ) by {
                            let w = ItemV {
                                rule: sv[i2].rule,
                                dot: (sv[i2].dot + 1) as nat,
                                la: sv[i2].la,
                            };
                            if i2 < i {
                                assert(kv2.contains(w));
                                let k2 = choose|k2: int| 0 <= k2 < kv2.len() && kv2[k2] == w;
                                assert(kern.deep_view()[k2] == w);
                            } else {
                                assert(kern.deep_view()[kv2.len() as int] == w);
                            }
                        }
                    }
                }
            }
        }
        i += 1;
    }
    proof {
        let kd = kern.deep_view();
        assert forall|it2: ItemV| kd.to_set().contains(it2) implies advance_set(sv, x@).contains(
            it2,
        ) by {
            let k = choose|k: int| 0 <= k < kd.len() && kd[k] == it2;
            assert(advances_to(sv, x@, kd[k]));
        }
        assert forall|it2: ItemV| advance_set(sv, x@).contains(it2) implies kd.to_set().contains(
            it2,
        ) by {
            assert(advances_to(sv, x@, it2));
            let i2 = choose|i2: int|
                0 <= i2 < sv.len() && (#[trigger] sv[i2]).dot < sv[i2].rule.rhs.len()
                    && sv[i2].rule.rhs[sv[i2].dot as int] == x@ && it2 == ItemV {
                    rule: sv[i2].rule,
                    dot: (sv[i2].dot + 1) as nat,
                    la: sv[i2].la,
                };
            assert(kd.contains(it2));
        }
        assert(kd.to_set() =~= advance_set(sv, x@));
    }
    kern
}

/// True iff every item of `a` occurs in `b`.
fn subset_items(a: &Vec<Item>, b: &Vec<Item>) -> (r: bool)
    ensures
        r == a.deep_view().to_set().subset_of(b.deep_view().to_set()),
{
    let n = a.len();
    let mut i: usize = 0;
    while i < n
        invariant
            n == a.len(),
            i <= n,
            forall|k: int|
                0 <= k < i ==> b.deep_view().to_set().contains(#[trigger] a.deep_view()[k]),
        decreases n - i,
    {
        if !contains_item(b, &a[i]) {
            proof {
                assert(a.deep_view()[i as int] == a[i as int]@);
                assert(a.deep_view().contains(a.deep_view()[i as int]));
                assert(a.deep_view().to_set().contains(a.deep_view()[i as int]));
                assert(!b.deep_view().to_set().contains(a.deep_view()[i as int]));
            }
            return false;
        }
        proof {
            assert(b.deep_view().contains(a.deep_view()[i as int]));
        }
        i += 1;
    }
    proof {
        assert forall|x: ItemV| a.deep_view().to_set().contains(x) implies b.deep_view().to_set().contains(
            x,
        ) by {
            let k = choose|k: int| 0 <= k < a.deep_view().len() && a.deep_view()[k] == x;
            assert(b.deep_view().to_set().contains(a.deep_view()[k]));
        }
    }
    true
}

/// True iff the two item lists hold the same set of items.
fn state_set_eq(a: &Vec<Item>, b: &Vec<Item>) -> (r: bool)
    ensures
        r == (a.deep_view().to_set() == b.deep_view().to_set()),
{
    let r = subset_items(a, b) && subset_items(b, a);
    proof {
        if r {
            assert(a.deep_view().to_set() =~= b.deep_view().to_set());
        }
    }
    r
}

/// The first existing state whose item set equals `cl`'s, if any.
fn find_state(closures: &Vec<Vec<Item>>, cl: &Vec<Item>) -> (r: Option<usize>)
    ensures
        match r {
            Some(i) => i < closures.len() && closures.deep_view()[i as int].to_set()
                == cl.deep_view().to_set(),
            None => forall|i: int|
                0 <= i < closures.deep_view().len() ==> (
                #[trigger] closures.deep_view()[i]).to_set() != cl.deep_view().to_set(),
        },
{
    let n = closures.len();
    let mut i: usize = 0;
    while i < n
        invariant
            n == closures.len(),
            i <= n,
            forall|k: int|
                0 <= k < i ==> (#[trigger] closures.deep_view()[k]).to_set()
                    != cl.deep_view().to_set(),
        decreases n - i,
    {
        if state_set_eq(&closures[i], cl) {
            proof {
                assert(closures.deep_view()[i as int] == closures[i as int].deep_view());
            }
            return Some(i);
        }
        proof {
            assert(closures.deep_view()[i as int] == closures[i as int].deep_view());
        }
        i += 1;
    }
    None
}

impl Parser {
    /// The canonical collection as mathematical values.
    pub open spec fn states_v(&self) -> Seq<Seq<ItemV>> {
        self.closures.deep_view()
    }

    /// The `goto` map as mathematical values.
    pub open spec fn goto_v(&self) -> Seq<GotoEntryV> {
        self.goto.deep_view()
    }

    /// Discovers the canonical collection of LR(1) item sets and the `goto`
    /// map: state 0 is the closure of the seed item, every state is
    /// deduplicated by item-set equality, and every dot symbol of every
    /// state has its edge recorded.
    fn get_dfa(&mut self)
        requires
            old(self).rules_v().len() > 0,
            old(self).nt_v().no_duplicates(),
            fm_matches_keys(old(self).first_v(), old(self).nt_v()),
            grammar_resolved(old(self).rules_v(), old(self).nt_v()),
        ensures
            final(self).rules == old(self).rules,
            final(self).nt_set == old(self).nt_set,
            final(self).start_symbol == old(self).start_symbol,
            final(self).first == old(self).first,
            final(self).action == old(self).action,
            dfa_inv(
                old(self).rules_v(),
                old(self).first_v(),
                final(self).states_v(),
                final(self).goto_v(),
                final(self).states_v().len() as int,
            ),
    {
        broadcast use vstd::seq_lib::seq_to_set_is_finite;

        let ghost rv = self.rules_v();
        let ghost fmv = self.first_v();
        let ghost ntv = self.nt_v();
        let ghost gus = gu_seq(rv, fmv).to_set();
        proof {
            lemma_gu_closed(rv, fmv, ntv);
        }
        let mut seedv: Vec<Item> = Vec::new();
        seedv.push(Item(clone_rule(&self.rules[0]), 0, Symbol::Terminal(dollar_string())));
        proof {
            assert(seedv.deep_view() =~= seq![seed_item(rv)]);
            assert(seedv.deep_view().no_duplicates());
            assert(items_wf(rv, seedv.deep_view())) by {
                assert(rv[0] == seedv.deep_view()[0].rule);
                assert(item_wf(rv, seedv.deep_view()[0]));
            }
        }
        let c0 = self.compute_closure(seedv);
        self.closures = Vec::new();
        self.goto = Vec::new();
        self.closures.push(c0);
        proof {
            let stv = self.states_v();
            assert(stv[0] == c0.deep_view());
            assert(stv.len() == 1);
            assert(stv[0][0] == seed_item(rv));
            assert(gsym_seq(rv, fmv)[0] == dollar());
            assert(gsym_seq(rv, fmv).contains(dollar()));
            lemma_gu_contains(rv, fmv, seed_item(rv));
            assert forall|x: ItemV| seq![seed_item(rv)].to_set().contains(x) implies gus.contains(
                x,
            ) by {
                assert(seq![seed_item(rv)][0] == seed_item(rv));
                assert(x == seed_item(rv));
            }
            assert(seq![seed_item(rv)].to_set().subset_of(gus));
            assert(closure_closed(rv, fmv, gus));
            assert(stv[0].to_set().subset_of(gus));
            assert(dfa_inv(rv, fmv, stv, self.goto_v(), 0));
            lemma_state_count_bound(stv, gus);
        }
        let mut index: usize = 0;
        while index < self.closures.len()
            invariant
                self.rules == old(self).rules,
                self.nt_set == old(self).nt_set,
                self.start_symbol == old(self).start_symbol,
                self.first == old(self).first,
                self.action == old(self).action,
                rv == self.rules_v(),
                fmv == self.first_v(),
                ntv == self.nt_v(),
                gus == gu_seq(rv, fmv).to_set(),
                gus.finite(),
                closure_closed(rv, fmv, gus),
                rv.len() > 0,
                ntv.no_duplicates(),
                fm_matches_keys(fmv, ntv),
                grammar_resolved(rv, ntv),
                index <= self.states_v().len(),
                dfa_inv(rv, fmv, self.states_v(), self.goto_v(), index as int),
                forall|k: int|
                    0 <= k < self.goto_v().len() ==> (#[trigger] self.goto_v()[k]).state < index,
                self.states_v().len() <= vstd::arithmetic::power2::pow2(gus.len()),
            decreases
                    vstd::arithmetic::power2::pow2(gus.len()) + 1 - self.states_v().len(),
                    self.states_v().len() - index,
        {
            let ghost stv_start = self.states_v();
            let ghost sv_cur = self.states_v()[index as int];
            let edges = collect_edges(&self.closures[index]);
            proof {
                assert(self.closures[index as int].deep_view() == sv_cur);
            }
            let ne = edges.len();
            let mut ei: usize = 0;
            while ei < ne
                invariant
                    self.rules == old(self).rules,
                    self.nt_set == old(self).nt_set,
                    self.start_symbol == old(self).start_symbol,
                    self.first == old(self).first,
                    self.action == old(self).action,
                    rv == self.rules_v(),
                    fmv == self.first_v(),
                    ntv == self.nt_v(),
                    gus == gu_seq(rv, fmv).to_set(),
                    gus.finite(),
                    closure_closed(rv, fmv, gus),
                    rv.len() > 0,
                    ntv.no_duplicates(),
                    fm_matches_keys(fmv, ntv),
                    grammar_resolved(rv, ntv),
                    index < self.states_v().len(),
                    self.states_v()[index as int] == sv_cur,
                    self.states_v().len() >= stv_start.len(),
                    dfa_inv(rv, fmv, self.states_v(), self.goto_v(), index as int),
                    edges.deep_view().no_duplicates(),
                    forall|k: int|
                        0 <= k < edges.deep_view().len() ==> edge_sym(
                            sv_cur,
                            #[trigger] edges.deep_view()[k],
                        ),
                    forall|x: SymbolV|
                        #[trigger] edge_sym(sv_cur, x) ==> edges.deep_view().contains(x),
                    ne == edges.len(),
                    ei <= ne,
                    forall|k2: int|
                        0 <= k2 < ei ==> g_has(
                            self.goto_v(),
                            index as int,
                            #[trigger] edges.deep_view()[k2],
                        ),
                    forall|k: int|
                        0 <= k < self.goto_v().len() ==> ((#[trigger] self.goto_v()[k]).state
                            < index || (self.goto_v()[k].state == index && exists|k2: int|
                            0 <= k2 < ei && (#[trigger] edges.deep_view()[k2])
                                == self.goto_v()[k].sym)),
                    self.states_v().len() <= vstd::arithmetic::power2::pow2(gus.len()),
                decreases
                        vstd::arithmetic::power2::pow2(gus.len()) + 1 - self.states_v().len(),
                        ne - ei,
            {
                let kern = advance_kernel(&self.closures[index], &edges[ei]);
                let ghost ev = edges.deep_view()[ei as int];
                proof {
                    assert(self.closures[index as int].deep_view() == sv_cur);
                    assert(edges[ei as int]@ == ev);
                    assert(kern.deep_view().to_set() == advance_set(sv_cur, ev));
                    assert(items_wf(rv, kern.deep_view())) by {
                        assert forall|k: int| 0 <= k < kern.deep_view().len() implies item_wf(
                            rv,
                            #[trigger] kern.deep_view()[k],
                        ) by {
                            let it2 = kern.deep_view()[k];
                            assert(kern.deep_view().contains(it2));
                            assert(kern.deep_view().to_set().contains(it2));
                            assert(advances_to(sv_cur, ev, it2));
                            let i2 = choose|i2: int|
                                0 <= i2 < sv_cur.len() && (#[trigger] sv_cur[i2]).dot
                                    < sv_cur[i2].rule.rhs.len() && sv_cur[i2].rule.rhs[
                                    sv_cur[i2].dot as int
                                ] == ev && it2 == ItemV {
                                    rule: sv_cur[i2].rule,
                                    dot: (sv_cur[i2].dot + 1) as nat,
                                    la: sv_cur[i2].la,
                                };
                            assert(item_wf(rv, sv_cur[i2]));
                        }
                    }
                    assert forall|x: ItemV| kern.deep_view().to_set().contains(
                        x,
                    ) implies gus.contains(x) by {
                        assert(advances_to(sv_cur, ev, x));
                        let i2 = choose|i2: int|
                            0 <= i2 < sv_cur.len() && (#[trigger] sv_cur[i2]).dot
                                < sv_cur[i2].rule.rhs.len() && sv_cur[i2].rule.rhs[
                                sv_cur[i2].dot as int
                            ] == ev && x == ItemV {
                                rule: sv_cur[i2].rule,
                                dot: (sv_cur[i2].dot + 1) as nat,
                                la: sv_cur[i2].la,
                            };
                        assert(sv_cur.contains(sv_cur[i2]));
                        assert(sv_cur.to_set().contains(sv_cur[i2]));
                        assert(gus.contains(sv_cur[i2]));
                        assert(gu_seq(rv, fmv).contains(sv_cur[i2]));
                        lemma_gu_member(rv, fmv, sv_cur[i2]);
                        assert(item_wf(rv, sv_cur[i2]));
                        lemma_gu_contains(rv, fmv, x);
                        assert(gu_seq(rv, fmv).contains(x));
                    }
                }
                let cl = self.compute_closure(kern);
                proof {
                    assert(is_closure_of(rv, fmv, advance_set(sv_cur, ev), cl.deep_view().to_set()));
                    assert(cl.deep_view().to_set().subset_of(gus)) by {
                        assert(kern.deep_view().to_set().subset_of(gus));
                        assert(closure_closed(rv, fmv, gus));
                    }
                }
                let ghost gv0 = self.goto_v();
                let ghost stv0 = self.states_v();
                let target: usize;
                match find_state(&self.closures, &cl) {
                    Some(pos) => {
                        target = pos;
                        proof {
                            assert(stv0[pos as int].to_set() == cl.deep_view().to_set());
                        }
                    },
                    None => {
                        self.closures.push(cl);
                        target = self.closures.len() - 1;
                        proof {
                            let stv1 = self.states_v();
                            assert(stv1 =~= stv0.push(stv1[target as int]));
                            assert forall|a: int, b: int| 0 <= a < b < stv1.len() implies (
                            #[trigger] stv1[a]).to_set() != (#[trigger] stv1[b]).to_set() by {
                                if b < stv0.len() {
                                    assert(stv1[a] == stv0[a] && stv1[b] == stv0[b]);
                                } else {
                                    assert(stv1[a] == stv0[a]);
                                    assert(stv0[a].to_set() != cl.deep_view().to_set());
                                }
                            }
                            assert(stv1[0] == stv0[0]);
                            assert forall|si: int| 0 <= si < stv1.len() implies (
                            #[trigger] stv1[si]).no_duplicates() && items_wf(rv, stv1[si])
                                && stv1[si].to_set().subset_of(gus) by {
                                if si < stv0.len() {
                                    assert(stv1[si] == stv0[si]);
                                } else {
                                    assert(stv1[si] == cl.deep_view());
                                }
                            }
                            assert forall|k: int| 0 <= k < gv0.len() implies goto_entry_ok(
                                rv,
                                fmv,
                                stv1,
                                #[trigger] gv0[k],
                            ) by {
                                assert(goto_entry_ok(rv, fmv, stv0, gv0[k]));
                                assert(stv1[gv0[k].state] == stv0[gv0[k].state]);
                                assert(stv1[gv0[k].target] == stv0[gv0[k].target]);
                            }
                            lemma_state_count_bound(stv1, gus);
                        }
                    },
                }
                let ge = GotoEntry { state: index, sym: clone_symbol(&edges[ei]), target };
                self.goto.push(ge);
                proof {
                    let stv1 = self.states_v();
                    let gv1 = self.goto_v();
                    let nv = GotoEntryV { state: index as int, sym: ev, target: target as int };
                    assert(gv1 =~= gv0.push(nv));
                    assert(goto_entry_ok(rv, fmv, stv1, nv)) by {
                        assert(stv1[index as int] == sv_cur);
                        assert(edge_sym(sv_cur, ev)) by {
                            assert(edges.deep_view()[ei as int] == ev);
                        }
                        assert(stv1[target as int].to_set() == cl.deep_view().to_set());
                        assert(is_closure_of(
                            rv,
                            fmv,
                            advance_set(sv_cur, ev),
                            stv1[target as int].to_set(),
                        ));
                    }
                    assert forall|k: int| 0 <= k < gv1.len() implies goto_entry_ok(
                        rv,
                        fmv,
                        stv1,
                        #[trigger] gv1[k],
                    ) by {
                        if k < gv0.len() {
                            assert(gv1[k] == gv0[k]);
                            assert(goto_entry_ok(rv, fmv, stv1, gv0[k]));
                        } else {
                            assert(gv1[k] == nv);
                        }
                    }
                    assert(g_keys_unique(gv1)) by {
                        assert forall|k1: int, k2: int|
                            0 <= k1 < gv1.len() && 0 <= k2 < gv1.len() && k1 != k2 implies ((
                        #[trigger] gv1[k1]).state != (#[trigger] gv1[k2]).state || gv1[k1].sym
                            != gv1[k2].sym) by {
                            if k1 < gv0.len() && k2 < gv0.len() {
                                assert(gv1[k1] == gv0[k1] && gv1[k2] == gv0[k2]);
                            } else {
                                let ko = if k1 < gv0.len() {
                                    k1
                                } else {
                                    k2
                                };
                                if ko < gv0.len() {
                                    assert(gv1[ko] == gv0[ko]);
                                    if gv0[ko].state == index {
                                        let k3 = choose|k3: int|
                                            0 <= k3 < ei && (#[trigger] edges.deep_view()[k3])
                                                == gv0[ko].sym;
                                        assert(edges.deep_view()[k3]
                                            != edges.deep_view()[ei as int]);
                                    }
                                }
                            }
                        }
                    }
                    assert forall|sj: int| 1 <= sj < stv1.len() implies #[trigger] g_target_has(
                        gv1,
                        sj,
                    ) by {
                        if sj < stv0.len() {
                            assert(g_target_has(gv0, sj));
                            let k0 = choose|k: int|
                                0 <= k < gv0.len() && (#[trigger] gv0[k]).target == sj;
                            assert(gv1[k0] == gv0[k0]);
                            assert(gv1[k0].target == sj);
                        } else {
                            assert(gv1[gv0.len() as int] == nv);
                            assert(gv1[gv0.len() as int].target == sj);
                        }
                    }
                    assert forall|si: int, x: SymbolV|
                        0 <= si < index as int && #[trigger] edge_sym(stv1[si], x) implies g_has(
                        gv1,
                        si,
                        x,
                    ) by {
                        assert(stv1[si] == stv0[si]);
                        assert(edge_sym(stv0[si], x));
                        assert(g_has(gv0, si, x));
                        let k0 = choose|k: int|
                            0 <= k < gv0.len() && (#[trigger] gv0[k]).state == si && gv0[k].sym
                                == x;
                        assert(gv1[k0].state == si && gv1[k0].sym == x);
                    }
                    assert forall|k2: int| 0 <= k2 < ei + 1 implies g_has(
                        gv1,
                        index as int,
                        #[trigger] edges.deep_view()[k2],
                    ) by {
                        if k2 < ei {
                            assert(g_has(gv0, index as int, edges.deep_view()[k2]));
                            let k0 = choose|k: int|
                                0 <= k < gv0.len() && (#[trigger] gv0[k]).state == index as int
                                    && gv0[k].sym == edges.deep_view()[k2];
                            assert(gv1[k0].state == index as int && gv1[k0].sym
                                == edges.deep_view()[k2]);
                        } else {
                            assert(gv1[gv0.len() as int].state == index as int
                                && gv1[gv0.len() as int].sym == edges.deep_view()[k2]);
                        }
                    }
                    assert(dfa_inv(rv, fmv, stv1, gv1, index as int));
                }
                ei += 1;
            }
            proof {
                let stv1 = self.states_v();
                let gv1 = self.goto_v();
                assert forall|si: int, x: SymbolV|
                    0 <= si < index as int + 1 && #[trigger] edge_sym(stv1[si], x) implies g_has(
                    gv1,
                    si,
                    x,
                ) by {
                    if si == index as int {
                        assert(stv1[si] == sv_cur);
                        assert(edge_sym(sv_cur, x));
                        assert(edges.deep_view().contains(x));
                        let k2 = choose|k2: int|
                            0 <= k2 < edges.deep_view().len() && edges.deep_view()[k2] == x;
                        assert(g_has(gv1, index as int, edges.deep_view()[k2]));
                    }
                }
                assert(dfa_inv(rv, fmv, stv1, gv1, index as int + 1));
            }
            index += 1;
        }
    }
}


// ---------------------------------------------------------------------------
// ACTION table: specification
// ---------------------------------------------------------------------------

/// Mathematical value of an [`ActionEntry`].
pub struct ActionEntryV {
    pub state: int,
    pub sym: SymbolV,
    pub act: Action,
}

impl View for ActionEntry {
    type V = ActionEntryV;

    open spec fn view(&self) -> ActionEntryV {
        ActionEntryV { state: self.state as int, sym: self.sym@, act: self.act }
    }
}

impl DeepView for ActionEntry {
    type V = ActionEntryV;

    open spec fn deep_view(&self) -> ActionEntryV {
        self.view()
    }
}

/// True iff the table holds a cell for state `i` and terminal `x`.
pub open spec fn a_has(a: Seq<ActionEntryV>, i: int, x: SymbolV) -> bool {
    exists|k: int| 0 <= k < a.len() && (#[trigger] a[k]).state == i && a[k].sym == x
}

pub open spec fn a_idx(a: Seq<ActionEntryV>, i: int, x: SymbolV) -> int {
    choose|k: int| 0 <= k < a.len() && (#[trigger] a[k]).state == i && a[k].sym == x
}

/// The action recorded for state `i` and terminal `x`.
pub open spec fn a_at(a: Seq<ActionEntryV>, i: int, x: SymbolV) -> Action {
    a[a_idx(a, i, x)].act
}

/// No two cells share the (state, terminal) key: an overwritten cell holds
/// a single action, never a list.
pub open spec fn a_keys_unique(a: Seq<ActionEntryV>) -> bool {
    forall|k1: int, k2: int|
        0 <= k1 < a.len() && 0 <= k2 < a.len() && k1 != k2 ==> ((#[trigger] a[k1]).state != (
        #[trigger] a[k2]).state || a[k1].sym != a[k2].sym)
}

/// The position of the first rule equal to `r`.
pub open spec fn rule_index(rules: Seq<RuleV>, r: RuleV) -> int {
    choose|j: int|
        0 <= j < rules.len() && (#[trigger] rules[j]) == r && (forall|k: int|
            0 <= k < j ==> rules[k] != r)
}

/// The table column and action an item asks for: a shift along the `goto`
/// edge for a terminal at the dot, accept or reduce for a completed item,
/// nothing for a nonterminal at the dot.
pub open spec fn item_action(
    rules: Seq<RuleV>,
    start: SymbolV,
    g: Seq<GotoEntryV>,
    i: int,
    it: ItemV,
) -> Option<(SymbolV, Action)> {
    if it.dot < it.rule.rhs.len() {
        let s = it.rule.rhs[it.dot as int];
        if s.is_terminal() {
            Some((s, Action::Shift(g_at(g, i, s) as usize)))
        } else {
            Option::None
        }
    } else {
        if it.rule.lhs == start {
            Some((it.la, Action::Acc))
        } else {
            Some((it.la, Action::Reduce(rule_index(rules, it.rule) as usize)))
        }
    }
}

/// The cell is justified: some item of its state asks for exactly this
/// column and action.
pub open spec fn action_entry_ok(
    rules: Seq<RuleV>,
    start: SymbolV,
    st: Seq<Seq<ItemV>>,
    g: Seq<GotoEntryV>,
    e: ActionEntryV,
) -> bool {
    &&& 0 <= e.state < st.len()
    &&& exists|ii: int|
        0 <= ii < st[e.state].len() && item_action(rules, start, g, e.state, #[trigger] st[e.state][ii])
            == Some((e.sym, e.act))
}

/// Key uniqueness depends on the keys alone.
proof fn lemma_a_keys_unique_same(a: Seq<ActionEntryV>, b: Seq<ActionEntryV>)
    requires
        a_keys_unique(a),
        a.len() == b.len(),
        forall|k: int|
            0 <= k < a.len() ==> (#[trigger] b[k]).state == a[k].state && b[k].sym == a[k].sym,
    ensures
        a_keys_unique(b),
{
    assert forall|k1: int, k2: int|
        0 <= k1 < b.len() && 0 <= k2 < b.len() && k1 != k2 implies ((#[trigger] b[k1]).state != (
    #[trigger] b[k2]).state || b[k1].sym != b[k2].sym) by {
        assert(a[k1].state != a[k2].state || a[k1].sym != a[k2].sym);
    }
}

/// With unique keys, the cell of `a[k]`'s key is `k` itself.
proof fn lemma_a_idx_is(a: Seq<ActionEntryV>, k: int)
    requires
        a_keys_unique(a),
        0 <= k < a.len(),
    ensures
        a_has(a, a[k].state, a[k].sym),
        a_idx(a, a[k].state, a[k].sym) == k,
{
    assert(a_has(a, a[k].state, a[k].sym));
    let c = a_idx(a, a[k].state, a[k].sym);
    if c != k {
        assert(a[c].state == a[k].state && a[c].sym == a[k].sym);
        assert(false);
    }
}

// ---------------------------------------------------------------------------
// ACTION table: executable helpers
// ---------------------------------------------------------------------------

/// The recorded target of the edge from state `i` over `x`, if any.
fn g_find(g: &Vec<GotoEntry>, i: usize, x: &Symbol) -> (r: Option<usize>)
    ensures
        match r {
            Some(tgt) => exists|k: int|
                0 <= k < g.deep_view().len() && (#[trigger] g.deep_view()[k]).state == i as int
                    && g.deep_view()[k].sym == x@ && g.deep_view()[k].target == tgt as int,
            None => !g_has(g.deep_view(), i as int, x@),
        },
{
    let n = g.len();
    let mut k: usize = 0;
    while k < n
        invariant
            n == g.len(),
            k <= n,
            forall|k2: int|
                0 <= k2 < k ==> ((#[trigger] g.deep_view()[k2]).state != i as int
                    || g.deep_view()[k2].sym != x@),
        decreases n - k,
    {
        if g[k].state == i && symbol_eq(&g[k].sym, x) {
            let t = g[k].target;
            proof {
                assert(g.deep_view()[k as int].state == i as int && g.deep_view()[k as int].sym
                    == x@ && g.deep_view()[k as int].target == t as int);
            }
            return Some(t);
        }
        k += 1;
    }
    None
}

/// The index of the first rule equal to `r`, if any.
fn rule_position(rules: &Vec<Rule>, r: &Rule) -> (pos: Option<usize>)
    ensures
        match pos {
            Some(j) => j < rules.len() && rules.deep_view()[j as int] == r@ && (forall|k: int|
                0 <= k < j ==> rules.deep_view()[k] != r@),
            None => forall|k: int| 0 <= k < rules.len() ==> rules.deep_view()[k] != r@,
        },
{
    let n = rules.len();
    let mut j: usize = 0;
    while j < n
        invariant
            n == rules.len(),
            j <= n,
            forall|k: int| 0 <= k < j ==> rules.deep_view()[k] != r@,
        decreases n - j,
    {
        if rule_eq(&rules[j], r) {
            proof {
                assert(rules.deep_view()[j as int] == r@);
            }
            return Some(j);
        }
        proof {
            assert(rules.deep_view()[j as int] == rules[j as int]@);
        }
        j += 1;
    }
    None
}

/// Writes `act` into the cell (state `i`, terminal `sym`), overwriting a
/// cell already there: the "last write wins" policy.
fn upsert_action(action: &mut Vec<ActionEntry>, i: usize, sym: &Symbol, act: Action)
    requires
        a_keys_unique(old(action).deep_view()),
    ensures
        a_keys_unique(final(action).deep_view()),
        a_has(final(action).deep_view(), i as int, sym@),
        a_at(final(action).deep_view(), i as int, sym@) == act,
        forall|k: int|
            0 <= k < final(action).deep_view().len() ==> (((#[trigger] final(action).deep_view()[k]).state
                == i as int && final(action).deep_view()[k].sym == sym@
                && final(action).deep_view()[k].act == act) || (exists|k2: int|
                0 <= k2 < old(action).deep_view().len() && old(action).deep_view()[k2]
                    == final(action).deep_view()[k])),
        forall|i2: int, x2: SymbolV|
            a_has(old(action).deep_view(), i2, x2) ==> a_has(
                final(action).deep_view(),
                i2,
                x2,
            ),
{
    let ghost av0 = old(action).deep_view();
    let n = action.len();
    let mut k: usize = 0;
    while k < n
        invariant
            n == action.len(),
            av0 == action.deep_view(),
            av0 == old(action).deep_view(),
            a_keys_unique(av0),
            k <= n,
            forall|k2: int|
                0 <= k2 < k ==> ((#[trigger] av0[k2]).state != i as int || av0[k2].sym != sym@),
        decreases n - k,
    {
        if action[k].state == i && symbol_eq(&action[k].sym, sym) {
            action[k].act = act;
            proof {
                let av1 = action.deep_view();
                assert(av1 =~= av0.update(
                    k as int,
                    ActionEntryV { state: i as int, sym: sym@, act: act },
                ));
                assert forall|k2: int|
                    0 <= k2 < av0.len() implies (#[trigger] av1[k2]).state == av0[k2].state
                    && av1[k2].sym == av0[k2].sym by {
                    if k2 != k as int {
                        assert(av1[k2] == av0[k2]);
                    }
                }
                lemma_a_keys_unique_same(av0, av1);
                lemma_a_idx_is(av1, k as int);
                assert forall|k2: int| 0 <= k2 < av1.len() implies (((#[trigger] av1[k2]).state
                    == i as int && av1[k2].sym == sym@ && av1[k2].act == act) || (exists|k3: int|
                    0 <= k3 < av0.len() && av0[k3] == av1[k2])) by {
                    if k2 != k as int {
                        assert(av0[k2] == av1[k2]);
                    }
                }
                assert forall|i2: int, x2: SymbolV| a_has(av0, i2, x2) implies a_has(
                    av1,
                    i2,
                    x2,
                ) by {
                    let k3 = choose|k3: int|
                        0 <= k3 < av0.len() && (#[trigger] av0[k3]).state == i2 && av0[k3].sym
                            == x2;
                    assert(av1[k3].state == i2 && av1[k3].sym == x2);
                }
            }
            return ;
        }
        k += 1;
    }
    action.push(ActionEntry { state: i, sym: clone_symbol(sym), act });
    proof {
        let av1 = action.deep_view();
        let nv = ActionEntryV { state: i as int, sym: sym@, act: act };
        assert(av1 =~= av0.push(nv));
        assert forall|k1: int, k2: int|
            0 <= k1 < av1.len() && 0 <= k2 < av1.len() && k1 != k2 implies ((
        #[trigger] av1[k1]).state != (#[trigger] av1[k2]).state || av1[k1].sym != av1[k2].sym) by {
            if k1 < av0.len() && k2 < av0.len() {
                assert(av1[k1] == av0[k1] && av1[k2] == av0[k2]);
            } else if k1 < av0.len() {
                assert(av1[k1] == av0[k1] && av1[k2] == nv);
            } else if k2 < av0.len() {
                assert(av1[k1] == nv && av1[k2] == av0[k2]);
            }
        }
        lemma_a_idx_is(av1, av0.len() as int);
        assert forall|k2: int| 0 <= k2 < av1.len() implies (((#[trigger] av1[k2]).state
            == i as int && av1[k2].sym == sym@ && av1[k2].act == act) || (exists|k3: int|
            0 <= k3 < av0.len() && av0[k3] == av1[k2])) by {
            if k2 < av0.len() {
                assert(av0[k2] == av1[k2]);
            }
        }
        assert forall|i2: int, x2: SymbolV| a_has(av0, i2, x2) implies a_has(av1, i2, x2) by {
            let k3 = choose|k3: int|
                0 <= k3 < av0.len() && (#[trigger] av0[k3]).state == i2 && av0[k3].sym == x2;
            assert(av1[k3] == av0[k3]);
            assert(av1[k3].state == i2 && av1[k3].sym == x2);
        }
    }
}

/// With unique keys, the edge of `g[k]`'s key is `k` itself.
proof fn lemma_g_idx_is(g: Seq<GotoEntryV>, k: int)
    requires
        g_keys_unique(g),
        0 <= k < g.len(),
    ensures
        g_has(g, g[k].state, g[k].sym),
        g_idx(g, g[k].state, g[k].sym) == k,
{
    assert(g_has(g, g[k].state, g[k].sym));
    let c = g_idx(g, g[k].state, g[k].sym);
    if c != k {
        assert(g[c].state == g[k].state && g[c].sym == g[k].sym);
        assert(false);
    }
}

/// The first index of `r` pins down [`rule_index`].
proof fn lemma_rule_index_is(rules: Seq<RuleV>, r: RuleV, j: int)
    requires
        0 <= j < rules.len(),
        rules[j] == r,
        forall|k: int| 0 <= k < j ==> rules[k] != r,
    ensures
        rule_index(rules, r) == j,
{
    assert(0 <= j < rules.len() && (#[trigger] rules[j]) == r && (forall|k: int|
        0 <= k < j ==> rules[k] != r));
    let c = rule_index(rules, r);
    assert(0 <= c < rules.len() && rules[c] == r && (forall|k: int| 0 <= k < c ==> rules[k] != r));
    if c < j {
        assert(rules[c] != r);
        assert(false);
    }
    if c > j {
        assert(rules[j] != r);
        assert(false);
    }
}

/// Whether the cell an item asks for is present in the table.
pub open spec fn item_covered(
    rules: Seq<RuleV>,
    start: SymbolV,
    g: Seq<GotoEntryV>,
    a: Seq<ActionEntryV>,
    si: int,
    it: ItemV,
) -> bool {
    match item_action(rules, start, g, si, it) {
        Some(p) => a_has(a, si, p.0),
        Option::None => true,
    }
}

impl Parser {
    /// The ACTION table as mathematical values.
    pub open spec fn action_v(&self) -> Seq<ActionEntryV> {
        self.action.deep_view()
    }

    /// Fills the ACTION table: a shift cell for every terminal at a dot, an
    /// accept or reduce cell for every completed item, one action per cell,
    /// later items silently overwriting earlier ones.
    #[verifier::rlimit(100)]
    fn get_action(&mut self)
        requires
            dfa_inv(
                old(self).rules_v(),
                old(self).first_v(),
                old(self).states_v(),
                old(self).goto_v(),
                old(self).states_v().len() as int,
            ),
        ensures
            final(self).rules == old(self).rules,
            final(self).nt_set == old(self).nt_set,
            final(self).start_symbol == old(self).start_symbol,
            final(self).first == old(self).first,
            final(self).closures == old(self).closures,
            final(self).goto == old(self).goto,
            a_keys_unique(final(self).action_v()),
            forall|k: int|
                0 <= k < final(self).action_v().len() ==> action_entry_ok(
                    old(self).rules_v(),
                    old(self).start_symbol@,
                    old(self).states_v(),
                    old(self).goto_v(),
                    #[trigger] final(self).action_v()[k],
                ),
            forall|si: int, ii: int|
                0 <= si < old(self).states_v().len() && 0 <= ii < old(self).states_v()[si].len()
                    ==> item_covered(
                    old(self).rules_v(),
                    old(self).start_symbol@,
                    old(self).goto_v(),
                    final(self).action_v(),
                    si,
                    #[trigger] old(self).states_v()[si][ii],
                ),
    {
        let ghost rv = self.rules_v();
        let ghost gv = self.goto_v();
        let ghost stv = self.states_v();
        let ghost startv = self.start_symbol@;
        self.action = Vec::new();
        let ns = self.closures.len();
        let mut i: usize = 0;
        while i < ns
            invariant
                self.rules == old(self).rules,
                self.nt_set == old(self).nt_set,
                self.start_symbol == old(self).start_symbol,
                self.first == old(self).first,
                self.closures == old(self).closures,
                self.goto == old(self).goto,
                rv == self.rules_v(),
                gv == self.goto_v(),
                stv == self.states_v(),
                startv == self.start_symbol@,
                dfa_inv(rv, old(self).first_v(), stv, gv, stv.len() as int),
                ns == self.closures.len(),
                i <= ns,
                a_keys_unique(self.action_v()),
                forall|k: int|
                    0 <= k < self.action_v().len() ==> action_entry_ok(
                        rv,
                        startv,
                        stv,
                        gv,
                        #[trigger] self.action_v()[k],
                    ),
                forall|si: int, ii: int|
                    0 <= si < i && 0 <= ii < stv[si].len() ==> item_covered(
                        rv,
                        startv,
                        gv,
                        self.action_v(),
                        si,
                        #[trigger] stv[si][ii],
                    ),
            decreases ns - i,
        {
            let m = self.closures[i].len();
            let mut ii: usize = 0;
            while ii < m
                invariant
                    self.rules == old(self).rules,
                    self.nt_set == old(self).nt_set,
                    self.start_symbol == old(self).start_symbol,
                    self.first == old(self).first,
                    self.closures == old(self).closures,
                    self.goto == old(self).goto,
                    rv == self.rules_v(),
                    gv == self.goto_v(),
                    stv == self.states_v(),
                    startv == self.start_symbol@,
                    forall|si: int, x: SymbolV|
                        0 <= si < stv.len() && #[trigger] edge_sym(stv[si], x) ==> g_has(
                            gv,
                            si,
                            x,
                        ),
                    forall|si: int| 0 <= si < stv.len() ==> items_wf(rv, #[trigger] stv[si]),
                    g_keys_unique(gv),
                    ns == self.closures.len(),
                    i < ns,
                    m == stv[i as int].len(),
                    ii <= m,
                    a_keys_unique(self.action_v()),
                    forall|k: int|
                        0 <= k < self.action_v().len() ==> action_entry_ok(
                            rv,
                            startv,
                            stv,
                            gv,
                            #[trigger] self.action_v()[k],
                        ),
                    forall|si: int, ii2: int|
                        0 <= si < i && 0 <= ii2 < stv[si].len() ==> item_covered(
                            rv,
                            startv,
                            gv,
                            self.action_v(),
                            si,
                            #[trigger] stv[si][ii2],
                        ),
                    forall|ii2: int|
                        0 <= ii2 < ii ==> item_covered(
                            rv,
                            startv,
                            gv,
                            self.action_v(),
                            i as int,
                            #[trigger] stv[i as int][ii2],
                        ),
                decreases m - ii,
            {
                let ghost av_pre = self.action_v();
                let it = clone_item(&self.closures[i][ii]);
                let ghost itv = stv[i as int][ii as int];
                proof {
                    assert(self.closures[i as int].deep_view() == stv[i as int]);
                    assert(it@ == itv);
                }
                let mut wrote = false;
                let ghost wkey: SymbolV;
                let ghost wact: Action;
                if it.1 < it.0.rhs.len() {
                    let s = &it.0.rhs[it.1];
                    if s.is_terminal() {
                        proof {
                            assert(s@ == itv.rule.rhs[itv.dot as int]);
                            assert(stv[i as int].contains(itv)) by {
                                assert(stv[i as int][ii as int] == itv);
                            }
                            assert(edge_sym(stv[i as int], s@)) by {
                                assert(stv[i as int][ii as int].dot < stv[i as int][
                                    ii as int
                                ].rule.rhs.len());
                            }
                            assert(g_has(gv, i as int, s@));
                        }
                        let tgt = match g_find(&self.goto, i, s) {
                            Some(t) => t,
                            None => {
                                proof {
                                    assert(false);
                                }
                                0
                            },
                        };
                        proof {
                            let k0 = choose|k: int|
                                0 <= k < gv.len() && (#[trigger] gv[k]).state == i as int
                                    && gv[k].sym == s@ && gv[k].target == tgt as int;
                            lemma_g_idx_is(gv, k0);
                            assert(g_at(gv, i as int, s@) == tgt as int);
                        }
                        upsert_action(&mut self.action, i, s, Action::Shift(tgt));
                        wrote = true;
                        proof {
                            wkey = s@;
                            wact = Action::Shift(tgt);
                            assert(item_action(rv, startv, gv, i as int, itv) == Some(
                                (wkey, wact),
                            ));
                        }
                    }
                } else {
                    if symbol_eq(&it.0.lhs, &self.start_symbol) {
                        upsert_action(&mut self.action, i, &it.2, Action::Acc);
                        wrote = true;
                        proof {
                            wkey = it@.la;
                            wact = Action::Acc;
                            assert(itv.dot >= itv.rule.rhs.len());
                            assert(item_action(rv, startv, gv, i as int, itv) == Some(
                                (wkey, wact),
                            ));
                        }
                    } else {
                        proof {
                            assert(stv[i as int][ii as int] == itv);
                            assert(item_wf(rv, itv)) by {
                                assert(items_wf(rv, stv[i as int]));
                            }
                        }
                        let j = match rule_position(&self.rules, &it.0) {
                            Some(j) => j,
                            None => {
                                proof {
                                    let jw = choose|jw: int|
                                        0 <= jw < rv.len() && (#[trigger] rv[jw]) == itv.rule;
                                    assert(rv[jw] != it.0@);
                                    assert(false);
                                }
                                0
                            },
                        };
                        proof {
                            lemma_rule_index_is(rv, itv.rule, j as int);
                        }
                        upsert_action(&mut self.action, i, &it.2, Action::Reduce(j));
                        wrote = true;
                        proof {
                            wkey = it@.la;
                            wact = Action::Reduce(j);
                            assert(itv.dot >= itv.rule.rhs.len());
                            assert(itv.rule.lhs != startv);
                            assert(item_action(rv, startv, gv, i as int, itv) == Some(
                                (wkey, wact),
                            ));
                        }
                    }
                }
                proof {
                    let av1 = self.action_v();
                    if wrote {
                        assert(a_has(av1, i as int, wkey));
                        assert(a_at(av1, i as int, wkey) == wact);
                        assert forall|k: int| 0 <= k < av1.len() implies action_entry_ok(
                            rv,
                            startv,
                            stv,
                            gv,
                            #[trigger] av1[k],
                        ) by {
                            if av1[k].state == i as int && av1[k].sym == wkey && av1[k].act
                                == wact {
                                assert(item_action(rv, startv, gv, i as int, stv[i as int][
                                    ii as int
                                ]) == Some((wkey, wact)));
                                assert(action_entry_ok(rv, startv, stv, gv, av1[k]));
                            } else {
                                let k2 = choose|k2: int|
                                    0 <= k2 < av_pre.len() && av_pre[k2] == av1[k];
                                assert(action_entry_ok(rv, startv, stv, gv, av_pre[k2]));
                            }
                        }
                    } else {
                        assert(av1 == av_pre);
                        assert(item_action(rv, startv, gv, i as int, itv) is None);
                    }
                    assert forall|ii2: int| 0 <= ii2 < ii + 1 implies item_covered(
                        rv,
                        startv,
                        gv,
                        av1,
                        i as int,
                        #[trigger] stv[i as int][ii2],
                    ) by {
                        if ii2 < ii {
                            assert(item_covered(rv, startv, gv, av_pre, i as int, stv[i as int][
                                ii2
                            ]));
                        } else {
                            assert(stv[i as int][ii2] == itv);
                        }
                    }
                    assert forall|si: int, ii2: int|
                        0 <= si < i as int && 0 <= ii2 < stv[si].len() implies item_covered(
                        rv,
                        startv,
                        gv,
                        av1,
                        si,
                        #[trigger] stv[si][ii2],
                    ) by {
                        assert(item_covered(rv, startv, gv, av_pre, si, stv[si][ii2]));
                    }
                }
                ii += 1;
            }
            i += 1;
        }
    }
}

/// Rule 0 is missing, or some rule has an empty right-hand side: the
/// FIRST-set engine has no valid seed.
pub open spec fn grammar_malformed(rules: Seq<RuleV>) -> bool {
    rules.len() == 0 || exists|j: int| 0 <= j < rules.len() && (#[trigger] rules[j]).rhs.len() == 0
}

impl Parser {
    /// Everything [`Parser::build`] guarantees about the finished tables.
    pub open spec fn tables_ok(&self) -> bool {
        &&& fm_matches_keys(self.first_v(), self.nt_v())
        &&& fm_no_dups(self.first_v())
        &&& fm_universe_ok(self.rules_v(), self.first_v())
        &&& first_sound(self.rules_v(), self.first_v())
        &&& forall|g: Seq<FirstEntryV>|
            fm_matches_keys(g, self.nt_v()) && first_sound(self.rules_v(), g) ==> fm_leq(
                self.first_v(),
                g,
            )
        &&& dfa_inv(
            self.rules_v(),
            self.first_v(),
            self.states_v(),
            self.goto_v(),
            self.states_v().len() as int,
        )
        &&& a_keys_unique(self.action_v())
        &&& forall|k: int|
            0 <= k < self.action_v().len() ==> action_entry_ok(
                self.rules_v(),
                self.start_symbol@,
                self.states_v(),
                self.goto_v(),
                #[trigger] self.action_v()[k],
            )
        &&& forall|si: int, ii: int|
            0 <= si < self.states_v().len() && 0 <= ii < self.states_v()[si].len()
                ==> item_covered(
                self.rules_v(),
                self.start_symbol@,
                self.goto_v(),
                self.action_v(),
                si,
                #[trigger] self.states_v()[si][ii],
            )
    }

    /// Runs all four stages in order: FIRST sets, the canonical collection
    /// with its `goto` map, and the ACTION table. Fails with
    /// `MalformedGrammar` exactly when there is no rule or some rule has an
    /// empty right-hand side, and with `UnresolvedLookahead` exactly when an
    /// undefined nonterminal occurs in some right-hand side.
    pub fn build(&mut self) -> (r: Result<(), GrammarError>)
        requires
            old(self).wf(),
        ensures
            final(self).wf(),
            final(self).rules == old(self).rules,
            final(self).nt_set == old(self).nt_set,
            final(self).start_symbol == old(self).start_symbol,
            (r == Result::<(), GrammarError>::Err(GrammarError::MalformedGrammar)
                <==> grammar_malformed(old(self).rules_v())),
            (r == Result::<(), GrammarError>::Err(GrammarError::UnresolvedLookahead)
                <==> (!grammar_malformed(old(self).rules_v()) && !grammar_resolved(
                old(self).rules_v(),
                old(self).nt_v(),
            ))),
            (r == Result::<(), GrammarError>::Ok(()) <==> (!grammar_malformed(
                old(self).rules_v(),
            ) && grammar_resolved(old(self).rules_v(), old(self).nt_v()))),
            r == Result::<(), GrammarError>::Ok(()) ==> final(self).tables_ok(),
    {
        let ghost rv = self.rules_v();
        let ghost ntv = self.nt_v();
        // Reject a grammar the FIRST-set engine cannot seed.
        let nr = self.rules.len();
        if nr == 0 {
            return Err(GrammarError::MalformedGrammar);
        }
        let mut j: usize = 0;
        while j < nr
            invariant
                self.rules == old(self).rules,
                self.nt_set == old(self).nt_set,
                self.start_symbol == old(self).start_symbol,
                old(self).wf(),
                rv == self.rules_v(),
                ntv == self.nt_v(),
                nr == self.rules.len(),
                j <= nr,
                forall|j2: int| 0 <= j2 < j ==> (#[trigger] rv[j2]).rhs.len() > 0,
            decreases nr - j,
        {
            if self.rules[j].rhs.len() == 0 {
                proof {
                    assert(rv[j as int].rhs.len() == 0);
                }
                return Err(GrammarError::MalformedGrammar);
            }
            proof {
                assert(rv[j as int].rhs.len() > 0);
            }
            j += 1;
        }
        // Reject a right-hand-side nonterminal no rule defines.
        let mut j2: usize = 0;
        while j2 < nr
            invariant
                self.rules == old(self).rules,
                self.nt_set == old(self).nt_set,
                self.start_symbol == old(self).start_symbol,
                old(self).wf(),
                rv == self.rules_v(),
                ntv == self.nt_v(),
                nr == self.rules.len(),
                j2 <= nr,
                forall|a: int| 0 <= a < rv.len() ==> (#[trigger] rv[a]).rhs.len() > 0,
                forall|a: int, p: int|
                    0 <= a < j2 && 0 <= p < rv[a].rhs.len() && (
                    #[trigger] rv[a].rhs[p]).is_nonterminal() ==> ntv.contains(rv[a].rhs[p]),
            decreases nr - j2,
        {
            let np = self.rules[j2].rhs.len();
            let mut p: usize = 0;
            while p < np
                invariant
                    self.rules == old(self).rules,
                    self.nt_set == old(self).nt_set,
                    self.start_symbol == old(self).start_symbol,
                    old(self).wf(),
                    rv == self.rules_v(),
                    ntv == self.nt_v(),
                    nr == self.rules.len(),
                    j2 < nr,
                    np == rv[j2 as int].rhs.len(),
                    p <= np,
                    forall|a: int| 0 <= a < rv.len() ==> (#[trigger] rv[a]).rhs.len() > 0,
                    forall|a: int, p2: int|
                        0 <= a < j2 && 0 <= p2 < rv[a].rhs.len() && (
                        #[trigger] rv[a].rhs[p2]).is_nonterminal() ==> ntv.contains(
                            rv[a].rhs[p2],
                        ),
                    forall|p2: int|
                        0 <= p2 < p && (#[trigger] rv[j2 as int].rhs[p2]).is_nonterminal()
                            ==> ntv.contains(rv[j2 as int].rhs[p2]),
                decreases np - p,
            {
                let s = &self.rules[j2].rhs[p];
                if !s.is_terminal() {
                    if !contains_symbol(&self.nt_set, s) {
                        proof {
                            assert(rv[j2 as int].rhs[p as int].is_nonterminal());
                            assert(!ntv.contains(rv[j2 as int].rhs[p as int]));
                            assert(!grammar_resolved(rv, ntv));
                        }
                        return Err(GrammarError::UnresolvedLookahead);
                    }
                }
                proof {
                    assert(s@ == rv[j2 as int].rhs[p as int]);
                }
                p += 1;
            }
            proof {
                assert forall|a: int, p2: int|
                    0 <= a < j2 + 1 && 0 <= p2 < rv[a].rhs.len() && (
                #[trigger] rv[a].rhs[p2]).is_nonterminal() implies ntv.contains(
                    rv[a].rhs[p2],
                ) by {}
            }
            j2 += 1;
        }
        proof {
            assert(grammar_resolved(rv, ntv));
            assert(!grammar_malformed(rv));
        }
        self.get_first();
        self.get_dfa();
        self.get_action();
        Ok(())
    }

    /// The decision a driver takes in `state` on the next `terminal`, if
    /// the table holds one.
    pub fn lookup_action(&self, state: usize, terminal: &Symbol) -> (r: Option<Action>)
        ensures
            match r {
                Some(a) => exists|k: int|
                    0 <= k < self.action_v().len() && (#[trigger] self.action_v()[k]).state
                        == state as int && self.action_v()[k].sym == terminal@
                        && self.action_v()[k].act == a,
                None => !a_has(self.action_v(), state as int, terminal@),
            },
    {
        let n = self.action.len();
        let mut k: usize = 0;
        while k < n
            invariant
                n == self.action.len(),
                k <= n,
                forall|k2: int|
                    0 <= k2 < k ==> ((#[trigger] self.action_v()[k2]).state != state as int
                        || self.action_v()[k2].sym != terminal@),
            decreases n - k,
        {
            if self.action[k].state == state && symbol_eq(&self.action[k].sym, terminal) {
                proof {
                    assert(self.action_v()[k as int].state == state as int
                        && self.action_v()[k as int].sym == terminal@);
                }
                return Some(self.action[k].act);
            }
            k += 1;
        }
        None
    }

    /// The state entered from `state` over `sym`, if an edge is recorded.
    pub fn lookup_goto(&self, state: usize, sym: &Symbol) -> (r: Option<usize>)
        ensures
            match r {
                Some(tgt) => exists|k: int|
                    0 <= k < self.goto_v().len() && (#[trigger] self.goto_v()[k]).state
                        == state as int && self.goto_v()[k].sym == sym@
                        && self.goto_v()[k].target == tgt as int,
                None => !g_has(self.goto_v(), state as int, sym@),
            },
    {
        let r = g_find(&self.goto, state, sym);
        proof {
            assert(self.goto_v() == self.goto.deep_view());
            if r is Some {
                let tgt = r->Some_0;
                let k0 = choose|k: int|
                    0 <= k < self.goto.deep_view().len() && (
                    #[trigger] self.goto.deep_view()[k]).state == state as int
                        && self.goto.deep_view()[k].sym == sym@ && self.goto.deep_view()[k].target
                        == tgt as int;
                assert((#[trigger] self.goto_v()[k0]).state == state as int
                    && self.goto_v()[k0].sym == sym@ && self.goto_v()[k0].target == tgt as int);
            }
        }
        r
    }

    /// The rule at `index`, the stable reduce-action identifier.
    pub fn rule_at(&self, index: usize) -> (r: Option<&Rule>)
        ensures
            match r {
                Some(rule) => index < self.rules_v().len() && rule@ == self.rules_v()[
                    index as int
                ],
                None => index >= self.rules_v().len(),
            },
    {
        if index < self.rules.len() {
            Some(&self.rules[index])
        } else {
            None
        }
    }

    /// How many states the canonical collection holds.
    pub fn state_count(&self) -> (r: usize)
        ensures
            r == self.states_v().len(),
    {
        self.closures.len()
    }

    /// How many rules the grammar holds.
    pub fn rule_count(&self) -> (r: usize)
        ensures
            r == self.rules_v().len(),
    {
        self.rules.len()
    }

    /// How many `goto` edges are recorded.
    pub fn goto_count(&self) -> (r: usize)
        ensures
            r == self.goto_v().len(),
    {
        self.goto.len()
    }

    /// The items of state `i`, if it exists.
    pub fn state_items(&self, i: usize) -> (r: Option<&Vec<Item>>)
        ensures
            match r {
                Some(v) => i < self.states_v().len() && v.deep_view() == self.states_v()[i as int],
                None => i >= self.states_v().len(),
            },
    {
        if i < self.closures.len() {
            Some(&self.closures[i])
        } else {
            None
        }
    }

    /// The FIRST set recorded for `nt`, if the map binds it.
    pub fn first_terminals(&self, nt: &Symbol) -> (r: Option<&Vec<Symbol>>)
        ensures
            match r {
                Some(v) => exists|k: int|
                    0 <= k < self.first_v().len() && (#[trigger] self.first_v()[k]).key == nt@
                        && v.deep_view() == self.first_v()[k].terms,
                None => !fm_has(self.first_v(), nt@),
            },
    {
        let n = self.first.len();
        let mut k: usize = 0;
        while k < n
            invariant
                n == self.first.len(),
                k <= n,
                forall|k2: int| 0 <= k2 < k ==> (#[trigger] self.first_v()[k2]).key != nt@,
            decreases n - k,
        {
            if symbol_eq(&self.first[k].key, nt) {
                proof {
                    assert(self.first_v()[k as int].key == nt@);
                    assert(self.first[k as int].terms.deep_view() == self.first_v()[
                        k as int
                    ].terms);
                }
                return Some(&self.first[k].terms);
            }
            k += 1;
        }
        None
    }

    /// The registered nonterminals, in first-registration order.
    pub fn nonterminals(&self) -> (r: &Vec<Symbol>)
        ensures
            r.deep_view() == self.nt_v(),
    {
        &self.nt_set
    }
}

} // verus!
