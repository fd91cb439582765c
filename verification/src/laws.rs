//! Laws of the closure engine and the automaton, stated and proved once
//! and for all over the specification predicates the builders establish.

use vstd::prelude::*;

use crate::parser::{
    a_at, a_has, a_idx, action_entry_ok, advance_set, advances_to, closure_closed, derives,
    dfa_inv, dollar, edge_sym, g_at, g_has, g_idx, g_target_has, goto_entry_ok,
    is_closure_of, item_action, item_covered, item_wf, items_wf, seed_item, Action, FirstEntryV,
    GotoEntryV, ItemV, Parser,
};
use crate::rule::{RuleV, SymbolV};

verus! {

/// Closure monotonicity: the closure of a kernel set always contains the
/// kernel set.
pub proof fn lemma_closure_monotone(
    rules: Seq<RuleV>,
    fm: Seq<FirstEntryV>,
    s: Set<ItemV>,
    c: Set<ItemV>,
)
    requires
        is_closure_of(rules, fm, s, c),
    ensures
        s.subset_of(c),
{
}

/// Closure is unique: two closures of the same kernel set are equal.
pub proof fn lemma_closure_unique(
    rules: Seq<RuleV>,
    fm: Seq<FirstEntryV>,
    s: Set<ItemV>,
    c1: Set<ItemV>,
    c2: Set<ItemV>,
)
    requires
        is_closure_of(rules, fm, s, c1),
        is_closure_of(rules, fm, s, c2),
    ensures
        c1 == c2,
{
    assert(c1.subset_of(c2));
    assert(c2.subset_of(c1));
    assert(c1 =~= c2);
}

/// Closure idempotence: the closure of a closure is that closure itself,
/// so closing twice changes nothing.
pub proof fn lemma_closure_idempotent(
    rules: Seq<RuleV>,
    fm: Seq<FirstEntryV>,
    s: Set<ItemV>,
    c1: Set<ItemV>,
    c2: Set<ItemV>,
)
    requires
        is_closure_of(rules, fm, s, c1),
        is_closure_of(rules, fm, c1, c2),
    ensures
        c2 == c1,
{
    assert(c1.subset_of(c1));
    assert(c2.subset_of(c1));
    assert(c1.subset_of(c2));
    assert(c1 =~= c2);
}

/// Goto totality for shift items: in a finished automaton, every state
/// with any symbol at a dot position — a terminal in particular — has a
/// `goto` edge recorded for that symbol.
pub proof fn lemma_goto_total_for_shift(
    rules: Seq<RuleV>,
    fm: Seq<FirstEntryV>,
    st: Seq<Seq<ItemV>>,
    g: Seq<GotoEntryV>,
    i: int,
    x: crate::rule::SymbolV,
)
    requires
        dfa_inv(rules, fm, st, g, st.len() as int),
        0 <= i < st.len(),
        edge_sym(st[i], x),
    ensures
        g_has(g, i, x),
{
}


/// The shape an augmented grammar has: rule 0 is `S' -> S` with the
/// augmented start symbol on no right-hand side and on no other left-hand
/// side, no rule has an empty right-hand side, and the reserved `$` marker
/// occurs in no right-hand side.
pub open spec fn aug_wf(rules: Seq<RuleV>, start: SymbolV) -> bool {
    &&& rules.len() > 0
    &&& rules[0].lhs == start
    &&& rules[0].rhs.len() == 1
    &&& forall|j: int| 0 <= j < rules.len() ==> (#[trigger] rules[j]).rhs.len() > 0
    &&& forall|j: int| 1 <= j < rules.len() ==> (#[trigger] rules[j]).lhs != start
    &&& forall|j: int, p: int|
        0 <= j < rules.len() && 0 <= p < rules[j].rhs.len() ==> (#[trigger] rules[j].rhs[p])
            != start && rules[j].rhs[p] != dollar()
}

/// In a closure, an item deriving the augmented start symbol can only come
/// from the kernel: closure expansion never adds one, because the start
/// symbol stands on no right-hand side.
proof fn lemma_aug_in_kernel(
    rules: Seq<RuleV>,
    fm: Seq<FirstEntryV>,
    start: SymbolV,
    kset: Set<ItemV>,
    c: Set<ItemV>,
    it2: ItemV,
)
    requires
        aug_wf(rules, start),
        is_closure_of(rules, fm, kset, c),
        forall|it: ItemV| #[trigger] kset.contains(it) ==> item_wf(rules, it),
        c.contains(it2),
        it2.rule.lhs == start,
    ensures
        kset.contains(it2),
{
    let part2 = Set::new(|it: ItemV| it.dot == 0 && item_wf(rules, it) && it.rule.lhs != start);
    let tset = kset.union(part2);
    assert(kset.subset_of(tset));
    assert(closure_closed(rules, fm, tset)) by {
        assert forall|ita: ItemV, itb: ItemV|
            #![trigger tset.contains(ita), tset.contains(itb)]
            tset.contains(ita) && derives(fm, ita, itb) && item_wf(rules, itb) implies tset.contains(
            itb,
        ) by {
            assert(item_wf(rules, ita));
            let jw = choose|jw: int| 0 <= jw < rules.len() && (#[trigger] rules[jw]) == ita.rule;
            assert(rules[jw].rhs[ita.dot as int] != start);
            assert(itb.rule.lhs != start);
            assert(part2.contains(itb));
        }
    }
    assert(c.subset_of(tset));
    assert(tset.contains(it2));
    if part2.contains(it2) {
        assert(false);
    }
}

/// In any state but 0, an item deriving the augmented start symbol lies in
/// the state's advanced kernel: it came over some recorded edge.
proof fn lemma_state_aug_source(
    rules: Seq<RuleV>,
    fm: Seq<FirstEntryV>,
    start: SymbolV,
    st: Seq<Seq<ItemV>>,
    g: Seq<GotoEntryV>,
    si: int,
    it2: ItemV,
)
    requires
        dfa_inv(rules, fm, st, g, st.len() as int),
        aug_wf(rules, start),
        1 <= si < st.len(),
        st[si].to_set().contains(it2),
        it2.rule.lhs == start,
    ensures
        exists|k: int|
            0 <= k < g.len() && (#[trigger] g[k]).target == si && advance_set(
                st[g[k].state],
                g[k].sym,
            ).contains(it2),
        it2.dot >= 1,
{
    assert(g_target_has(g, si));
    let k = choose|k: int| 0 <= k < g.len() && (#[trigger] g[k]).target == si;
    assert(goto_entry_ok(rules, fm, st, g[k]));
    let kset = advance_set(st[g[k].state], g[k].sym);
    assert forall|x: ItemV| #[trigger] kset.contains(x) implies item_wf(rules, x) by {
        assert(advances_to(st[g[k].state], g[k].sym, x));
        let i2 = choose|i2: int|
            0 <= i2 < st[g[k].state].len() && (#[trigger] st[g[k].state][i2]).dot < st[g[k].state][
                i2
            ].rule.rhs.len() && st[g[k].state][i2].rule.rhs[st[g[k].state][i2].dot as int]
                == g[k].sym && x == ItemV {
                rule: st[g[k].state][i2].rule,
                dot: (st[g[k].state][i2].dot + 1) as nat,
                la: st[g[k].state][i2].la,
            };
        assert(items_wf(rules, st[g[k].state]));
        assert(item_wf(rules, st[g[k].state][i2]));
    }
    lemma_aug_in_kernel(rules, fm, start, kset, st[si].to_set(), it2);
    assert(advances_to(st[g[k].state], g[k].sym, it2));
    assert(it2.dot >= 1);
}

/// The item `S' -> S ., $` as a value.
pub open spec fn accept_item(rules: Seq<RuleV>) -> ItemV {
    ItemV { rule: rules[0], dot: 1, la: dollar() }
}

/// The accept state: the state entered from state 0 over the augmented
/// start rule's right-hand side.
pub open spec fn accept_state(rules: Seq<RuleV>, g: Seq<GotoEntryV>) -> int {
    g_at(g, 0, rules[0].rhs[0])
}

/// Accept uniqueness: in the finished tables of a well-formed augmented
/// grammar whose accept state holds no competing completed item on `$`,
/// the cell (accept state, `$`) maps to `Accept`, and it is the only cell
/// of the whole table that does. The accept state is the one reached from
/// state 0 over the start rule's right-hand side, where the automaton has
/// just reduced by the augmented start rule.
pub proof fn lemma_accept_unique(p: &Parser)
    requires
        p.tables_ok(),
        aug_wf(p.rules_v(), p.start_symbol@),
        forall|ii: int|
            0 <= ii < p.states_v()[accept_state(p.rules_v(), p.goto_v())].len() && ((
            #[trigger] p.states_v()[accept_state(p.rules_v(), p.goto_v())][ii]).dot
                >= p.states_v()[accept_state(p.rules_v(), p.goto_v())][ii].rule.rhs.len())
                && p.states_v()[accept_state(p.rules_v(), p.goto_v())][ii].la == dollar()
                ==> p.states_v()[accept_state(p.rules_v(), p.goto_v())][ii].rule.lhs
                == p.start_symbol@,
    ensures
        g_has(p.goto_v(), 0, p.rules_v()[0].rhs[0]),
        0 <= accept_state(p.rules_v(), p.goto_v()) < p.states_v().len(),
        a_has(p.action_v(), accept_state(p.rules_v(), p.goto_v()), dollar()),
        a_at(p.action_v(), accept_state(p.rules_v(), p.goto_v()), dollar()) == Action::Acc,
        forall|si: int, x: SymbolV|
            #[trigger] a_has(p.action_v(), si, x) && a_at(p.action_v(), si, x) == Action::Acc
                ==> si == accept_state(p.rules_v(), p.goto_v()) && x == dollar(),
{
    let rv = p.rules_v();
    let fmv = p.first_v();
    let stv = p.states_v();
    let gv = p.goto_v();
    let av = p.action_v();
    let startv = p.start_symbol@;
    let rhs0 = rv[0].rhs[0];
    let seedv = seed_item(rv);
    let acc_it = accept_item(rv);

    // State 0 holds the seed, so an edge over the start rule's symbol exists.
    assert(stv[0].to_set().contains(seedv)) by {
        assert(stv[0][0] == seedv);
        assert(stv[0].contains(seedv));
    }
    assert(edge_sym(stv[0], rhs0)) by {
        assert(stv[0][0].dot < stv[0][0].rule.rhs.len());
        assert(stv[0][0].rule.rhs[0] == rhs0);
    }
    assert(g_has(gv, 0, rhs0));
    let kx = g_idx(gv, 0, rhs0);
    assert(0 <= kx < gv.len() && gv[kx].state == 0 && gv[kx].sym == rhs0);
    assert(goto_entry_ok(rv, fmv, stv, gv[kx]));
    let t = gv[kx].target;
    assert(t == accept_state(rv, gv));
    // The accept item is in the accept state's kernel, hence in the state.
    let kset0 = advance_set(stv[0], rhs0);
    assert(kset0.contains(acc_it)) by {
        assert(stv[0][0].dot < stv[0][0].rule.rhs.len() && stv[0][0].rule.rhs[
            stv[0][0].dot as int
        ] == rhs0 && acc_it == ItemV {
            rule: stv[0][0].rule,
            dot: (stv[0][0].dot + 1) as nat,
            la: stv[0][0].la,
        });
        assert(advances_to(stv[0], rhs0, acc_it));
    }
    assert(stv[t].to_set().contains(acc_it));

    // No state but the accept state holds the accept item, and the seed item
    // lives only in state 0.
    assert forall|sj: int|
        0 <= sj < stv.len() && #[trigger] stv[sj].to_set().contains(acc_it) implies sj == t by {
        if sj == 0 {
            let seedset = seq![seedv].to_set();
            assert forall|x: ItemV| #[trigger] seedset.contains(x) implies item_wf(rv, x) by {
                assert(seq![seedv][0] == seedv);
                let i0 = choose|i0: int| 0 <= i0 < seq![seedv].len() && seq![seedv][i0] == x;
                assert(x == seedv);
                assert(rv[0] == x.rule);
            }
            lemma_aug_in_kernel(rv, fmv, startv, seedset, stv[0].to_set(), acc_it);
            let i0 = choose|i0: int| 0 <= i0 < seq![seedv].len() && seq![seedv][i0] == acc_it;
            assert(acc_it == seedv);
            assert(false);
        } else {
            lemma_state_aug_source(rv, fmv, startv, stv, gv, sj, acc_it);
            let k = choose|k: int|
                0 <= k < gv.len() && (#[trigger] gv[k]).target == sj && advance_set(
                    stv[gv[k].state],
                    gv[k].sym,
                ).contains(acc_it);
            let pred = gv[k].state;
            assert(goto_entry_ok(rv, fmv, stv, gv[k]));
            assert(advances_to(stv[pred], gv[k].sym, acc_it));
            let i2 = choose|i2: int|
                0 <= i2 < stv[pred].len() && (#[trigger] stv[pred][i2]).dot < stv[pred][
                    i2
                ].rule.rhs.len() && stv[pred][i2].rule.rhs[stv[pred][i2].dot as int] == gv[k].sym
                    && acc_it == ItemV {
                    rule: stv[pred][i2].rule,
                    dot: (stv[pred][i2].dot + 1) as nat,
                    la: stv[pred][i2].la,
                };
            let src = stv[pred][i2];
            assert(src.rule == rv[0] && src.dot == 0 && src.la == dollar());
            assert(src == seedv);
            assert(stv[pred].to_set().contains(src)) by {
                assert(stv[pred].contains(src));
            }
            if pred != 0 {
                lemma_state_aug_source(rv, fmv, startv, stv, gv, pred, src);
                assert(false);
            }
            assert(gv[k].sym == src.rule.rhs[0]);
            assert(gv[k].sym == rhs0);
            if k != kx {
                assert(gv[k].state != gv[kx].state || gv[k].sym != gv[kx].sym);
                assert(false);
            }
        }
    }

    // Every Accept cell is justified by a completed augmented item, which
    // must be the accept item in the accept state under `$`.
    assert forall|si: int, x: SymbolV|
        #[trigger] a_has(av, si, x) && a_at(av, si, x) == Action::Acc implies si == t && x
        == dollar() by {
        let kc = a_idx(av, si, x);
        assert(0 <= kc < av.len() && av[kc].state == si && av[kc].sym == x);
        assert(action_entry_ok(rv, startv, stv, gv, av[kc]));
        let ii = choose|ii: int|
            0 <= ii < stv[si].len() && item_action(rv, startv, gv, si, #[trigger] stv[si][ii])
                == Some((x, av[kc].act));
        let itj = stv[si][ii];
        assert(av[kc].act == Action::Acc);
        assert(items_wf(rv, stv[si]));
        assert(item_wf(rv, itj));
        let jw = choose|jw: int| 0 <= jw < rv.len() && (#[trigger] rv[jw]) == itj.rule;
        if itj.dot < itj.rule.rhs.len() {
            assert(false);
        }
        assert(itj.rule.lhs == startv);
        if jw != 0 {
            assert(rv[jw].lhs != startv);
            assert(false);
        }
        assert(itj.dot == 1 && x == itj.la);
        assert(stv[si].to_set().contains(itj)) by {
            assert(stv[si].contains(itj));
        }
        if si == 0 {
            let seedset = seq![seedv].to_set();
            assert forall|y: ItemV| #[trigger] seedset.contains(y) implies item_wf(rv, y) by {
                let i0 = choose|i0: int| 0 <= i0 < seq![seedv].len() && seq![seedv][i0] == y;
                assert(y == seedv);
                assert(rv[0] == y.rule);
            }
            lemma_aug_in_kernel(rv, fmv, startv, seedset, stv[0].to_set(), itj);
            let i0 = choose|i0: int| 0 <= i0 < seq![seedv].len() && seq![seedv][i0] == itj;
            assert(itj == seedv);
            assert(false);
        }
        lemma_state_aug_source(rv, fmv, startv, stv, gv, si, itj);
        let k = choose|k: int|
            0 <= k < gv.len() && (#[trigger] gv[k]).target == si && advance_set(
                stv[gv[k].state],
                gv[k].sym,
            ).contains(itj);
        let pred = gv[k].state;
        assert(goto_entry_ok(rv, fmv, stv, gv[k]));
        assert(advances_to(stv[pred], gv[k].sym, itj));
        let i2 = choose|i2: int|
            0 <= i2 < stv[pred].len() && (#[trigger] stv[pred][i2]).dot < stv[pred][
                i2
            ].rule.rhs.len() && stv[pred][i2].rule.rhs[stv[pred][i2].dot as int] == gv[k].sym
                && itj == ItemV {
                rule: stv[pred][i2].rule,
                dot: (stv[pred][i2].dot + 1) as nat,
                la: stv[pred][i2].la,
            };
        let src = stv[pred][i2];
        assert(src.rule == rv[0] && src.dot == 0);
        assert(stv[pred].to_set().contains(src)) by {
            assert(stv[pred].contains(src));
        }
        if pred != 0 {
            lemma_state_aug_source(rv, fmv, startv, stv, gv, pred, src);
            assert(false);
        }
        // The only dot-0 augmented item of state 0 is the seed, so the
        // justifying item's lookahead is `$`.
        let seedset = seq![seedv].to_set();
        assert forall|y: ItemV| #[trigger] seedset.contains(y) implies item_wf(rv, y) by {
            let i0 = choose|i0: int| 0 <= i0 < seq![seedv].len() && seq![seedv][i0] == y;
            assert(y == seedv);
            assert(rv[0] == y.rule);
        }
        lemma_aug_in_kernel(rv, fmv, startv, seedset, stv[0].to_set(), src);
        let i0 = choose|i0: int| 0 <= i0 < seq![seedv].len() && seq![seedv][i0] == src;
        assert(src == seedv);
        assert(itj.la == dollar());
        assert(itj == acc_it);
        assert(stv[si].to_set().contains(acc_it));
        assert(si == t);
    }

    // The accept cell exists and holds Accept.
    let iacc = choose|ii: int| 0 <= ii < stv[t].len() && stv[t][ii] == acc_it;
    assert(0 <= iacc < stv[t].len() && stv[t][iacc] == acc_it) by {
        assert(stv[t].contains(acc_it));
    }
    assert(item_covered(rv, startv, gv, av, t, stv[t][iacc]));
    assert(item_action(rv, startv, gv, t, acc_it) == Some((dollar(), Action::Acc)));
    assert(a_has(av, t, dollar()));
    let kc = a_idx(av, t, dollar());
    assert(0 <= kc < av.len() && av[kc].state == t && av[kc].sym == dollar());
    assert(action_entry_ok(rv, startv, stv, gv, av[kc]));
    let ii = choose|ii: int|
        0 <= ii < stv[t].len() && item_action(rv, startv, gv, t, #[trigger] stv[t][ii]) == Some(
            (dollar(), av[kc].act),
        );
    let itj = stv[t][ii];
    assert(items_wf(rv, stv[t]));
    assert(item_wf(rv, itj));
    let jw = choose|jw: int| 0 <= jw < rv.len() && (#[trigger] rv[jw]) == itj.rule;
    if itj.dot < itj.rule.rhs.len() {
        assert(itj.rule.rhs[itj.dot as int] == dollar());
        assert(rv[jw].rhs[itj.dot as int] != dollar());
        assert(false);
    }
    assert(itj.la == dollar());
    if itj.rule.lhs != startv {
        assert(false);
    }
    assert(av[kc].act == Action::Acc);
}

} // verus!
