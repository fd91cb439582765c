use lr1_parser::parser::{Action, GrammarError, Item, Parser};
use lr1_parser::rule::Symbol;

fn nt(name: &str) -> Symbol {
    Symbol::Nonterminal(name.to_string())
}

fn term(name: &str) -> Symbol {
    Symbol::Terminal(name.to_string())
}

fn arith() -> Parser {
    let mut p = Parser::new("E'");
    p.add_rule("E'", "E");
    p.add_rule("E", "E+T");
    p.add_rule("E", "E-T");
    p.add_rule("E", "T");
    p.add_rule("T", "T*F");
    p.add_rule("T", "T/F");
    p.add_rule("T", "F");
    p.add_rule("F", "(E)");
    p.add_rule("F", "num");
    p
}

fn first_names(p: &Parser, name: &str) -> Vec<String> {
    let mut v: Vec<String> = p
        .first_terminals(&nt(name))
        .expect("nonterminal should be in the FIRST map")
        .iter()
        .map(|s| s.to_string())
        .collect();
    v.sort();
    v
}

const TERMINALS: [&str; 8] = ["+", "-", "*", "/", "(", ")", "num", "$"];

#[test]
fn arithmetic_first_sets() {
    let mut p = arith();
    assert_eq!(p.build(), Ok(()));
    let expected = vec!["(".to_string(), "num".to_string()];
    assert_eq!(first_names(&p, "E"), expected);
    assert_eq!(first_names(&p, "T"), expected);
    assert_eq!(first_names(&p, "F"), expected);
    assert_eq!(first_names(&p, "E'"), expected);
}

#[test]
fn arithmetic_states_and_kernel() {
    let mut p = arith();
    assert_eq!(p.build(), Ok(()));
    let n = p.state_count();
    assert!(n > 1);
    // Fewer states than the naive total number of items over all states.
    let mut total_items = 0;
    for i in 0..n {
        total_items += p.state_items(i).unwrap().len();
    }
    assert!(n < total_items);
    // State 0 holds the kernel item (rule 0, dot 0, "$").
    let rule0 = p.rule_at(0).unwrap().clone();
    let kernel = Item(rule0, 0, term("$"));
    assert!(p.state_items(0).unwrap().contains(&kernel));
    // ... and items derived by closure, e.g. (F -> . num, lookahead "*").
    let rule_f_num = p.rule_at(8).unwrap().clone();
    let derived = Item(rule_f_num, 0, term("*"));
    assert!(p.state_items(0).unwrap().contains(&derived));
}

#[test]
fn arithmetic_shift_matches_goto() {
    let mut p = arith();
    assert_eq!(p.build(), Ok(()));
    let j = p
        .lookup_goto(0, &term("num"))
        .expect("state 0 must have an edge over num");
    assert_eq!(p.lookup_action(0, &term("num")), Some(Action::Shift(j)));
}

#[test]
fn arithmetic_accept_unique_and_located() {
    let mut p = arith();
    assert_eq!(p.build(), Ok(()));
    let mut accepts = Vec::new();
    for i in 0..p.state_count() {
        for t in TERMINALS {
            if p.lookup_action(i, &term(t)) == Some(Action::Acc) {
                accepts.push((i, t));
            }
        }
    }
    // Exactly one Accept cell, in the state reached from state 0 over E,
    // under the end-of-input column.
    let after_e = p.lookup_goto(0, &nt("E")).unwrap();
    assert_eq!(accepts, vec![(after_e, "$")]);
}

#[test]
fn goto_total_for_shift_items() {
    let mut p = arith();
    assert_eq!(p.build(), Ok(()));
    for i in 0..p.state_count() {
        for item in p.state_items(i).unwrap() {
            if let Some(sym) = item.0.rhs.get(item.1) {
                assert!(
                    p.lookup_goto(i, sym).is_some(),
                    "state {} lacks an edge for a dot symbol",
                    i
                );
            }
        }
    }
}

#[test]
fn building_twice_is_deterministic() {
    let mut a = arith();
    let mut b = arith();
    assert_eq!(a.build(), Ok(()));
    assert_eq!(b.build(), Ok(()));
    assert_eq!(a.state_count(), b.state_count());
    assert_eq!(a.goto_count(), b.goto_count());
    for i in 0..a.state_count() {
        assert_eq!(a.state_items(i).unwrap(), b.state_items(i).unwrap());
        for t in TERMINALS {
            assert_eq!(a.lookup_action(i, &term(t)), b.lookup_action(i, &term(t)));
            assert_eq!(a.lookup_goto(i, &term(t)), b.lookup_goto(i, &term(t)));
        }
        for s in ["E'", "E", "T", "F"] {
            assert_eq!(a.lookup_goto(i, &nt(s)), b.lookup_goto(i, &nt(s)));
        }
    }
    for s in ["E'", "E", "T", "F"] {
        assert_eq!(first_names(&a, s), first_names(&b, s));
    }
}

#[test]
fn ambiguous_grammar_builds_with_single_actions() {
    // S -> S + S is ambiguous: construction must not fail, and each cell
    // holds a single action (last write wins), never a list.
    let mut p = Parser::new("S'");
    p.add_rule("S'", "S");
    p.add_rule("S", "S+S");
    p.add_rule("S", "num");
    assert_eq!(p.build(), Ok(()));
    let mut any_cell = false;
    for i in 0..p.state_count() {
        for t in TERMINALS {
            if p.lookup_action(i, &term(t)).is_some() {
                any_cell = true;
            }
        }
    }
    assert!(any_cell);
}

#[test]
fn empty_grammar_is_malformed() {
    let mut p = Parser::new("E'");
    assert_eq!(p.build(), Err(GrammarError::MalformedGrammar));
}

#[test]
fn empty_rhs_is_malformed() {
    let mut p = Parser::new("E'");
    p.add_rule("E'", "E");
    p.add_rule("E", "");
    assert_eq!(p.build(), Err(GrammarError::MalformedGrammar));
}

#[test]
fn undefined_nonterminal_is_unresolved() {
    let mut p = Parser::new("E'");
    p.add_rule("E'", "E");
    p.add_rule("E", "A+num");
    assert_eq!(p.build(), Err(GrammarError::UnresolvedLookahead));
}

#[test]
fn rule_text_tokenization() {
    let mut p = Parser::new("E'");
    p.add_rule("E'", "E");
    // Unrecognized characters are silently skipped.
    p.add_rule("E", "E xx+ T");
    p.add_rule("T", "num");
    let r = p.rule_at(1).unwrap();
    assert_eq!(r.lhs, nt("E"));
    assert_eq!(r.rhs, vec![nt("E"), term("+"), nt("T")]);
}

#[test]
fn rule_text_primes_and_num() {
    let mut p = Parser::new("X");
    p.add_rule("X", "E'*num(");
    let r = p.rule_at(0).unwrap();
    assert_eq!(r.lhs, nt("X"));
    assert_eq!(r.rhs, vec![nt("E'"), term("*"), term("num"), term("(")]);
}

#[test]
fn symbol_to_string_returns_bare_name() {
    assert_eq!(nt("E'").to_string(), "E'");
    assert_eq!(term("num").to_string(), "num");
}

#[test]
fn rule_new_starts_empty() {
    let r = lr1_parser::rule::Rule::new(nt("E"));
    assert_eq!(r.lhs, nt("E"));
    assert!(r.rhs.is_empty());
}

#[test]
fn lookup_out_of_range() {
    let mut p = arith();
    assert_eq!(p.build(), Ok(()));
    assert!(p.rule_at(99).is_none());
    assert!(p.state_items(9999).is_none());
    assert_eq!(p.lookup_action(0, &term(")")), None);
}
