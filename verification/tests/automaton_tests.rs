use slrgen::automata::{Automata, AutomataState, Warning};
use slrgen::closures::{closure, Closure, Item};
use slrgen::grammar::{Grammar, GrammarSymbol, Semantic, Symbol, Token};

fn parse(lines: &[&str]) -> Grammar {
    let owned: Vec<String> = lines.iter().map(|s| s.to_string()).collect();
    let (g, _) = Grammar::new(&owned).expect("grammar parses");
    g
}

fn item_keys(c: &Closure) -> Vec<(usize, usize)> {
    c.ref_iter().iter().map(|it| (it.ruleno, it.position)).collect()
}

fn state_with_keys<'a>(
    a: &'a Automata,
    keys: &[(usize, usize)],
) -> &'a (Closure, AutomataState) {
    a.iter_all()
        .iter()
        .find(|(c, _)| item_keys(c) == keys)
        .expect("state with the given kernel exists")
}

fn shift_of(st: &AutomataState, t: Token) -> Option<usize> {
    st.shift_actions.iter().find(|p| p.0 == t).map(|p| p.1)
}

fn goto_of(st: &AutomataState, s: Symbol) -> Option<usize> {
    st.goto_actions.iter().find(|p| p.0 == s).map(|p| p.1)
}

fn reduce_of(st: &AutomataState, t: Option<Token>) -> Option<usize> {
    st.reduce_actions.iter().find(|p| p.0 == t).map(|p| p.1)
}

#[test]
fn one_rule_grammar_automaton() {
    let g = parse(&["S -> a"]);
    let (a, warnings) = Automata::new(&g);
    assert!(warnings.is_empty());
    assert_eq!(a.iter_all().len(), 2);
    let (_, s0) = state_with_keys(&a, &[(0, 0)]);
    let n = shift_of(s0, Token(0)).expect("shift under a");
    let (_, s1) = &a.iter_all()[n];
    assert_eq!(item_keys(&a.iter_all()[n].0), vec![(0, 1)]);
    assert_eq!(reduce_of(s1, None), Some(0));
    assert!(s1.shift_actions.is_empty());
    assert!(s1.goto_actions.is_empty());
}

#[test]
fn expression_grammar_has_twelve_states_and_no_conflicts() {
    let g = parse(&[
        "E -> E + T",
        "E -> T",
        "T -> T * F",
        "T -> F",
        "F -> ( E )",
        "F -> id",
    ]);
    let (a, warnings) = Automata::new(&g);
    assert_eq!(a.iter_all().len(), 12);
    assert!(warnings.is_empty());
    let lparen = Token(2);
    let id = Token(4);
    let (_, s0) = state_with_keys(&a, &[(0, 0), (1, 0), (2, 0), (3, 0), (4, 0), (5, 0)]);
    assert!(shift_of(s0, lparen).is_some());
    assert!(shift_of(s0, id).is_some());
    // The state whose kernel is { E -> T ., T -> T . * F } reduces by
    // E -> T under +, ) and $, and shifts *.
    let (_, st) = state_with_keys(&a, &[(1, 1), (2, 1)]);
    let plus = Token(0);
    let star = Token(1);
    let rparen = Token(3);
    assert_eq!(reduce_of(st, Some(plus)), Some(1));
    assert_eq!(reduce_of(st, Some(rparen)), Some(1));
    assert_eq!(reduce_of(st, None), Some(1));
    assert_eq!(st.reduce_actions.len(), 3);
    assert!(shift_of(st, star).is_some());
}

#[test]
fn state_numbers_are_canonical() {
    let g = parse(&[
        "E -> E + T",
        "E -> T",
        "T -> T * F",
        "T -> F",
        "F -> ( E )",
        "F -> id",
    ]);
    let (a, _) = Automata::new(&g);
    let states = a.iter_all();
    for (i, (_, st)) in states.iter().enumerate() {
        assert_eq!(st.state, i);
    }
    // Distinct states have distinct ordered item views.
    for i in 0..states.len() {
        for j in (i + 1)..states.len() {
            assert_ne!(item_keys(&states[i].0), item_keys(&states[j].0));
        }
    }
}

#[test]
fn goto_exists_for_every_nonterminal_after_a_dot() {
    let g = parse(&[
        "E -> E + T",
        "E -> T",
        "T -> T * F",
        "T -> F",
        "F -> ( E )",
        "F -> id",
    ]);
    let (a, _) = Automata::new(&g);
    for (c, st) in a.iter_all() {
        for it in c.ref_iter() {
            if let Some(GrammarSymbol::Symbol(s)) = it.next_gram_sym() {
                assert!(goto_of(st, s).is_some());
            }
        }
    }
}

#[test]
fn reduce_entries_confined_to_follow() {
    let g = parse(&[
        "E -> E + T",
        "E -> T",
        "T -> T * F",
        "T -> F",
        "F -> ( E )",
        "F -> id",
    ]);
    let (a, _) = Automata::new(&g);
    for (_, st) in a.iter_all() {
        for (t, r) in &st.reduce_actions {
            let lhs = g.rules[*r].symbol;
            assert!(g.follow(lhs).contains(*t));
        }
    }
}

#[test]
fn dangling_else_shift_wins_with_diagnostic() {
    let g = parse(&["S -> i S e S", "S -> i S", "S -> a"]);
    let (a, warnings) = Automata::new(&g);
    let e = Token(1);
    assert_eq!(g.get_token(e), "e");
    // Kernel { S -> i S . e S, S -> i S . }.
    let (_, st) = state_with_keys(&a, &[(0, 2), (1, 2)]);
    // The reduce entry under e stands beside the shift entry: shift wins in
    // the emitted action table.
    assert_eq!(reduce_of(st, Some(e)), Some(1));
    let n = shift_of(st, e).expect("shift under e");
    assert!(warnings.contains(&Warning::ShiftReduce {
        rule: 1,
        token: e,
        state: st.state,
    }));
    assert!(n < a.iter_all().len());
}

#[test]
fn reduce_reduce_keeps_earlier_rule_and_warns() {
    // Rule 0 is the start nonterminal's sole entry; S branches below it.
    let g = parse(&["Z -> S", "S -> A", "S -> B", "A -> a", "B -> a"]);
    let (a, warnings) = Automata::new(&g);
    // Kernel { A -> a ., B -> a . }.
    let (_, st) = state_with_keys(&a, &[(3, 1), (4, 1)]);
    // Both FOLLOW sets hold $; the earlier rule (3) stays in the table.
    assert_eq!(reduce_of(st, None), Some(3));
    assert!(warnings.contains(&Warning::ReduceReduce {
        kept: 3,
        dropped: 4,
        state: st.state,
    }));
}

#[test]
fn inline_semantics_propagate_to_states() {
    let g = parse(&["S -> {act1} a {act2} b"]);
    let (a, warnings) = Automata::new(&g);
    assert!(warnings.is_empty());
    let (_, s0) = state_with_keys(&a, &[(0, 0)]);
    assert_eq!(s0.state, 0);
    assert_eq!(a.state_semantics[0], Some(Semantic(0)));
    let n = shift_of(s0, Token(0)).expect("shift under a");
    assert_eq!(a.state_semantics[n], Some(Semantic(1)));
    let pairs = a.iter_state_sem();
    assert!(pairs.contains(&(0, Semantic(0))));
    assert!(pairs.contains(&(n, Semantic(1))));
    assert_eq!(pairs.len(), 2);
}

#[test]
fn duplicate_state_semantics_warn_with_both_names() {
    // Rule 0 is the start nonterminal's sole entry; the closure of state 0
    // then holds both marked items at position 0.
    let g = parse(&["Z -> S", "S -> {x} a", "S -> {y} a"]);
    let (a, warnings) = Automata::new(&g);
    assert!(warnings.iter().any(|w| matches!(
        w,
        Warning::DuplicateStateSem { state: 0, first: Semantic(0), second: Semantic(1) }
    )));
    // The later item's marker is the one left behind.
    assert_eq!(a.state_semantics[0], Some(Semantic(1)));
}

#[test]
fn semantic_after_nonterminal_warns() {
    let g = parse(&["S -> A {act} b", "A -> a"]);
    let (_, warnings) = Automata::new(&g);
    assert!(warnings.iter().any(|w| matches!(
        w,
        Warning::SemanticAfterNonterminal { sem: Semantic(0), prev: Symbol(1), .. }
    )));
}

#[test]
fn reduce_semantics_dispatch_table() {
    let g = parse(&["S -> a R{red}", "S -> b"]);
    let (a, _) = Automata::new(&g);
    assert_eq!(a.reduce_semantics.len(), 2);
    assert_eq!(a.reduce_semantics[0], Some(Semantic(0)));
    assert_eq!(a.reduce_semantics[1], None);
    assert_eq!(a.iter_reduce_sem(), vec![(0, Semantic(0))]);
}

#[test]
fn closure_is_idempotent() {
    let g = parse(&["E -> E + T", "E -> T", "T -> a"]);
    let mut base = Closure::new();
    base.add(Item::new(g.rules[0].clone(), 0));
    let once = closure(base, &g);
    let copy = once.clone();
    let twice = closure(copy, &g);
    assert_eq!(item_keys(&once), item_keys(&twice));
    assert_eq!(once, twice);
}

#[test]
fn closure_predicts_all_rules_of_reached_nonterminals() {
    let g = parse(&[
        "E -> E + T",
        "E -> T",
        "T -> T * F",
        "T -> F",
        "F -> ( E )",
        "F -> id",
    ]);
    let mut base = Closure::new();
    base.add(Item::new(g.rules[0].clone(), 0));
    let c = closure(base, &g);
    // Every rule's dot-at-left item is predicted from E.
    assert_eq!(
        item_keys(&c),
        vec![(0, 0), (1, 0), (2, 0), (3, 0), (4, 0), (5, 0)]
    );
}

#[test]
fn items_report_their_surroundings() {
    let g = parse(&["S -> a B", "B -> b"]);
    let it = Item::new(g.rules[0].clone(), 0);
    assert_eq!(it.next_gram_sym(), Some(GrammarSymbol::Token(Token(0))));
    assert_eq!(it.current_gram_sym(), None);
    let it2 = it.advance();
    assert_eq!(it2.position, 1);
    assert_eq!(it2.next_gram_sym(), Some(GrammarSymbol::Symbol(Symbol(1))));
    assert_eq!(it2.current_gram_sym(), Some(GrammarSymbol::Token(Token(0))));
    let it3 = it2.advance();
    assert_eq!(it3.next_gram_sym(), None);
    assert_eq!(it3.advance().position, 2);
}

#[test]
fn closure_add_deduplicates_and_sorts() {
    let g = parse(&["S -> a", "S -> b"]);
    let mut c = Closure::new();
    assert!(c.add(Item::new(g.rules[1].clone(), 1)));
    assert!(c.add(Item::new(g.rules[0].clone(), 0)));
    assert!(!c.add(Item::new(g.rules[0].clone(), 0)));
    assert_eq!(c.len(), 2);
    assert_eq!(item_keys(&c), vec![(0, 0), (1, 0)]);
}
