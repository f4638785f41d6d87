use slrgen::grammar::{Grammar, GrammarError, GrammarSymbol, Symbol, Token};

fn parse(lines: &[&str]) -> Grammar {
    let owned: Vec<String> = lines.iter().map(|s| s.to_string()).collect();
    let (g, _) = Grammar::new(&owned).expect("grammar parses");
    g
}

#[test]
fn one_rule_grammar_tables() {
    let g = parse(&["S -> a"]);
    assert_eq!(g.rules.len(), 1);
    assert_eq!(g.symbols.len(), 1);
    assert_eq!(g.tokens.len(), 1);
    assert_eq!(g.get_symbol(Symbol(0)), "S");
    assert_eq!(g.get_token(Token(0)), "a");
    assert_eq!(g.rules[0].symbol, Symbol(0));
    assert_eq!(g.rules[0].tokens, vec![GrammarSymbol::Token(Token(0))]);
}

#[test]
fn follow_of_start_holds_end_marker() {
    let g = parse(&["S -> a"]);
    let fol = g.follow(Symbol(0));
    assert!(fol.contains(None));
    assert_eq!(fol.len(), 1);
}

#[test]
fn missing_arrow_line_is_skipped_and_reported() {
    let owned: Vec<String> = vec!["junk line".to_string(), "S -> a".to_string()];
    let (g, skipped) = Grammar::new(&owned).expect("grammar parses");
    assert_eq!(skipped, vec![0]);
    assert_eq!(g.rules.len(), 1);
}

#[test]
fn blank_lines_are_dropped_silently() {
    let owned: Vec<String> = vec!["".to_string(), "S -> a".to_string(), "".to_string()];
    let (g, skipped) = Grammar::new(&owned).expect("grammar parses");
    assert!(skipped.is_empty());
    assert_eq!(g.rules.len(), 1);
}

#[test]
fn empty_source_is_fatal() {
    let owned: Vec<String> = Vec::new();
    assert_eq!(Grammar::new(&owned).unwrap_err(), GrammarError::EmptyGrammar);
    let owned = vec!["no rule here".to_string()];
    assert_eq!(Grammar::new(&owned).unwrap_err(), GrammarError::EmptyGrammar);
}

#[test]
fn adjacent_markers_are_fatal() {
    let owned = vec!["S -> {x} {y} a".to_string()];
    assert_eq!(
        Grammar::new(&owned).unwrap_err(),
        GrammarError::AdjacentSemantics
    );
}

#[test]
fn marker_after_reduce_marker_is_still_adjacent() {
    let owned = vec!["S -> {x} R{z} {y} a".to_string()];
    assert_eq!(
        Grammar::new(&owned).unwrap_err(),
        GrammarError::AdjacentSemantics
    );
}

#[test]
fn rhs_classifies_symbols_and_tokens() {
    let g = parse(&["E -> E + T", "T -> a"]);
    assert_eq!(g.symbols.len(), 2);
    assert_eq!(
        g.rules[0].tokens,
        vec![
            GrammarSymbol::Symbol(Symbol(0)),
            GrammarSymbol::Token(Token(0)),
            GrammarSymbol::Symbol(Symbol(1)),
        ]
    );
    assert_eq!(g.get_token(Token(0)), "+");
}

#[test]
fn inline_and_reduce_markers_are_recorded() {
    let g = parse(&["S -> {act1} a {act2} b R{red}"]);
    let r = &g.rules[0];
    assert_eq!(r.tokens.len(), 2);
    assert_eq!(r.semantics.len(), 2);
    assert_eq!(r.semantics[0], Some(slrgen::grammar::Semantic(0)));
    assert_eq!(r.semantics[1], Some(slrgen::grammar::Semantic(1)));
    assert_eq!(r.reduce_sem, Some(slrgen::grammar::Semantic(2)));
    assert_eq!(g.get_semantic(slrgen::grammar::Semantic(0)), "act1");
    assert_eq!(g.get_semantic(slrgen::grammar::Semantic(2)), "red");
}

#[test]
fn marker_at_end_of_rhs_is_kept() {
    let g = parse(&["S -> a {fin}"]);
    let r = &g.rules[0];
    assert_eq!(r.tokens.len(), 1);
    assert_eq!(r.semantics.len(), 2);
    assert_eq!(r.semantics[0], None);
    assert_eq!(r.semantics[1], Some(slrgen::grammar::Semantic(0)));
}

#[test]
fn first_of_expression_grammar() {
    // FIRST(E) = FIRST(T) = FIRST(F) = { (, id } for the classic grammar.
    let g = parse(&[
        "E -> E + T",
        "E -> T",
        "T -> T * F",
        "T -> F",
        "F -> ( E )",
        "F -> id",
    ]);
    let lparen = Token(2);
    let id = Token(4);
    assert_eq!(g.get_token(lparen), "(");
    assert_eq!(g.get_token(id), "id");
    for sym in 0..3 {
        let f = g.first(&[GrammarSymbol::Symbol(Symbol(sym))]);
        assert!(f.contains(Some(lparen)));
        assert!(f.contains(Some(id)));
        assert!(!f.contains(None));
        assert_eq!(f.len(), 2);
    }
}

#[test]
fn follow_sets_of_expression_grammar() {
    let g = parse(&[
        "E -> E + T",
        "E -> T",
        "T -> T * F",
        "T -> F",
        "F -> ( E )",
        "F -> id",
    ]);
    let plus = Token(0);
    let star = Token(1);
    let rparen = Token(3);
    // FOLLOW(E) = { $, +, ) }
    let fe = g.follow(Symbol(0));
    assert!(fe.contains(None));
    assert!(fe.contains(Some(plus)));
    assert!(fe.contains(Some(rparen)));
    assert_eq!(fe.len(), 3);
    // FOLLOW(T) = { $, +, *, ) }
    let ft = g.follow(Symbol(1));
    assert!(ft.contains(None));
    assert!(ft.contains(Some(plus)));
    assert!(ft.contains(Some(star)));
    assert!(ft.contains(Some(rparen)));
    assert_eq!(ft.len(), 4);
}

#[test]
fn first_skips_nullable_heads_never_arises_without_empty_rules() {
    // With no empty productions, FIRST of a nonempty form never contains
    // the empty-word marker.
    let g = parse(&["S -> A b", "A -> a"]);
    // Tokens intern in right-hand-side order: b is 0, a is 1.
    let f = g.first(&[GrammarSymbol::Symbol(Symbol(1)), GrammarSymbol::Token(Token(0))]);
    assert!(f.contains(Some(Token(1))));
    assert!(!f.contains(None));
    assert_eq!(f.len(), 1);
}

#[test]
fn first_of_empty_form_is_epsilon() {
    let g = parse(&["S -> a"]);
    let f = g.first(&[]);
    assert!(f.contains(None));
    assert_eq!(f.len(), 1);
}

#[test]
fn empty_production_makes_first_nullable() {
    // A has an empty right-hand side, so FIRST(A) contains the empty word
    // and FIRST(A b) pulls in b.
    let g = parse(&["S -> A b", "A ->", "A -> a"]);
    // Tokens intern in right-hand-side order: b is 0, a is 1.
    let fa = g.first(&[GrammarSymbol::Symbol(Symbol(1))]);
    assert!(fa.contains(None));
    assert!(fa.contains(Some(Token(1))));
    let fab = g.first(&[
        GrammarSymbol::Symbol(Symbol(1)),
        GrammarSymbol::Token(Token(0)),
    ]);
    assert!(!fab.contains(None));
    assert!(fab.contains(Some(Token(0))));
    assert!(fab.contains(Some(Token(1))));
}

#[test]
fn lhs_names_are_trimmed() {
    let g = parse(&["  S\t -> a"]);
    assert_eq!(g.get_symbol(Symbol(0)), "S");
}

#[test]
fn later_defined_nonterminal_is_recognized_on_earlier_rhs() {
    // Both passes: B is interned as a nonterminal before right-hand sides
    // are read, so the first rule's B resolves as a nonterminal.
    let g = parse(&["A -> B", "B -> x"]);
    assert_eq!(g.rules[0].tokens, vec![GrammarSymbol::Symbol(Symbol(1))]);
    assert_eq!(g.tokens.len(), 1);
}

#[test]
fn unclosed_marker_is_a_plain_token() {
    let g = parse(&["S -> R{x a"]);
    assert_eq!(g.semantics.len(), 0);
    assert_eq!(g.tokens.len(), 2);
    assert_eq!(g.get_token(Token(0)), "R{x");
}

#[test]
fn arrow_on_the_right_hand_side_is_a_token() {
    let g = parse(&["S -> a -> b"]);
    assert_eq!(g.rules[0].tokens.len(), 3);
    assert_eq!(g.get_token(Token(1)), "->");
}

#[test]
fn intern_returns_existing_index() {
    let mut arr: Vec<String> = Vec::new();
    assert_eq!(slrgen::grammar::add_or_get(&mut arr, "x"), 0);
    assert_eq!(slrgen::grammar::add_or_get(&mut arr, "y"), 1);
    assert_eq!(slrgen::grammar::add_or_get(&mut arr, "x"), 0);
    assert_eq!(arr.len(), 2);
}
