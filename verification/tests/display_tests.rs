use slrgen::closures::Item;
use slrgen::config::{
    format_token, format_token_maybe, Config, PrintOption, SemanticTemplateSource,
    SemanticsConfig, SingleOrMultiLineString, TemplateSource,
};
use slrgen::context::{ReduceContext, SemBodyContext, SemContext, SemStateCaseContext, ShiftContext};
use slrgen::grammar::{Grammar, Semantic, Symbol, Token};

fn parse(lines: &[&str]) -> Grammar {
    let owned: Vec<String> = lines.iter().map(|s| s.to_string()).collect();
    let (g, _) = Grammar::new(&owned).expect("grammar parses");
    g
}

#[test]
fn item_renders_with_dot() {
    let g = parse(&["S -> a B", "B -> b"]);
    let it = Item::new(g.rules[0].clone(), 0);
    assert_eq!(it.to_string(&g), "S -> · a B ");
    let it1 = it.advance();
    assert_eq!(it1.to_string(&g), "S -> a · B ");
    let it2 = it1.advance();
    assert_eq!(it2.to_string(&g), "S -> a B · ");
}

#[test]
fn single_or_multiline_joins_with_newlines() {
    let single = SingleOrMultiLineString::Single("one".to_string());
    assert_eq!(single.to_string(), "one");
    let multi = SingleOrMultiLineString::Multiline(vec![
        "a".to_string(),
        "b".to_string(),
        "c".to_string(),
    ]);
    assert_eq!(multi.to_string(), "a\nb\nc");
    let empty = SingleOrMultiLineString::Multiline(Vec::new());
    assert_eq!(empty.to_string(), "");
}

#[test]
fn token_formatting_uses_replacements() {
    let g = parse(&["S -> plus"]);
    let map = vec![("plus".to_string(), "PLUS".to_string())];
    let (text, replaced) = format_token(Token(0), &g, &map);
    assert!(replaced);
    assert_eq!(text, "PLUS");
    let (text2, replaced2) = format_token(Token(0), &g, &Vec::new());
    assert!(!replaced2);
    assert_eq!(text2, "plus");
}

#[test]
fn end_marker_formats_as_dollar() {
    let g = parse(&["S -> a"]);
    let map = vec![("$".to_string(), "EOF".to_string())];
    let (text, replaced) = format_token_maybe(None, &g, &map);
    assert!(replaced);
    assert_eq!(text, "EOF");
    let (text2, replaced2) = format_token_maybe(None, &g, &Vec::new());
    assert!(!replaced2);
    assert_eq!(text2, "$");
    let (text3, _) = format_token_maybe(Some(Token(0)), &g, &Vec::new());
    assert_eq!(text3, "a");
}

#[test]
fn config_carries_its_pieces() {
    let cfg = Config {
        grammar: "grammar.txt".to_string(),
        reduce_template: TemplateSource::Inline("r {ruleno}".to_string()),
        shift_template: TemplateSource::Inline("s {state}".to_string()),
        goto_template: TemplateSource::File { file: "goto.tpl".to_string() },
        token_replace: vec![("a".to_string(), "TOK_A".to_string())],
        semantics: SemanticsConfig {
            reduce_template: SemanticTemplateSource::Line {
                line: TemplateSource::Inline("case {ruleno}: {semantic_body}".to_string()),
            },
            state_template: SemanticTemplateSource::Switch {
                case: TemplateSource::Inline("case {state}:".to_string()),
                body: TemplateSource::Inline("{semantic_body}".to_string()),
            },
            replacements: vec![(
                "act".to_string(),
                SingleOrMultiLineString::Single("do_act();".to_string()),
            )],
        },
        results: vec![("out.c".to_string(), vec![PrintOption::Shift, PrintOption::Dot])],
    };
    assert_eq!(cfg.results[0].1.len(), 2);
    assert_eq!(cfg.clone(), cfg);
}

#[test]
fn contexts_hold_their_fields() {
    let shift = ShiftContext { state: 1, token: "a".to_string(), next: 2 };
    assert_eq!(shift.next, 2);
    let red = ReduceContext {
        state: 3,
        token: "$".to_string(),
        elements: 2,
        ruleno: 0,
        symbol_no: Symbol(0),
        symbol_not_replaced: "S".to_string(),
    };
    assert_eq!(red.elements, 2);
    let sem = SemContext {
        case: SemStateCaseContext { state: 4 },
        body: SemBodyContext {
            semantic: Semantic(0),
            semantic_name: "act".to_string(),
            semantic_body: "do();".to_string(),
        },
    };
    assert_eq!(sem.case.state, 4);
    assert_eq!(sem.body.semantic, Semantic(0));
}
