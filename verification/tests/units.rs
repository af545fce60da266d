use chomchom::grammar::{capitalize_first_letter, num_to_alphastr, GrammarChomsky, GrammarError, NT};
use chomchom::parser_generator::{get_parser, Token as InputToken};
use chomchom::parser::parse;
use chomchom::parser_generator::print_arrow;
use chomchom::tokeniser::{tokenize, Token};

#[test]
fn fresh_names_are_bijective_base26() {
    assert_eq!(num_to_alphastr(0), "_A");
    assert_eq!(num_to_alphastr(1), "_B");
    assert_eq!(num_to_alphastr(25), "_Z");
    assert_eq!(num_to_alphastr(26), "_AA");
    assert_eq!(num_to_alphastr(27), "_AB");
    assert_eq!(num_to_alphastr(51), "_AZ");
    assert_eq!(num_to_alphastr(52), "_BA");
}

#[test]
fn fresh_names_distinct() {
    let mut seen = Vec::new();
    for i in 0..200u32 {
        let n = num_to_alphastr(i);
        assert!(!seen.contains(&n), "fresh name {} repeated", n);
        seen.push(n);
    }
}

#[test]
fn capitalisation() {
    assert_eq!(capitalize_first_letter("expr"), "Expr");
    assert_eq!(capitalize_first_letter("Expr"), "Expr");
    assert_eq!(capitalize_first_letter("_aux"), "_aux");
    assert_eq!(capitalize_first_letter(""), "");
    assert_eq!(capitalize_first_letter("x9_y"), "X9_y");
}

#[test]
fn tokenise_simple_grammar() {
    let ts = tokenize("S = \"a\" | x9 ;").unwrap();
    assert_eq!(ts.len(), 6);
    assert!(matches!(&ts[0], Token::Nonterminal(n) if n == "S"));
    assert!(matches!(&ts[1], Token::Equal));
    assert!(matches!(&ts[2], Token::Terminal(t) if t == "a"));
    assert!(matches!(&ts[3], Token::Or));
    assert!(matches!(&ts[4], Token::Nonterminal(n) if n == "x9"));
    assert!(matches!(&ts[5], Token::Semicolon));
}

#[test]
fn tokenise_all_punctuation() {
    let ts = tokenize("( ) [ ] { } * + = ; | \u{03b5}").unwrap();
    assert_eq!(ts.len(), 12);
    assert!(matches!(ts[0], Token::LParen));
    assert!(matches!(ts[1], Token::RParen));
    assert!(matches!(ts[2], Token::LBracket));
    assert!(matches!(ts[3], Token::RBracket));
    assert!(matches!(ts[4], Token::LBrace));
    assert!(matches!(ts[5], Token::RBrace));
    assert!(matches!(ts[6], Token::Asterix));
    assert!(matches!(ts[7], Token::Plus));
    assert!(matches!(ts[8], Token::Equal));
    assert!(matches!(ts[9], Token::Semicolon));
    assert!(matches!(ts[10], Token::Or));
    assert!(matches!(ts[11], Token::Epsilon));
}

#[test]
fn tokenise_rejects_unterminated_literal() {
    assert!(tokenize("S = \"abc").is_err());
}

#[test]
fn tokenise_rejects_unknown_character() {
    assert!(tokenize("S = %").is_err());
}

#[test]
fn tokenise_rejects_digit_initial_word() {
    // a nonterminal lexeme begins with a letter or an underscore
    assert!(tokenize("9abc = \"a\" ;").is_err());
    assert!(tokenize("S = 9x ;").is_err());
}

#[test]
fn tokenise_empty_literal() {
    let ts = tokenize("\"\"").unwrap();
    assert_eq!(ts.len(), 1);
    assert!(matches!(&ts[0], Token::Terminal(t) if t.is_empty()));
}

#[test]
fn parse_rejects_empty_grammar() {
    assert!(parse(Vec::new()).is_err());
}

#[test]
fn parse_rejects_missing_semicolon() {
    let ts = tokenize("S = \"a\"").unwrap();
    assert!(parse(ts).is_err());
}

#[test]
fn parse_rejects_unbalanced_group() {
    let ts = tokenize("S = ( \"a\" ;").unwrap();
    assert!(parse(ts).is_err());
}

#[test]
fn parse_start_is_first_rule() {
    let g = parse(tokenize("A = \"a\" ; B = \"b\" ;").unwrap()).unwrap();
    assert_eq!(g.start_nonterm, "A");
    assert_eq!(g.rules.len(), 2);
}

#[test]
fn parse_groups_alternatives_of_one_rule() {
    let g = parse(tokenize("A = \"a\" ; A = \"b\" ;").unwrap()).unwrap();
    assert_eq!(g.rules.len(), 1);
    assert_eq!(g.rules[0].1.len(), 2);
}

#[test]
fn pretty_print_one_rule() {
    let g = parse(tokenize("S = \"a\" ;").unwrap()).unwrap();
    assert_eq!(g.to_ebnf(), "\nS = \"a\" ;");
}

#[test]
fn pretty_print_operators() {
    let g = parse(tokenize("S = [ \"a\" ] { \"b\" } ( \"c\" | \"d\" ) \"e\" * \"f\" + ;").unwrap())
        .unwrap();
    let printed = g.to_ebnf();
    assert!(printed.contains("[ \"a\" ]"));
    assert!(printed.contains("{ \"b\" }"));
    assert!(printed.contains("( \"c\" | \"d\" )"));
    assert!(printed.contains("{ \"e\" }"));
    assert!(printed.contains("( \"f\" ) +"));
}

#[test]
fn normalisation_shapes() {
    let g = parse(tokenize("S = \"a\" [ \"b\" ] ;").unwrap()).unwrap();
    let c = g.to_chomsky().unwrap();
    // S -> "a" _A, plus _A -> "b" and _A -> epsilon
    assert_eq!(c.start_nonterm, "S");
    assert_eq!(c.rules.len(), 3);
    let s_rules: Vec<_> = c.rules.iter().filter(|(l, _)| l == "S").collect();
    assert_eq!(s_rules.len(), 1);
    assert_eq!(s_rules[0].1.len(), 2);
    assert!(matches!(&s_rules[0].1[0], NT::Term(t) if t == "a"));
    let aux = match &s_rules[0].1[1] {
        NT::Non(n) => n.clone(),
        _ => panic!("second symbol must be the auxiliary nonterminal"),
    };
    assert!(aux.starts_with('_'));
    let aux_rules: Vec<_> = c.rules.iter().filter(|(l, _)| l == &aux).collect();
    assert_eq!(aux_rules.len(), 2);
    assert!(c.nonterminals.contains(&"S".to_string()));
    assert!(c.nonterminals.contains(&aux));
}

#[test]
fn closedness_check_via_from_rules() {
    let rules = vec![("S".to_string(), vec![NT::Non("T".to_string())])];
    assert!(GrammarChomsky::from_rules("S".to_string(), rules).is_err());
    let rules2 = vec![
        ("S".to_string(), vec![NT::Non("T".to_string())]),
        ("T".to_string(), vec![NT::Term("t".to_string())]),
    ];
    let g = GrammarChomsky::from_rules("S".to_string(), rules2).unwrap();
    assert_eq!(g.nonterminals.len(), 2);
}

#[test]
fn reserved_rule_names_rejected() {
    let g = parse(tokenize("_A = \"x\" ;").unwrap()).unwrap();
    match g.to_chomsky() {
        Err(GrammarError::ReservedName(n)) => assert_eq!(n, "_A"),
        _ => panic!("a user rule named with a leading underscore must be rejected"),
    }
    let g2 = parse(tokenize("S = \"a\" ; _B = \"b\" ;").unwrap()).unwrap();
    assert!(matches!(g2.to_chomsky(), Err(GrammarError::ReservedName(_))));
}

#[test]
fn parse_pretokenized_input() {
    let g = parse(tokenize("S = \"a\" \"b\" ;").unwrap()).unwrap();
    let p = get_parser(g.to_chomsky().unwrap()).unwrap();
    let toks = vec![
        InputToken { text: "a".to_string(), is_end: false, line: 0, column: 0, str_pos: 0 },
        InputToken { text: "b".to_string(), is_end: false, line: 0, column: 1, str_pos: 1 },
    ];
    assert!(p.parse_tokens(toks, 0, 2, 2).is_ok());
    let short = vec![
        InputToken { text: "a".to_string(), is_end: false, line: 0, column: 0, str_pos: 0 },
    ];
    assert!(p.parse_tokens(short, 0, 1, 1).is_err());
}

#[test]
fn checked_normalisation() {
    let g = parse(tokenize("S = \"a\" [ \"b\" ] ;").unwrap()).unwrap();
    match g.try_to_chomsky() {
        Some(Ok(c)) => assert_eq!(c.rules.len(), 3),
        _ => panic!("a small grammar must normalise"),
    }
}

#[test]
fn terminal_alphabet() {
    let g = parse(tokenize("S = \"a\" \"b\" | \"a\" T ; T = \"c\" ;").unwrap()).unwrap();
    let c = g.to_chomsky().unwrap();
    let mut ts = c.terminals();
    ts.sort();
    assert_eq!(ts, vec!["a", "b", "c"]);
}

#[test]
fn caret_line() {
    assert_eq!(print_arrow(2, 3), "  ^^^");
    assert_eq!(print_arrow(0, 0), "^");
}
