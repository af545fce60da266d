use chomchom::grammar::GrammarError;
use chomchom::parser::parse;
use chomchom::parser_generator::{get_parser, Parser, ParseError, AST};
use chomchom::tokeniser::tokenize;

fn make_parser(src: &str) -> Parser {
    let toks = tokenize(src).expect("tokenize failed");
    let g = parse(toks).expect("parse failed");
    let gc = g.to_chomsky().expect("normalisation failed");
    get_parser(gc).expect("parser generation failed")
}

fn leaves(ast: &AST, out: &mut Vec<String>) {
    match ast {
        AST::Node { children, .. } => {
            for c in children {
                leaves(c, out);
            }
        },
        AST::Token(t) => out.push(t.text.clone()),
    }
}

fn node_names(ast: &AST, out: &mut Vec<String>) {
    match ast {
        AST::Node { name, children } => {
            out.push(name.clone());
            for c in children {
                node_names(c, out);
            }
        },
        AST::Token(_) => {},
    }
}

#[test]
fn arithmetic_classic() {
    let p = make_parser("E = T { \"+\" T } ; T = F { \"*\" F } ; F = \"(\" E \")\" | \"n\" ;");
    let tree = p.parse_str("n+n*n").expect("n+n*n should parse");
    match &tree {
        AST::Node { name, .. } => assert_eq!(name, "E"),
        AST::Token(_) => panic!("root must be a branch"),
    }
    let mut ls = Vec::new();
    leaves(&tree, &mut ls);
    assert_eq!(ls, vec!["n", "+", "n", "*", "n"]);
    assert_eq!(ls.iter().filter(|l| l.as_str() == "n").count(), 3);
}

#[test]
fn arithmetic_rejects_bad_input() {
    let p = make_parser("E = T { \"+\" T } ; T = F { \"*\" F } ; F = \"(\" E \")\" | \"n\" ;");
    assert!(p.parse_str("n+*n").is_err());
    assert!(p.parse_str("(n").is_err());
    assert!(p.parse_str("n+n)").is_err());
    assert!(p.parse_str("(n+n)*n").is_ok());
}

#[test]
fn optional_tail() {
    let p = make_parser("S = \"a\" [ \"b\" ] \"c\" ;");
    let t1 = p.parse_str("ac").expect("ac should parse");
    let mut ls = Vec::new();
    leaves(&t1, &mut ls);
    assert_eq!(ls, vec!["a", "c"]);
    let t2 = p.parse_str("abc").expect("abc should parse");
    let mut ls2 = Vec::new();
    leaves(&t2, &mut ls2);
    assert_eq!(ls2, vec!["a", "b", "c"]);
    match p.parse_str("abbc") {
        Err(ParseError::ExpectedTerminal { expected, got }) => {
            assert_eq!(expected, "c");
            assert_eq!(got.text, "b");
            assert_eq!(got.column, 2);
        },
        _ => panic!("abbc must fail on the second \"b\""),
    }
}

#[test]
fn iteration_with_commas() {
    let p = make_parser("L = \"x\" { \",\" \"x\" } ;");
    assert!(p.parse_str("x,x,x").is_ok());
    let e1 = p.parse_str("x,").expect_err("x, must fail");
    match e1 {
        ParseError::ExpectedTerminal { expected, got } => {
            assert_eq!(expected, "x");
            assert!(got.is_end, "the error must point at the end of the input");
        },
        other => panic!("expected an expected-terminal error, got {:?}", kind_of(&other)),
    }
    let e2 = p.parse_str(",x").expect_err(",x must fail");
    match e2 {
        ParseError::UnexpectedToken { got, .. } => {
            assert_eq!(got.column, 0);
            assert_eq!(got.line, 0);
        },
        other => panic!("expected an unexpected-token error, got {:?}", kind_of(&other)),
    }
}

fn kind_of(e: &ParseError) -> &'static str {
    match e {
        ParseError::UnexpectedToken { .. } => "unexpected token",
        ParseError::ExpectedTerminal { .. } => "expected terminal",
        ParseError::TrailingInput { .. } => "trailing input",
        ParseError::Internal => "internal",
    }
}

#[test]
fn one_or_more() {
    let p = make_parser("D = (\"d\")+ ;");
    assert!(p.parse_str("d").is_ok());
    assert!(p.parse_str("dd").is_ok());
    assert!(p.parse_str("").is_err());
}

#[test]
fn ambiguity_rejected() {
    let toks = tokenize("A = \"x\" | \"x\" \"y\" ;").unwrap();
    let g = parse(toks).unwrap();
    let gc = g.to_chomsky().unwrap();
    match get_parser(gc) {
        Err(GrammarError::Conflict { nonterminal, lookahead, first_production, second_production }) => {
            // the alternation of A expands into a hidden nonterminal, on
            // which the collision of its two productions is found
            assert!(nonterminal == "A" || nonterminal.starts_with('_'));
            assert_eq!(lookahead, "x");
            assert!(first_production < second_production);
        },
        Err(_) => panic!("wrong error kind for an ambiguous grammar"),
        Ok(_) => panic!("ambiguous grammar must be rejected"),
    }
}

#[test]
fn hidden_nonterminals_elided() {
    let p = make_parser("S = \"a\" [ \"b\" ] ;");
    for input in ["a", "ab"] {
        let tree = p.parse_str(input).expect("should parse");
        match &tree {
            AST::Node { name, .. } => assert_eq!(name, "S"),
            AST::Token(_) => panic!("root must be a branch"),
        }
        let mut names = Vec::new();
        node_names(&tree, &mut names);
        for n in &names {
            assert!(!n.starts_with('_'), "hidden nonterminal {} leaked into the tree", n);
        }
        let mut ls = Vec::new();
        leaves(&tree, &mut ls);
        if input == "a" {
            assert_eq!(ls, vec!["a"]);
        } else {
            assert_eq!(ls, vec!["a", "b"]);
        }
    }
}

#[test]
fn trailing_input_reported() {
    let p = make_parser("S = \"a\" ;");
    match p.parse_str("aa") {
        Err(ParseError::TrailingInput { at }) => assert_eq!(at.text, "a"),
        _ => panic!("trailing input must be reported"),
    }
}

#[test]
fn longest_match_wins() {
    let p = make_parser("S = \"ab\" | \"a\" \"b\" \"c\" ;");
    // on input "ab" the tokenizer must take the longest literal in one token
    let tree = p.parse_str("ab").expect("ab should parse");
    let mut ls = Vec::new();
    leaves(&tree, &mut ls);
    assert_eq!(ls, vec!["ab"]);
}

#[test]
fn line_and_column_tracking() {
    let p = make_parser("S = \"a\" \"\n\" \"b\" ;");
    let tree = p.parse_str("a\nb").expect("a<newline>b should parse");
    let mut toks = Vec::new();
    fn collect(ast: &AST, out: &mut Vec<(String, usize, usize, usize)>) {
        match ast {
            AST::Node { children, .. } => {
                for c in children {
                    collect(c, out);
                }
            },
            AST::Token(t) => out.push((t.text.clone(), t.line, t.column, t.str_pos)),
        }
    }
    collect(&tree, &mut toks);
    assert_eq!(toks[0], ("a".to_string(), 0, 0, 0));
    assert_eq!(toks[1], ("\n".to_string(), 0, 1, 1));
    assert_eq!(toks[2], ("b".to_string(), 1, 0, 2));
}

#[test]
fn round_trip_pretty_print() {
    let src = "E = T { \"+\" T } ; T = F { \"*\" F } ; F = \"(\" E \")\" | \"n\" ;";
    let g1 = parse(tokenize(src).unwrap()).unwrap();
    let printed = g1.to_ebnf();
    let g2 = parse(tokenize(printed.as_str()).unwrap()).expect("printed grammar must reparse");
    let c1 = g1.to_chomsky().unwrap();
    let c2 = g2.to_chomsky().unwrap();
    assert_eq!(c1.start_nonterm, c2.start_nonterm);
    assert_eq!(c1.rules.len(), c2.rules.len());
    let p1 = get_parser(c1).unwrap();
    let p2 = get_parser(c2).unwrap();
    for input in ["n", "n+n", "n*n+n", "(n+n)*n", "n+", "x", ""] {
        let r1 = p1.parse_str(input);
        let r2 = p2.parse_str(input);
        assert_eq!(r1.is_ok(), r2.is_ok(), "round-trip parsers disagree on {:?}", input);
        if let (Ok(t1), Ok(t2)) = (r1, r2) {
            let mut l1 = Vec::new();
            let mut l2 = Vec::new();
            leaves(&t1, &mut l1);
            leaves(&t2, &mut l2);
            assert_eq!(l1, l2);
        }
    }
}

#[test]
fn undefined_nonterminal_rejected() {
    let g = parse(tokenize("S = T ;").unwrap()).unwrap();
    match g.to_chomsky() {
        Err(GrammarError::UndefinedNonterminal(n)) => assert_eq!(n, "T"),
        _ => panic!("undefined nonterminal must be rejected"),
    }
}

#[test]
fn epsilon_alternative() {
    let p = make_parser("S = \"a\" B ; B = \"b\" | \u{03b5} ;");
    assert!(p.parse_str("a").is_ok());
    assert!(p.parse_str("ab").is_ok());
    assert!(p.parse_str("b").is_err());
}

#[test]
fn nonterminal_names_canonicalised() {
    // lowercase rule names are capitalised in the normalised grammar
    let p = make_parser("expr = \"x\" ;");
    let tree = p.parse_str("x").expect("x should parse");
    match &tree {
        AST::Node { name, .. } => assert_eq!(name, "Expr"),
        AST::Token(_) => panic!("root must be a branch"),
    }
}
