use minilog::ast::Node;
use minilog::lexer::{Lexer, Tokens};
use minilog::parser::{ParseError, Parser};

fn lex_all(text: &str) -> Vec<Tokens> {
    let mut lex = Lexer::new(text.to_string());
    let mut out = Vec::new();
    while let Some(t) = lex.pop() {
        out.push(t);
    }
    out
}

#[test]
fn tokenize_simple_fact() {
    let toks = lex_all("likes(mary,tom).");
    assert_eq!(
        toks,
        vec![
            Tokens::Name("likes".to_string()),
            Tokens::Bopen,
            Tokens::Name("mary".to_string()),
            Tokens::Delim,
            Tokens::Name("tom".to_string()),
            Tokens::Bclose,
            Tokens::EOL,
        ]
    );
}

#[test]
fn tokenize_skips_whitespace() {
    assert_eq!(lex_all("likes (mary,  tom)."), lex_all("likes(mary,tom)."));
}

#[test]
fn tokenize_drops_unrecognized_characters() {
    let toks = lex_all("a1b");
    assert_eq!(
        toks,
        vec![Tokens::Name("a".to_string()), Tokens::Name("b".to_string())]
    );
}

#[test]
fn tokenize_connectives_and_arrow() {
    let toks = lex_all(":- : \u{2227} \u{2228} \u{00AC} ?");
    assert_eq!(
        toks,
        vec![
            Tokens::Arrow,
            Tokens::Seperator,
            Tokens::Op('\u{2227}'),
            Tokens::Op('\u{2228}'),
            Tokens::Neg,
            Tokens::Exists,
        ]
    );
}

#[test]
fn tokenize_is_incremental() {
    let mut lex = Lexer::new("likes(".to_string());
    lex.consume("mary).".to_string());
    let mut p = Parser::new();
    assert!(p.parse(&mut lex).is_ok());
    assert_eq!(p.buffer.len(), 1);
}

fn parse_one(text: &str) -> Node {
    let mut lex = Lexer::new(text.to_string());
    let mut p = Parser::new();
    p.parse(&mut lex).expect("statement should parse");
    assert_eq!(p.buffer.len(), 1);
    p.buffer.remove(0)
}

fn fact_node(name: &str, args: &[&str]) -> Node {
    let mut tail: Option<Box<Node>> = None;
    for a in args.iter().rev() {
        let leaf = if a.chars().next().map(|c| c.is_uppercase()).unwrap_or(false) {
            Node::Variable(a.to_string())
        } else {
            Node::Atom(a.to_string())
        };
        tail = Some(Box::new(Node::Atoms(Box::new(leaf), tail)));
    }
    Node::Fact(name.to_string(), tail)
}

#[test]
fn parse_fact_statement() {
    let node = parse_one("likes(mary,tom).");
    assert_eq!(node, fact_node("likes", &["mary", "tom"]));
}

#[test]
fn parse_query_statement() {
    let node = parse_one("?likes(mary,X).");
    assert_eq!(
        node,
        Node::Query(Box::new(fact_node("likes", &["mary", "X"])))
    );
}

#[test]
fn parse_rule_statement() {
    let node = parse_one("a:-b\u{2227}\u{00AC}c.");
    let body = Node::And(
        Box::new(fact_node("b", &[])),
        Box::new(Node::Neg(Box::new(fact_node("c", &[])))),
    );
    assert_eq!(node, Node::Rule(Box::new(fact_node("a", &[])), Box::new(body)));
}

#[test]
fn parse_rule_precedence_or_looser_than_and() {
    let node = parse_one("a:-b\u{2227}c\u{2228}d.");
    let conj = Node::And(Box::new(fact_node("b", &[])), Box::new(fact_node("c", &[])));
    let body = Node::Or(Box::new(conj), Box::new(fact_node("d", &[])));
    assert_eq!(node, Node::Rule(Box::new(fact_node("a", &[])), Box::new(body)));
}

#[test]
fn empty_input_parses_to_nothing() {
    let mut lex = Lexer::new("".to_string());
    assert!(lex.peek().is_none());
    let mut p = Parser::new();
    assert!(p.parse(&mut lex).is_ok());
    assert_eq!(p.buffer.len(), 0);
}

#[test]
fn malformed_input_is_an_error_not_a_panic() {
    let mut lex = Lexer::new("likes(mary,tom".to_string());
    let mut p = Parser::new();
    let r = p.parse(&mut lex);
    assert_eq!(r, Err(ParseError::Incomplete));
    lex.buffer.clear();
    p.buffer.clear();
    assert!(lex.peek().is_none());
    assert_eq!(p.buffer.len(), 0);
}

#[test]
fn parse_error_variants() {
    let cases: &[(&str, ParseError)] = &[
        ("likes(mary,tom", ParseError::Incomplete),
        ("a:-b).", ParseError::NoEol),
        ("likes mary.", ParseError::NotACommand),
        ("?likes tom.", ParseError::ExpectedEol),
        (",.", ParseError::ExpectedName),
        ("likes(mary.", ParseError::ExpectedClose),
        ("likes(,).", ParseError::ExpectedAtom),
        ("likes(mary?).", ParseError::UnexpectedInArgs),
        ("a:-b?.", ParseError::UnexpectedInConj),
    ];
    for (text, want) in cases {
        let mut lex = Lexer::new(text.to_string());
        let mut p = Parser::new();
        assert_eq!(p.parse(&mut lex), Err(*want), "input: {}", text);
    }
}

#[test]
fn parse_error_messages_are_static_reasons() {
    assert_eq!(ParseError::NoEol.message(), "Syntax Error: No EOL");
    assert_eq!(
        ParseError::ExpectedName.message(),
        "Syntax Error: Expected name parsing fact"
    );
}

#[test]
fn render_fact_round_trips() {
    let node = fact_node("likes", &["mary", "X"]);
    let text = node.to_string();
    assert_eq!(text, "likes(mary,X)");
    let mut lex = Lexer::new(text);
    let p = Parser::new();
    let back = p.parse_fact(&mut lex).expect("rendering should re-parse");
    assert_eq!(back, node);
    assert!(lex.peek().is_none());
}

#[test]
fn render_expression_round_trips() {
    let node = Node::Or(
        Box::new(Node::And(
            Box::new(fact_node("p", &["x"])),
            Box::new(Node::Neg(Box::new(fact_node("q", &[])))),
        )),
        Box::new(fact_node("r", &[])),
    );
    let text = node.to_string();
    assert_eq!(text, "((p(x)\u{2227}\u{00AC}q)\u{2228}r)");
    let mut lex = Lexer::new(text);
    let p = Parser::new();
    let back = p.parse_rule(&mut lex).expect("rendering should re-parse");
    assert_eq!(back, node);
    assert!(lex.peek().is_none());
}

#[test]
fn render_statement_round_trips() {
    let rule = Node::Rule(
        Box::new(fact_node("a", &[])),
        Box::new(Node::And(
            Box::new(fact_node("b", &[])),
            Box::new(fact_node("c", &[])),
        )),
    );
    let text = rule.to_string();
    assert_eq!(text, "a:-(b\u{2227}c).");
    let back = parse_one(&text);
    assert_eq!(back, rule);

    let query = Node::Query(Box::new(fact_node("likes", &["mary", "tom"])));
    let back2 = parse_one(&query.to_string());
    assert_eq!(back2, query);
}
