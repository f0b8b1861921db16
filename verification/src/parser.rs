//! The recursive-descent parser.
//!
//! `parse` drains the token buffer statement by statement and appends one
//! AST root per complete statement to the parser's output buffer. Every
//! parsing function is mirrored by a specification function over token
//! sequences; the executable functions return exactly what the mirror says,
//! so the grammar below is the contract:
//!
//! ```text
//! command  := '?' queryFact EOL | fact EOL | fact ARROW expr EOL
//! fact     := NAME ( '(' argList ')' )?
//! argList  := atomOrVar ( ',' argList )?
//! expr     := conj ( OR conj )*
//! conj     := term ( AND term )*
//! term     := NOT term | '(' expr ')' | fact
//! ```

use vstd::prelude::*;

use crate::ast::{Node, NodeView};
use crate::charclass::{is_uppercase_char, upper_char};
use crate::lexer::{Lexer, TokenView, Tokens};

verus! {

/// Why a statement failed to parse. An incomplete statement (the buffer ran
/// dry before the terminator) is distinguished from a malformed one.
#[derive(Debug, PartialEq, Eq, Structural, Clone, Copy)]
pub enum ParseError {
    Incomplete,
    NoEol,
    NotACommand,
    ExpectedEol,
    ExpectedName,
    ExpectedClose,
    ExpectedAtom,
    UnexpectedInArgs,
    UnexpectedInConj,
    UnexpectedInExpr,
}

/// The reason text that `ParseError::message` returns.
pub open spec fn spec_message(e: ParseError) -> Seq<char> {
    match e {
        ParseError::Incomplete => "Syntax Error: Incomplete statement"@,
        ParseError::NoEol => "Syntax Error: No EOL"@,
        ParseError::NotACommand => "Syntax Error: not a valid command"@,
        ParseError::ExpectedEol => "Syntax Error: Expected EOL"@,
        ParseError::ExpectedName => "Syntax Error: Expected name parsing fact"@,
        ParseError::ExpectedClose => "Syntax Error: Expected closing ')'"@,
        ParseError::ExpectedAtom => "Syntax Error: Expected to find atom"@,
        ParseError::UnexpectedInArgs => "Syntax Error: Invalid Token parsing atom"@,
        ParseError::UnexpectedInConj => "Unexpected token found while parsing fact"@,
        ParseError::UnexpectedInExpr => "Syntax Error: Unexpected token found: while parsing expression"@,
    }
}

impl ParseError {
    /// A human-readable reason.
    pub fn message(&self) -> (r: &'static str)
        ensures
            r@ == spec_message(*self),
    {
        match self {
            ParseError::Incomplete => "Syntax Error: Incomplete statement",
            ParseError::NoEol => "Syntax Error: No EOL",
            ParseError::NotACommand => "Syntax Error: not a valid command",
            ParseError::ExpectedEol => "Syntax Error: Expected EOL",
            ParseError::ExpectedName => "Syntax Error: Expected name parsing fact",
            ParseError::ExpectedClose => "Syntax Error: Expected closing ')'",
            ParseError::ExpectedAtom => "Syntax Error: Expected to find atom",
            ParseError::UnexpectedInArgs => "Syntax Error: Invalid Token parsing atom",
            ParseError::UnexpectedInConj => "Unexpected token found while parsing fact",
            ParseError::UnexpectedInExpr => "Syntax Error: Unexpected token found: while parsing expression",
        }
    }
}

/// What one parsing step yields: the node built and the tokens left over.
pub type ParseStep = Result<(NodeView, Seq<TokenView>), ParseError>;

/// Parses `NAME ( '(' argList ')' )?`. A name alone is a zero-arity fact.
pub open spec fn spec_parse_fact(t: Seq<TokenView>) -> ParseStep {
    if t.len() == 0 {
        Err(ParseError::Incomplete)
    } else {
        match t.first() {
            TokenView::Name(x) => {
                let rest = t.drop_first();
                if rest.len() > 0 && rest.first() is Bopen {
                    match spec_parse_atoms(rest.drop_first()) {
                        Ok((args, rest2)) => {
                            if rest2.len() > 0 && rest2.first() is Bclose {
                                Ok(
                                    (
                                        NodeView::Fact(x, Some(Box::new(args))),
                                        rest2.drop_first(),
                                    ),
                                )
                            } else {
                                Err(ParseError::ExpectedClose)
                            }
                        },
                        Err(e) => Err(e),
                    }
                } else {
                    Ok((NodeView::Fact(x, None), rest))
                }
            },
            _ => Err(ParseError::ExpectedName),
        }
    }
}

/// Parses a comma-separated argument chain. A name whose first character is
/// uppercase is a variable; any other name is an atom.
pub open spec fn spec_parse_atoms(t: Seq<TokenView>) -> ParseStep
    decreases t.len(),
{
    if t.len() == 0 {
        Err(ParseError::Incomplete)
    } else {
        match t.first() {
            TokenView::Name(x) => {
                let leaf = if x.len() > 0 && upper_char(x[0]) {
                    NodeView::Variable(x)
                } else {
                    NodeView::Atom(x)
                };
                let rest = t.drop_first();
                if rest.len() == 0 {
                    Err(ParseError::Incomplete)
                } else if rest.first() is Delim {
                    match spec_parse_atoms(rest.drop_first()) {
                        Ok((tail, rest2)) => Ok(
                            (NodeView::Atoms(Box::new(leaf), Some(Box::new(tail))), rest2),
                        ),
                        Err(e) => Err(e),
                    }
                } else if rest.first() is EOL || rest.first() is Bclose {
                    Ok((NodeView::Atoms(Box::new(leaf), None), rest))
                } else {
                    Err(ParseError::UnexpectedInArgs)
                }
            },
            _ => Err(ParseError::ExpectedAtom),
        }
    }
}

/// Parses `NOT term | '(' expr ')' | fact`.
pub open spec fn spec_parse_term(t: Seq<TokenView>) -> ParseStep
    decreases t.len(), 0int,
{
    if t.len() == 0 {
        Err(ParseError::Incomplete)
    } else if t.first() is Neg {
        match spec_parse_term(t.drop_first()) {
            Ok((sub, rest)) => Ok((NodeView::Neg(Box::new(sub)), rest)),
            Err(e) => Err(e),
        }
    } else if t.first() is Bopen {
        match spec_parse_rule(t.drop_first()) {
            Ok((sub, rest)) => {
                if rest.len() > 0 && rest.first() is Bclose {
                    Ok((sub, rest.drop_first()))
                } else {
                    Err(ParseError::ExpectedClose)
                }
            },
            Err(e) => Err(e),
        }
    } else {
        spec_parse_fact(t)
    }
}

/// Folds further `AND term` onto `lh`, stopping before OR, a closing
/// bracket, the terminator or the end of the buffer.
pub open spec fn spec_parse_conj_rest(lh: NodeView, t: Seq<TokenView>) -> ParseStep
    decreases t.len(), 1int,
{
    if t.len() == 0 {
        Ok((lh, t))
    } else {
        match t.first() {
            TokenView::Op(c) => {
                if c == '\u{2227}' {
                    match spec_parse_term(t.drop_first()) {
                        Ok((rh, rest)) => {
                            if rest.len() < t.len() {
                                spec_parse_conj_rest(
                                    NodeView::And(Box::new(lh), Box::new(rh)),
                                    rest,
                                )
                            } else {
                                Err(ParseError::Incomplete)
                            }
                        },
                        Err(e) => Err(e),
                    }
                } else if c == '\u{2228}' {
                    Ok((lh, t))
                } else {
                    Err(ParseError::UnexpectedInConj)
                }
            },
            TokenView::EOL => Ok((lh, t)),
            TokenView::Bclose => Ok((lh, t)),
            _ => Err(ParseError::UnexpectedInConj),
        }
    }
}

/// Parses `term ( AND term )*`, folding to the left.
pub open spec fn spec_parse_conj(t: Seq<TokenView>) -> ParseStep
    decreases t.len(), 2int,
{
    match spec_parse_term(t) {
        Ok((lh, rest)) => {
            if rest.len() <= t.len() {
                spec_parse_conj_rest(lh, rest)
            } else {
                Err(ParseError::Incomplete)
            }
        },
        Err(e) => Err(e),
    }
}

/// Folds further `OR conj` onto `lh`, stopping before a closing bracket,
/// the terminator or the end of the buffer.
pub open spec fn spec_parse_rule_rest(lh: NodeView, t: Seq<TokenView>) -> ParseStep
    decreases t.len(), 3int,
{
    if t.len() == 0 {
        Ok((lh, t))
    } else {
        match t.first() {
            TokenView::Op(c) => {
                if c == '\u{2228}' {
                    match spec_parse_conj(t.drop_first()) {
                        Ok((rh, rest)) => {
                            if rest.len() < t.len() {
                                spec_parse_rule_rest(
                                    NodeView::Or(Box::new(lh), Box::new(rh)),
                                    rest,
                                )
                            } else {
                                Err(ParseError::Incomplete)
                            }
                        },
                        Err(e) => Err(e),
                    }
                } else {
                    Err(ParseError::UnexpectedInExpr)
                }
            },
            TokenView::EOL => Ok((lh, t)),
            TokenView::Bclose => Ok((lh, t)),
            _ => Err(ParseError::UnexpectedInExpr),
        }
    }
}

/// Parses `conj ( OR conj )*`, folding to the left: a whole boolean body.
pub open spec fn spec_parse_rule(t: Seq<TokenView>) -> ParseStep
    decreases t.len(), 4int,
{
    match spec_parse_conj(t) {
        Ok((lh, rest)) => {
            if rest.len() <= t.len() {
                spec_parse_rule_rest(lh, rest)
            } else {
                Err(ParseError::Incomplete)
            }
        },
        Err(e) => Err(e),
    }
}

/// Parses the fact after a query marker, which must stand right before the
/// statement terminator.
pub open spec fn spec_parse_query(t: Seq<TokenView>) -> ParseStep {
    match spec_parse_fact(t) {
        Ok((f, rest)) => {
            if rest.len() == 0 {
                Err(ParseError::Incomplete)
            } else if rest.first() is EOL {
                Ok((NodeView::Query(Box::new(f)), rest))
            } else {
                Err(ParseError::ExpectedEol)
            }
        },
        Err(e) => Err(e),
    }
}

/// Parses one command: a query, a plain fact, or a rule. The terminator is
/// left in place for the caller to consume.
pub open spec fn spec_parse_cmd(t: Seq<TokenView>) -> ParseStep {
    if t.len() == 0 {
        Err(ParseError::Incomplete)
    } else if t.first() is Exists {
        spec_parse_query(t.drop_first())
    } else {
        match spec_parse_fact(t) {
            Ok((f, rest)) => {
                if rest.len() == 0 {
                    Err(ParseError::Incomplete)
                } else if rest.first() is Arrow {
                    match spec_parse_rule(rest.drop_first()) {
                        Ok((body, rest2)) => Ok(
                            (NodeView::Rule(Box::new(f), Box::new(body)), rest2),
                        ),
                        Err(e) => Err(e),
                    }
                } else if rest.first() is EOL {
                    Ok((f, rest))
                } else {
                    Err(ParseError::NotACommand)
                }
            },
            Err(e) => Err(e),
        }
    }
}

/// Parses a whole buffer: commands each closed by their terminator, until
/// the buffer is empty.
pub open spec fn spec_parse_all(t: Seq<TokenView>) -> Result<Seq<NodeView>, ParseError>
    decreases t.len(),
{
    if t.len() == 0 {
        Ok(Seq::empty())
    } else {
        match spec_parse_cmd(t) {
            Ok((n, rest)) => {
                if rest.len() > t.len() {
                    Err(ParseError::Incomplete)
                } else if rest.len() > 0 && rest.first() is EOL {
                    match spec_parse_all(rest.drop_first()) {
                        Ok(ns) => Ok(seq![n] + ns),
                        Err(e) => Err(e),
                    }
                } else {
                    Err(ParseError::NoEol)
                }
            },
            Err(e) => Err(e),
        }
    }
}

/// The nodes already built, followed by whatever a later parse yields.
pub open spec fn append_parsed(
    acc: Seq<NodeView>,
    r: Result<Seq<NodeView>, ParseError>,
) -> Result<Seq<NodeView>, ParseError> {
    match r {
        Ok(ns) => Ok(acc + ns),
        Err(e) => Err(e),
    }
}

/// Each token's image is the constructor its token bears: matching on a
/// token settles which variant its view is.
proof fn lemma_tok_view_cases(t: &Tokens)
    ensures
        (t@ is Name <==> t is Name),
        (t@ is Bopen <==> t is Bopen),
        (t@ is Bclose <==> t is Bclose),
        (t@ is Op <==> t is Op),
        (t@ is Exists <==> t is Exists),
        (t@ is Seperator <==> t is Seperator),
        (t@ is Neg <==> t is Neg),
        (t@ is Arrow <==> t is Arrow),
        (t@ is Delim <==> t is Delim),
        (t@ is EOL <==> t is EOL),
        (t@ is EOF <==> t is EOF),
{
    match t {
        Tokens::Name(_) => {},
        Tokens::Bopen => {},
        Tokens::Bclose => {},
        Tokens::Op(_) => {},
        Tokens::Exists => {},
        Tokens::Seperator => {},
        Tokens::Neg => {},
        Tokens::Arrow => {},
        Tokens::Delim => {},
        Tokens::EOL => {},
        Tokens::EOF => {},
    }
}

/// The parser: holds the AST roots built so far.
#[derive(Debug)]
pub struct Parser {
    pub buffer: Vec<Node>,
}

impl View for Parser {
    type V = Seq<NodeView>;

    open spec fn view(&self) -> Seq<NodeView> {
        self.buffer@.map_values(|n: Node| n@)
    }
}

impl Parser {
    /// A parser with an empty output buffer.
    pub fn new() -> (p: Self)
        ensures
            p@ == Seq::<NodeView>::empty(),
    {
        let p = Parser { buffer: Vec::new() };
        proof {
            assert(p@ =~= Seq::<NodeView>::empty());
        }
        p
    }

    /// Drains the token buffer statement by statement, appending one AST
    /// root per statement; on the first failure the error is returned and
    /// the caller must clear both buffers before feeding more text.
    pub fn parse(&mut self, lex: &mut Lexer) -> (r: Result<(), ParseError>)
        ensures
            match spec_parse_all(old(lex)@) {
                Ok(ns) => r is Ok && final(self)@ == old(self)@ + ns && final(lex)@.len() == 0,
                Err(e) => r == Err::<(), ParseError>(e),
            },
    {
        let ghost mut acc: Seq<NodeView> = Seq::empty();
        proof {
            assert(old(self)@ + acc =~= old(self)@);
        }
        while lex.buffer.len() > 0
            invariant
                self@ == old(self)@ + acc,
                spec_parse_all(old(lex)@) == append_parsed(acc, spec_parse_all(lex@)),
            decreases lex@.len(),
        {
            let ghost start = lex@;
            proof {
                assert(start.len() == lex.buffer@.len());
                assert(start.len() > 0);
            }
            let ast = match self.parse_cmd(lex) {
                Ok(n) => n,
                Err(e) => {
                    return Err(e);
                },
            };
            match lex.pop() {
                Some(t) => match t {
                    Tokens::EOL => {},
                    _ => {
                        proof {
                            lemma_tok_view_cases(&t);
                        }
                        return Err(ParseError::NoEol);
                    },
                },
                None => {
                    return Err(ParseError::NoEol);
                },
            }
            let ghost av = ast@;
            let ghost pres = self@;
            self.buffer.push(ast);
            proof {
                let accold = acc;
                acc = acc + seq![av];
                assert(self@ =~= pres + seq![av]);
                assert(self@ =~= old(self)@ + acc);
                match spec_parse_all(lex@) {
                    Ok(ns) => {
                        assert((accold + seq![av]) + ns =~= accold + (seq![av] + ns));
                    },
                    Err(_) => {},
                }
            }
        }
        proof {
            assert(spec_parse_all(lex@) == Ok::<Seq<NodeView>, ParseError>(Seq::empty()));
            assert(acc + Seq::<NodeView>::empty() =~= acc);
        }
        Ok(())
    }

    /// Parses one command, leaving its terminator in the buffer.
    pub fn parse_cmd(&self, lex: &mut Lexer) -> (r: Result<Node, ParseError>)
        ensures
            match r {
                Ok(n) => spec_parse_cmd(old(lex)@) == Ok::<(NodeView, Seq<TokenView>), ParseError>(
                    (n@, final(lex)@),
                ),
                Err(e) => spec_parse_cmd(old(lex)@) == Err::<
                    (NodeView, Seq<TokenView>),
                    ParseError,
                >(e),
            },
            final(lex)@.len() <= old(lex)@.len(),
    {
        let mut empty = false;
        let mut is_exists = false;
        match lex.peek() {
            None => {
                empty = true;
            },
            Some(t) => {
                proof {
                    lemma_tok_view_cases(t);
                }
                match t {
                    Tokens::Exists => {
                        is_exists = true;
                    },
                    _ => {},
                }
            },
        }
        if empty {
            return Err(ParseError::Incomplete);
        }
        if is_exists {
            let _ = lex.pop();
            return self.parse_query(lex);
        }
        let fact = match self.parse_fact(lex) {
            Ok(n) => n,
            Err(e) => {
                return Err(e);
            },
        };
        let mut is_arrow = false;
        let mut is_eol = false;
        let mut rest_empty = false;
        match lex.peek() {
            None => {
                rest_empty = true;
            },
            Some(t) => {
                proof {
                    lemma_tok_view_cases(t);
                }
                match t {
                    Tokens::Arrow => {
                        is_arrow = true;
                    },
                    Tokens::EOL => {
                        is_eol = true;
                    },
                    _ => {},
                }
            },
        }
        if rest_empty {
            Err(ParseError::Incomplete)
        } else if is_arrow {
            let _ = lex.pop();
            match self.parse_rule(lex) {
                Ok(body) => Ok(Node::Rule(Box::new(fact), Box::new(body))),
                Err(e) => Err(e),
            }
        } else if is_eol {
            Ok(fact)
        } else {
            Err(ParseError::NotACommand)
        }
    }

    /// Parses the fact of a query statement.
    pub fn parse_query(&self, lex: &mut Lexer) -> (r: Result<Node, ParseError>)
        ensures
            match r {
                Ok(n) => spec_parse_query(old(lex)@) == Ok::<
                    (NodeView, Seq<TokenView>),
                    ParseError,
                >((n@, final(lex)@)),
                Err(e) => spec_parse_query(old(lex)@) == Err::<
                    (NodeView, Seq<TokenView>),
                    ParseError,
                >(e),
            },
            final(lex)@.len() <= old(lex)@.len(),
    {
        let fact = match self.parse_fact(lex) {
            Ok(n) => n,
            Err(e) => {
                return Err(e);
            },
        };
        match lex.peek() {
            None => Err(ParseError::Incomplete),
            Some(Tokens::EOL) => Ok(Node::Query(Box::new(fact))),
            Some(t) => {
                proof {
                    lemma_tok_view_cases(t);
                }
                Err(ParseError::ExpectedEol)
            },
        }
    }

    /// Parses a fact: a name, optionally followed by a bracketed argument
    /// chain.
    pub fn parse_fact(&self, lex: &mut Lexer) -> (r: Result<Node, ParseError>)
        ensures
            match r {
                Ok(n) => spec_parse_fact(old(lex)@) == Ok::<
                    (NodeView, Seq<TokenView>),
                    ParseError,
                >((n@, final(lex)@)),
                Err(e) => spec_parse_fact(old(lex)@) == Err::<
                    (NodeView, Seq<TokenView>),
                    ParseError,
                >(e),
            },
            final(lex)@.len() <= old(lex)@.len(),
    {
        let name = match lex.pop() {
            None => {
                return Err(ParseError::Incomplete);
            },
            Some(t) => match t {
                Tokens::Name(x) => x,
                _ => {
                    proof {
                        lemma_tok_view_cases(&t);
                    }
                    return Err(ParseError::ExpectedName);
                },
            },
        };
        let mut open = false;
        match lex.peek() {
            Some(t) => {
                proof {
                    lemma_tok_view_cases(t);
                }
                match t {
                    Tokens::Bopen => {
                        open = true;
                    },
                    _ => {},
                }
            },
            None => {},
        }
        if open {
            let _ = lex.pop();
            let args = match self.parse_atoms(lex) {
                Ok(a) => a,
                Err(e) => {
                    return Err(e);
                },
            };
            let mut close = false;
            match lex.peek() {
                Some(t) => {
                    proof {
                        lemma_tok_view_cases(t);
                    }
                    match t {
                        Tokens::Bclose => {
                            close = true;
                        },
                        _ => {},
                    }
                },
                None => {},
            }
            if close {
                let _ = lex.pop();
                Ok(Node::Fact(name, Some(Box::new(args))))
            } else {
                Err(ParseError::ExpectedClose)
            }
        } else {
            Ok(Node::Fact(name, None))
        }
    }

    /// Parses a comma-separated argument chain of atoms and variables.
    pub fn parse_atoms(&self, lex: &mut Lexer) -> (r: Result<Node, ParseError>)
        ensures
            match r {
                Ok(n) => spec_parse_atoms(old(lex)@) == Ok::<
                    (NodeView, Seq<TokenView>),
                    ParseError,
                >((n@, final(lex)@)),
                Err(e) => spec_parse_atoms(old(lex)@) == Err::<
                    (NodeView, Seq<TokenView>),
                    ParseError,
                >(e),
            },
            final(lex)@.len() <= old(lex)@.len(),
        decreases lex@.len(),
    {
        let name = match lex.pop() {
            None => {
                return Err(ParseError::Incomplete);
            },
            Some(t) => match t {
                Tokens::Name(x) => x,
                _ => {
                    proof {
                        lemma_tok_view_cases(&t);
                    }
                    return Err(ParseError::ExpectedAtom);
                },
            },
        };
        let is_var = {
            let xs = name.as_str();
            let l = xs.unicode_len();
            if l > 0 {
                is_uppercase_char(xs.get_char(0))
            } else {
                false
            }
        };
        proof {
            assert(is_var == (name@.len() > 0 && upper_char(name@[0])));
        }
        let leaf = if is_var {
            Node::Variable(name)
        } else {
            Node::Atom(name)
        };
        let ghost lv = leaf@;
        proof {
            match old(lex)@.first() {
                TokenView::Name(x) => {
                    assert(x == name@);
                    assert(lv == (if x.len() > 0 && upper_char(x[0]) {
                        NodeView::Variable(x)
                    } else {
                        NodeView::Atom(x)
                    }));
                },
                _ => {
                    assert(false);
                },
            }
        }
        let mut is_delim = false;
        let mut is_end = false;
        let mut rest_empty = false;
        match lex.peek() {
            None => {
                rest_empty = true;
            },
            Some(t) => {
                proof {
                    lemma_tok_view_cases(t);
                }
                match t {
                    Tokens::Delim => {
                        is_delim = true;
                    },
                    Tokens::EOL => {
                        is_end = true;
                    },
                    Tokens::Bclose => {
                        is_end = true;
                    },
                    _ => {},
                }
            },
        }
        if rest_empty {
            Err(ParseError::Incomplete)
        } else if is_delim {
            let _ = lex.pop();
            match self.parse_atoms(lex) {
                Ok(tail) => Ok(Node::Atoms(Box::new(leaf), Some(Box::new(tail)))),
                Err(e) => Err(e),
            }
        } else if is_end {
            Ok(Node::Atoms(Box::new(leaf), None))
        } else {
            Err(ParseError::UnexpectedInArgs)
        }
    }

    /// Parses one term: a negation, a parenthesized body, or a fact.
    pub fn parse_term(&self, lex: &mut Lexer) -> (r: Result<Node, ParseError>)
        ensures
            match r {
                Ok(n) => spec_parse_term(old(lex)@) == Ok::<
                    (NodeView, Seq<TokenView>),
                    ParseError,
                >((n@, final(lex)@)),
                Err(e) => spec_parse_term(old(lex)@) == Err::<
                    (NodeView, Seq<TokenView>),
                    ParseError,
                >(e),
            },
            final(lex)@.len() <= old(lex)@.len(),
        decreases lex@.len(), 0int,
    {
        let mut empty = false;
        let mut is_neg = false;
        let mut is_open = false;
        match lex.peek() {
            None => {
                empty = true;
            },
            Some(t) => {
                proof {
                    lemma_tok_view_cases(t);
                }
                match t {
                    Tokens::Neg => {
                        is_neg = true;
                    },
                    Tokens::Bopen => {
                        is_open = true;
                    },
                    _ => {},
                }
            },
        }
        if empty {
            Err(ParseError::Incomplete)
        } else if is_neg {
            let _ = lex.pop();
            match self.parse_term(lex) {
                Ok(sub) => Ok(Node::Neg(Box::new(sub))),
                Err(e) => Err(e),
            }
        } else if is_open {
            let _ = lex.pop();
            let sub = match self.parse_rule(lex) {
                Ok(n) => n,
                Err(e) => {
                    return Err(e);
                },
            };
            match lex.pop() {
                Some(t) => match t {
                    Tokens::Bclose => Ok(sub),
                    _ => {
                        proof {
                            lemma_tok_view_cases(&t);
                        }
                        Err(ParseError::ExpectedClose)
                    },
                },
                None => Err(ParseError::ExpectedClose),
            }
        } else {
            self.parse_fact(lex)
        }
    }

    /// Parses a conjunction: terms folded to the left under AND.
    pub fn parse_conj(&self, lex: &mut Lexer) -> (r: Result<Node, ParseError>)
        ensures
            match r {
                Ok(n) => spec_parse_conj(old(lex)@) == Ok::<
                    (NodeView, Seq<TokenView>),
                    ParseError,
                >((n@, final(lex)@)),
                Err(e) => spec_parse_conj(old(lex)@) == Err::<
                    (NodeView, Seq<TokenView>),
                    ParseError,
                >(e),
            },
            final(lex)@.len() <= old(lex)@.len(),
        decreases lex@.len(), 1int,
    {
        let mut lh = match self.parse_term(lex) {
            Ok(n) => n,
            Err(e) => {
                return Err(e);
            },
        };
        loop
            invariant
                spec_parse_conj(old(lex)@) == spec_parse_conj_rest(lh@, lex@),
                lex@.len() <= old(lex)@.len(),
            decreases lex@.len(),
        {
            let ghost start = lex@;
            let mut is_and = false;
            let mut is_stop = false;
            let mut empty = false;
            match lex.peek() {
                None => {
                    empty = true;
                },
                Some(t) => {
                    proof {
                        lemma_tok_view_cases(t);
                    }
                    match t {
                        Tokens::Op(c) => {
                            if *c == '\u{2227}' {
                                is_and = true;
                            } else if *c == '\u{2228}' {
                                is_stop = true;
                            }
                        },
                        Tokens::EOL => {
                            is_stop = true;
                        },
                        Tokens::Bclose => {
                            is_stop = true;
                        },
                        _ => {},
                    }
                },
            }
            if empty || is_stop {
                return Ok(lh);
            }
            if !is_and {
                return Err(ParseError::UnexpectedInConj);
            }
            let _ = lex.pop();
            let rh = match self.parse_term(lex) {
                Ok(n) => n,
                Err(e) => {
                    return Err(e);
                },
            };
            lh = Node::And(Box::new(lh), Box::new(rh));
        }
    }

    /// Parses a whole boolean body: conjunctions folded to the left under
    /// OR.
    pub fn parse_rule(&self, lex: &mut Lexer) -> (r: Result<Node, ParseError>)
        ensures
            match r {
                Ok(n) => spec_parse_rule(old(lex)@) == Ok::<
                    (NodeView, Seq<TokenView>),
                    ParseError,
                >((n@, final(lex)@)),
                Err(e) => spec_parse_rule(old(lex)@) == Err::<
                    (NodeView, Seq<TokenView>),
                    ParseError,
                >(e),
            },
            final(lex)@.len() <= old(lex)@.len(),
        decreases lex@.len(), 2int,
    {
        let mut lh = match self.parse_conj(lex) {
            Ok(n) => n,
            Err(e) => {
                return Err(e);
            },
        };
        loop
            invariant
                spec_parse_rule(old(lex)@) == spec_parse_rule_rest(lh@, lex@),
                lex@.len() <= old(lex)@.len(),
            decreases lex@.len(),
        {
            let mut is_or = false;
            let mut is_stop = false;
            let mut empty = false;
            match lex.peek() {
                None => {
                    empty = true;
                },
                Some(t) => {
                    proof {
                        lemma_tok_view_cases(t);
                    }
                    match t {
                        Tokens::Op(c) => {
                            if *c == '\u{2228}' {
                                is_or = true;
                            }
                        },
                        Tokens::EOL => {
                            is_stop = true;
                        },
                        Tokens::Bclose => {
                            is_stop = true;
                        },
                        _ => {},
                    }
                },
            }
            if empty || is_stop {
                return Ok(lh);
            }
            if !is_or {
                return Err(ParseError::UnexpectedInExpr);
            }
            let _ = lex.pop();
            let rh = match self.parse_conj(lex) {
                Ok(n) => n,
                Err(e) => {
                    return Err(e);
                },
            };
            lh = Node::Or(Box::new(lh), Box::new(rh));
        }
    }
}

} // verus!
