//! The printing grammar is idempotent: rendering a well-formed node,
//! tokenizing the text and parsing the tokens yields the node back.
//!
//! Well-formed means: every identifier is a nonempty run of identifier
//! characters none of which is whitespace, atoms do not start uppercase,
//! variables do, and the tree has the shape the grammar can produce —
//! facts over argument chains of atoms and variables, and bodies built
//! from facts under AND, OR and NOT.

use vstd::prelude::*;

use crate::ast::{render, NodeView};
use crate::charclass::{name_char, space_char, special_char, upper_char};
use crate::lexer::{lemma_name_run_is, lemma_name_run_le, name_run, tokens_of, TokenView};
use crate::parser::{
    spec_parse_atoms, spec_parse_cmd, spec_parse_conj, spec_parse_conj_rest, spec_parse_fact,
    spec_parse_query, spec_parse_rule, spec_parse_rule_rest, spec_parse_term,
};

verus! {

/// Identifier text that tokenizes back to a single name token.
pub open spec fn wf_name(s: Seq<char>) -> bool {
    s.len() > 0 && (forall|i: int|
        0 <= i < s.len() ==> name_char(#[trigger] s[i]) && !space_char(s[i]))
}

/// A node that can stand inside a boolean body as one term.
pub open spec fn exprish(n: NodeView) -> bool {
    n is And || n is Or || n is Neg || n is Fact
}

/// A node the parser could have produced, with well-formed names and
/// leaf classification matching the leading-letter policy.
pub open spec fn wf_node(n: NodeView) -> bool
    decreases n,
{
    match n {
        NodeView::Atom(x) => wf_name(x) && !upper_char(x[0]),
        NodeView::Variable(x) => wf_name(x) && upper_char(x[0]),
        NodeView::Fact(x, None) => wf_name(x),
        NodeView::Fact(x, Some(a)) => wf_name(x) && *a is Atoms && wf_node(*a),
        NodeView::Atoms(h, t) => (*h is Atom || *h is Variable) && wf_node(*h) && (match t {
            Some(tl) => *tl is Atoms && wf_node(*tl),
            None => true,
        }),
        NodeView::And(a, b) => exprish(*a) && wf_node(*a) && exprish(*b) && wf_node(*b),
        NodeView::Or(a, b) => exprish(*a) && wf_node(*a) && exprish(*b) && wf_node(*b),
        NodeView::Neg(a) => exprish(*a) && wf_node(*a),
        NodeView::Query(f) => *f is Fact && wf_node(*f),
        NodeView::Rule(h, b) => *h is Fact && wf_node(*h) && exprish(*b) && wf_node(*b),
    }
}

/// The token sequence a rendering tokenizes to, read off the tree.
pub open spec fn node_tokens(n: NodeView) -> Seq<TokenView>
    decreases n,
{
    match n {
        NodeView::Atom(x) => seq![TokenView::Name(x)],
        NodeView::Variable(x) => seq![TokenView::Name(x)],
        NodeView::Fact(x, None) => seq![TokenView::Name(x)],
        NodeView::Fact(x, Some(a)) => seq![TokenView::Name(x), TokenView::Bopen] + node_tokens(*a)
            + seq![TokenView::Bclose],
        NodeView::Atoms(h, Some(t)) => node_tokens(*h) + seq![TokenView::Delim] + node_tokens(*t),
        NodeView::Atoms(h, None) => node_tokens(*h),
        NodeView::And(a, b) => seq![TokenView::Bopen] + node_tokens(*a) + seq![
            TokenView::Op('\u{2227}'),
        ] + node_tokens(*b) + seq![TokenView::Bclose],
        NodeView::Or(a, b) => seq![TokenView::Bopen] + node_tokens(*a) + seq![
            TokenView::Op('\u{2228}'),
        ] + node_tokens(*b) + seq![TokenView::Bclose],
        NodeView::Neg(a) => seq![TokenView::Neg] + node_tokens(*a),
        NodeView::Query(f) => seq![TokenView::Exists] + node_tokens(*f) + seq![TokenView::EOL],
        NodeView::Rule(h, b) => node_tokens(*h) + seq![TokenView::Arrow] + node_tokens(*b) + seq![
            TokenView::EOL,
        ],
    }
}

/// With a non-identifier character on the right of the seam, the leading
/// identifier run of a concatenation is that of its left part.
proof fn lemma_name_run_append(s1: Seq<char>, s2: Seq<char>)
    requires
        s2.len() > 0,
        !name_char(s2.first()),
    ensures
        name_run(s1 + s2) == name_run(s1),
    decreases s1.len(),
{
    if s1.len() == 0 {
        assert(s1 + s2 =~= s2);
    } else {
        assert((s1 + s2)[0] == s1[0]);
        if name_char(s1[0]) {
            assert((s1 + s2).drop_first() =~= s1.drop_first() + s2);
            lemma_name_run_append(s1.drop_first(), s2);
        }
    }
}

/// Tokenizing stops cleanly at a seam whose right side opens with a
/// punctuation glyph other than a dash's partner.
proof fn lemma_tokens_append(s1: Seq<char>, s2: Seq<char>)
    requires
        s2.len() > 0,
        special_char(s2.first()),
        s2.first() != '-',
    ensures
        tokens_of(s1 + s2) == tokens_of(s1) + tokens_of(s2),
    decreases s1.len(),
{
    let s = s1 + s2;
    if s1.len() == 0 {
        assert(s =~= s2);
        assert(tokens_of(s1) + tokens_of(s2) =~= tokens_of(s2));
    } else {
        let c = s1[0];
        assert(s[0] == c);
        assert(s.len() >= 2);
        if c == ':' {
            if s1.len() >= 2 {
                assert(s[1] == s1[1]);
                if s1[1] == '-' {
                    assert(s.skip(2) =~= s1.skip(2) + s2);
                    lemma_tokens_append(s1.skip(2), s2);
                    assert(tokens_of(s) =~= tokens_of(s1) + tokens_of(s2));
                } else {
                    assert(s.drop_first() =~= s1.drop_first() + s2);
                    lemma_tokens_append(s1.drop_first(), s2);
                    assert(tokens_of(s) =~= tokens_of(s1) + tokens_of(s2));
                }
            } else {
                assert(s[1] == s2.first());
                assert(s2.first() != '-');
                assert(s.drop_first() =~= s2);
                assert(s1.drop_first() =~= Seq::<char>::empty());
                assert(tokens_of(s1.drop_first()) =~= Seq::<TokenView>::empty());
                assert(tokens_of(s1) =~= seq![TokenView::Seperator]);
                assert(tokens_of(s) =~= seq![TokenView::Seperator] + tokens_of(s2));
                assert(tokens_of(s) =~= tokens_of(s1) + tokens_of(s2));
            }
        } else if c == '(' || c == ')' || c == '\u{2227}' || c == '\u{2228}' || c == '\u{00AC}'
            || c == '.' || c == ',' || c == '?' {
            assert(s.drop_first() =~= s1.drop_first() + s2);
            lemma_tokens_append(s1.drop_first(), s2);
            assert(tokens_of(s) =~= tokens_of(s1) + tokens_of(s2));
        } else if space_char(c) {
            assert(s.drop_first() =~= s1.drop_first() + s2);
            lemma_tokens_append(s1.drop_first(), s2);
        } else if name_char(c) {
            assert(!name_char(s2.first()));
            lemma_name_run_append(s1, s2);
            let l = name_run(s1) as int;
            lemma_name_run_le(s1);
            assert(l >= 1);
            assert(s.subrange(0, l) =~= s1.subrange(0, l));
            assert(s.skip(l) =~= s1.skip(l) + s2);
            lemma_tokens_append(s1.skip(l), s2);
            assert(tokens_of(s) =~= tokens_of(s1) + tokens_of(s2));
        } else {
            assert(s.drop_first() =~= s1.drop_first() + s2);
            lemma_tokens_append(s1.drop_first(), s2);
        }
    }
}

/// Well-formed identifier text is one name token.
proof fn lemma_tokens_name(s: Seq<char>)
    requires
        wf_name(s),
    ensures
        tokens_of(s) == seq![TokenView::Name(s)],
{
    assert(name_char(s[0]) && !space_char(s[0]));
    assert(!special_char(s[0]));
    lemma_name_run_is(s, s.len() as int);
    assert(name_run(s) == s.len());
    assert(s.subrange(0, s.len() as int) =~= s);
    assert(s.skip(s.len() as int) =~= Seq::<char>::empty());
    assert(tokens_of(s.skip(s.len() as int)) =~= Seq::<TokenView>::empty());
    assert(tokens_of(s) =~= seq![TokenView::Name(s.subrange(0, s.len() as int))] + tokens_of(
        s.skip(s.len() as int),
    ));
    assert(tokens_of(s) =~= seq![TokenView::Name(s)]);
}

/// A lone punctuation glyph is one token.
spec fn glyph_token(c: char) -> TokenView {
    if c == '(' {
        TokenView::Bopen
    } else if c == ')' {
        TokenView::Bclose
    } else if c == '\u{2227}' {
        TokenView::Op('\u{2227}')
    } else if c == '\u{2228}' {
        TokenView::Op('\u{2228}')
    } else if c == '\u{00AC}' {
        TokenView::Neg
    } else if c == '.' {
        TokenView::EOL
    } else if c == ',' {
        TokenView::Delim
    } else if c == '?' {
        TokenView::Exists
    } else {
        TokenView::Seperator
    }
}

proof fn lemma_tokens_glyph(c: char)
    requires
        special_char(c),
        c != ':',
    ensures
        tokens_of(seq![c]) == seq![glyph_token(c)],
{
    let s = seq![c];
    assert(s[0] == c);
    assert(s.drop_first() =~= Seq::<char>::empty());
    assert(tokens_of(s.drop_first()) =~= Seq::<TokenView>::empty());
    assert(tokens_of(s) =~= seq![glyph_token(c)]);
}

/// Tokenizing the rendering of a well-formed node yields exactly the
/// tokens read off the tree.
proof fn lemma_render_tokens(n: NodeView)
    requires
        wf_node(n),
    ensures
        tokens_of(render(n)) == node_tokens(n),
    decreases n,
{
    let w = render(n);
    match n {
        NodeView::Atom(x) => {
            lemma_tokens_name(x);
        },
        NodeView::Variable(x) => {
            lemma_tokens_name(x);
        },
        NodeView::Fact(x, None) => {
            lemma_tokens_name(x);
        },
        NodeView::Fact(x, Some(a)) => {
            lemma_render_tokens(*a);
            let ra = render(*a);
            let t1 = ra + seq![')'];
            let t2 = seq!['('] + t1;
            assert(w =~= x + t2);
            assert(t2.first() == '(');
            lemma_tokens_append(x, t2);
            lemma_tokens_name(x);
            assert(t2.drop_first() =~= t1);
            assert(t1.last() == ')');
            lemma_tokens_append(ra, seq![')']);
            lemma_tokens_glyph(')');
            assert(tokens_of(seq![')']) == seq![TokenView::Bclose]);
            assert(tokens_of(w) =~= node_tokens(n));
        },
        NodeView::Atoms(h, Some(t)) => {
            lemma_render_tokens(*h);
            lemma_render_tokens(*t);
            let rh = render(*h);
            let rt = render(*t);
            let t1 = seq![','] + rt;
            assert(w =~= rh + t1);
            lemma_tokens_append(rh, t1);
            assert(t1.drop_first() =~= rt);
            assert(tokens_of(t1) =~= seq![TokenView::Delim] + tokens_of(rt));
            assert(tokens_of(w) =~= node_tokens(n));
        },
        NodeView::Atoms(h, None) => {
            lemma_render_tokens(*h);
            assert(w =~= render(*h));
            assert(tokens_of(w) =~= node_tokens(n));
        },
        NodeView::And(a, b) => {
            lemma_render_tokens(*a);
            lemma_render_tokens(*b);
            let ra = render(*a);
            let rb = render(*b);
            let t1 = rb + seq![')'];
            let t2 = seq!['\u{2227}'] + t1;
            let t3 = ra + t2;
            assert(w =~= seq!['('] + t3);
            assert(w.first() == '(');
            assert(w.drop_first() =~= t3);
            lemma_tokens_append(ra, t2);
            assert(t2.drop_first() =~= t1);
            assert(tokens_of(t2) =~= seq![TokenView::Op('\u{2227}')] + tokens_of(t1));
            lemma_tokens_append(rb, seq![')']);
            lemma_tokens_glyph(')');
            assert(tokens_of(seq![')']) == seq![TokenView::Bclose]);
            assert(tokens_of(w) =~= node_tokens(n));
        },
        NodeView::Or(a, b) => {
            lemma_render_tokens(*a);
            lemma_render_tokens(*b);
            let ra = render(*a);
            let rb = render(*b);
            let t1 = rb + seq![')'];
            let t2 = seq!['\u{2228}'] + t1;
            let t3 = ra + t2;
            assert(w =~= seq!['('] + t3);
            assert(w.first() == '(');
            assert(w.drop_first() =~= t3);
            lemma_tokens_append(ra, t2);
            assert(t2.drop_first() =~= t1);
            assert(tokens_of(t2) =~= seq![TokenView::Op('\u{2228}')] + tokens_of(t1));
            lemma_tokens_append(rb, seq![')']);
            lemma_tokens_glyph(')');
            assert(tokens_of(seq![')']) == seq![TokenView::Bclose]);
            assert(tokens_of(w) =~= node_tokens(n));
        },
        NodeView::Neg(a) => {
            lemma_render_tokens(*a);
            assert(w =~= seq!['\u{00AC}'] + render(*a));
            assert(w.first() == '\u{00AC}');
            assert(w.drop_first() =~= render(*a));
            assert(tokens_of(w) =~= node_tokens(n));
        },
        NodeView::Query(f) => {
            lemma_render_tokens(*f);
            let rf = render(*f);
            let t1 = rf + seq!['.'];
            assert(w =~= seq!['?'] + t1);
            assert(w.first() == '?');
            assert(w.drop_first() =~= t1);
            lemma_tokens_append(rf, seq!['.']);
            lemma_tokens_glyph('.');
            assert(tokens_of(seq!['.']) == seq![TokenView::EOL]);
            assert(tokens_of(w) =~= node_tokens(n));
        },
        NodeView::Rule(h, b) => {
            lemma_render_tokens(*h);
            lemma_render_tokens(*b);
            let rh = render(*h);
            let rb = render(*b);
            let t1 = rb + seq!['.'];
            let t2 = seq![':', '-'] + t1;
            assert(w =~= rh + t2);
            assert(t2.first() == ':');
            lemma_tokens_append(rh, t2);
            assert(t2.len() >= 2 && t2[1] == '-');
            assert(t2.skip(2) =~= t1);
            assert(tokens_of(t2) =~= seq![TokenView::Arrow] + tokens_of(t1));
            lemma_tokens_append(rb, seq!['.']);
            lemma_tokens_glyph('.');
            assert(tokens_of(seq!['.']) == seq![TokenView::EOL]);
            assert(tokens_of(w) =~= node_tokens(n));
        },
    }
}

/// Parsing the tokens of a well-formed argument chain, followed by a
/// closing bracket or terminator, rebuilds the chain.
proof fn lemma_parse_atoms_rt(n: NodeView, rest: Seq<TokenView>)
    requires
        n is Atoms,
        wf_node(n),
        rest.len() > 0,
        rest.first() is Bclose || rest.first() is EOL,
    ensures
        spec_parse_atoms(node_tokens(n) + rest) == Ok::<
            (NodeView, Seq<TokenView>),
            crate::parser::ParseError,
        >((n, rest)),
    decreases n,
{
    let toks = node_tokens(n) + rest;
    match n {
        NodeView::Atoms(h, t) => {
            assert(wf_node(*h));
            let x = match *h {
                NodeView::Atom(y) => y,
                NodeView::Variable(y) => y,
                _ => arbitrary(),
            };
            let leaf = if x.len() > 0 && upper_char(x[0]) {
                NodeView::Variable(x)
            } else {
                NodeView::Atom(x)
            };
            match *h {
                NodeView::Atom(y) => {
                    assert(wf_name(y) && !upper_char(y[0]));
                    assert(leaf == *h);
                },
                NodeView::Variable(y) => {
                    assert(wf_name(y) && upper_char(y[0]));
                    assert(leaf == *h);
                },
                _ => {
                    assert(false);
                },
            }
            assert(node_tokens(*h) =~= seq![TokenView::Name(x)]);
            match t {
                None => {
                    assert(toks =~= seq![TokenView::Name(x)] + rest);
                    assert(toks.first() == TokenView::Name(x));
                    assert(toks.drop_first() =~= rest);
                },
                Some(tl) => {
                    let t1 = node_tokens(*tl) + rest;
                    let t2 = seq![TokenView::Delim] + t1;
                    assert(toks =~= seq![TokenView::Name(x)] + t2);
                    assert(toks.first() == TokenView::Name(x));
                    assert(toks.drop_first() =~= t2);
                    assert(t2.drop_first() =~= t1);
                    lemma_parse_atoms_rt(*tl, rest);
                },
            }
        },
        _ => {},
    }
}

/// Parsing the tokens of a well-formed fact, followed by anything that is
/// not an opening bracket, rebuilds the fact.
proof fn lemma_parse_fact_rt(n: NodeView, rest: Seq<TokenView>)
    requires
        n is Fact,
        wf_node(n),
        rest.len() == 0 || !(rest.first() is Bopen),
    ensures
        spec_parse_fact(node_tokens(n) + rest) == Ok::<
            (NodeView, Seq<TokenView>),
            crate::parser::ParseError,
        >((n, rest)),
{
    let toks = node_tokens(n) + rest;
    match n {
        NodeView::Fact(x, None) => {
            assert(toks =~= seq![TokenView::Name(x)] + rest);
            assert(toks.first() == TokenView::Name(x));
            assert(toks.drop_first() =~= rest);
        },
        NodeView::Fact(x, Some(a)) => {
            let t1 = seq![TokenView::Bclose] + rest;
            let t2 = node_tokens(*a) + t1;
            let t3 = seq![TokenView::Bopen] + t2;
            assert(toks =~= seq![TokenView::Name(x)] + t3);
            assert(toks.first() == TokenView::Name(x));
            assert(toks.drop_first() =~= t3);
            assert(t3.first() is Bopen);
            assert(t3.drop_first() =~= t2);
            lemma_parse_atoms_rt(*a, t1);
            assert(t1.first() is Bclose);
            assert(t1.drop_first() =~= rest);
        },
        _ => {},
    }
}

/// The bracketed AND group re-parses to its tree.
#[verifier::rlimit(100)]
proof fn lemma_parse_and_rt(e: NodeView, rest: Seq<TokenView>)
    requires
        e is And,
        wf_node(e),
        rest.len() == 0 || rest.first() is Op || rest.first() is Bclose || rest.first() is EOL,
    ensures
        spec_parse_term(node_tokens(e) + rest) == Ok::<
            (NodeView, Seq<TokenView>),
            crate::parser::ParseError,
        >((e, rest)),
    decreases e, 0int,
{
    let toks = node_tokens(e) + rest;
    match e {
        NodeView::And(a, b) => {
            let rb2 = seq![TokenView::Bclose] + rest;
            let nb = node_tokens(*b) + rb2;
            let ra2 = seq![TokenView::Op('\u{2227}')] + nb;
            let inner = node_tokens(*a) + ra2;
            assert(toks =~= seq![TokenView::Bopen] + inner);
            assert(toks.first() is Bopen);
            assert(toks.drop_first() =~= inner);
            lemma_parse_term_rt(*a, ra2);
            assert(spec_parse_term(inner) == Ok::<
                (NodeView, Seq<TokenView>),
                crate::parser::ParseError,
            >((*a, ra2)));
            assert(ra2.len() <= inner.len());
            assert(ra2.first() == TokenView::Op('\u{2227}'));
            assert(ra2.drop_first() =~= nb);
            lemma_parse_term_rt(*b, rb2);
            assert(rb2.len() < ra2.len());
            assert(spec_parse_conj_rest(*a, ra2) == spec_parse_conj_rest(
                NodeView::And(a, b),
                rb2,
            ));
            assert(rb2.first() is Bclose);
            assert(spec_parse_conj(inner) == Ok::<
                (NodeView, Seq<TokenView>),
                crate::parser::ParseError,
            >((NodeView::And(a, b), rb2)));
            assert(rb2.len() <= inner.len());
            assert(spec_parse_rule_rest(NodeView::And(a, b), rb2) == Ok::<
                (NodeView, Seq<TokenView>),
                crate::parser::ParseError,
            >((NodeView::And(a, b), rb2)));
            assert(spec_parse_rule(inner) == Ok::<
                (NodeView, Seq<TokenView>),
                crate::parser::ParseError,
            >((NodeView::And(a, b), rb2)));
            assert(rb2.drop_first() =~= rest);
        },
        _ => {},
    }
}

/// The bracketed OR group re-parses to its tree.
#[verifier::rlimit(100)]
proof fn lemma_parse_or_rt(e: NodeView, rest: Seq<TokenView>)
    requires
        e is Or,
        wf_node(e),
        rest.len() == 0 || rest.first() is Op || rest.first() is Bclose || rest.first() is EOL,
    ensures
        spec_parse_term(node_tokens(e) + rest) == Ok::<
            (NodeView, Seq<TokenView>),
            crate::parser::ParseError,
        >((e, rest)),
    decreases e, 0int,
{
    let toks = node_tokens(e) + rest;
    match e {
        NodeView::Or(a, b) => {
            let rb2 = seq![TokenView::Bclose] + rest;
            let nb = node_tokens(*b) + rb2;
            let ra2 = seq![TokenView::Op('\u{2228}')] + nb;
            let inner = node_tokens(*a) + ra2;
            assert(toks =~= seq![TokenView::Bopen] + inner);
            assert(toks.first() is Bopen);
            assert(toks.drop_first() =~= inner);
            lemma_parse_term_rt(*a, ra2);
            assert(spec_parse_term(inner) == Ok::<
                (NodeView, Seq<TokenView>),
                crate::parser::ParseError,
            >((*a, ra2)));
            assert(ra2.len() <= inner.len());
            assert(ra2.first() == TokenView::Op('\u{2228}'));
            assert(spec_parse_conj_rest(*a, ra2) == Ok::<
                (NodeView, Seq<TokenView>),
                crate::parser::ParseError,
            >((*a, ra2)));
            assert(spec_parse_conj(inner) == Ok::<
                (NodeView, Seq<TokenView>),
                crate::parser::ParseError,
            >((*a, ra2)));
            assert(ra2.drop_first() =~= nb);
            lemma_parse_term_rt(*b, rb2);
            assert(rb2.len() < ra2.len());
            assert(rb2.first() is Bclose);
            assert(spec_parse_conj(nb) == Ok::<
                (NodeView, Seq<TokenView>),
                crate::parser::ParseError,
            >((*b, rb2)));
            assert(spec_parse_rule_rest(*a, ra2) == spec_parse_rule_rest(
                NodeView::Or(a, b),
                rb2,
            ));
            assert(spec_parse_rule_rest(NodeView::Or(a, b), rb2) == Ok::<
                (NodeView, Seq<TokenView>),
                crate::parser::ParseError,
            >((NodeView::Or(a, b), rb2)));
            assert(spec_parse_rule(inner) == Ok::<
                (NodeView, Seq<TokenView>),
                crate::parser::ParseError,
            >((NodeView::Or(a, b), rb2)));
            assert(rb2.drop_first() =~= rest);
        },
        _ => {},
    }
}

/// Parsing the tokens of a well-formed body term, followed by a
/// connective, a closing bracket, the terminator or nothing, rebuilds the
/// term.
proof fn lemma_parse_term_rt(e: NodeView, rest: Seq<TokenView>)
    requires
        exprish(e),
        wf_node(e),
        rest.len() == 0 || rest.first() is Op || rest.first() is Bclose || rest.first() is EOL,
    ensures
        spec_parse_term(node_tokens(e) + rest) == Ok::<
            (NodeView, Seq<TokenView>),
            crate::parser::ParseError,
        >((e, rest)),
    decreases e, 1int,
{
    let toks = node_tokens(e) + rest;
    match e {
        NodeView::Fact(x, a) => {
            assert(toks.first() == node_tokens(e).first());
            assert(node_tokens(e).first() is Name);
            lemma_parse_fact_rt(e, rest);
        },
        NodeView::Neg(a) => {
            let t1 = node_tokens(*a) + rest;
            assert(toks =~= seq![TokenView::Neg] + t1);
            assert(toks.first() is Neg);
            assert(toks.drop_first() =~= t1);
            lemma_parse_term_rt(*a, rest);
        },
        NodeView::And(a, b) => {
            lemma_parse_and_rt(e, rest);
        },
        NodeView::Or(a, b) => {
            lemma_parse_or_rt(e, rest);
        },
        _ => {},
    }
}

/// Parsing the tokens of a well-formed body, followed by a closing
/// bracket, the terminator or nothing, rebuilds the body.
proof fn lemma_parse_expr_rt(e: NodeView, rest: Seq<TokenView>)
    requires
        exprish(e),
        wf_node(e),
        rest.len() == 0 || rest.first() is Bclose || rest.first() is EOL,
    ensures
        spec_parse_rule(node_tokens(e) + rest) == Ok::<
            (NodeView, Seq<TokenView>),
            crate::parser::ParseError,
        >((e, rest)),
{
    let toks = node_tokens(e) + rest;
    lemma_parse_term_rt(e, rest);
    assert(rest.len() <= toks.len());
    assert(spec_parse_conj_rest(e, rest) == Ok::<
        (NodeView, Seq<TokenView>),
        crate::parser::ParseError,
    >((e, rest)));
    assert(spec_parse_conj(toks) == Ok::<
        (NodeView, Seq<TokenView>),
        crate::parser::ParseError,
    >((e, rest)));
    assert(spec_parse_rule_rest(e, rest) == Ok::<
        (NodeView, Seq<TokenView>),
        crate::parser::ParseError,
    >((e, rest)));
}

/// Rendering a well-formed fact and tokenizing the text re-parses to the
/// very same fact, with nothing left over.
pub proof fn lemma_fact_round_trip(f: NodeView)
    requires
        f is Fact,
        wf_node(f),
    ensures
        spec_parse_fact(tokens_of(render(f))) == Ok::<
            (NodeView, Seq<TokenView>),
            crate::parser::ParseError,
        >((f, Seq::empty())),
{
    lemma_render_tokens(f);
    lemma_parse_fact_rt(f, Seq::empty());
    assert(node_tokens(f) + Seq::<TokenView>::empty() =~= node_tokens(f));
}

/// Rendering a well-formed body of facts under AND, OR and NOT and
/// tokenizing the text re-parses to the very same body, with nothing left
/// over.
pub proof fn lemma_expr_round_trip(e: NodeView)
    requires
        exprish(e),
        wf_node(e),
    ensures
        spec_parse_rule(tokens_of(render(e))) == Ok::<
            (NodeView, Seq<TokenView>),
            crate::parser::ParseError,
        >((e, Seq::empty())),
{
    lemma_render_tokens(e);
    lemma_parse_expr_rt(e, Seq::empty());
    assert(node_tokens(e) + Seq::<TokenView>::empty() =~= node_tokens(e));
}

/// Rendering a well-formed query or rule statement and tokenizing the
/// text re-parses to the very same statement, with only its terminator
/// left over.
pub proof fn lemma_stmt_round_trip(n: NodeView)
    requires
        n is Query || n is Rule,
        wf_node(n),
    ensures
        spec_parse_cmd(tokens_of(render(n))) == Ok::<
            (NodeView, Seq<TokenView>),
            crate::parser::ParseError,
        >((n, seq![TokenView::EOL])),
{
    lemma_render_tokens(n);
    let toks = node_tokens(n);
    match n {
        NodeView::Query(f) => {
            let t1 = node_tokens(*f) + seq![TokenView::EOL];
            assert(toks =~= seq![TokenView::Exists] + t1);
            assert(toks.first() is Exists);
            assert(toks.drop_first() =~= t1);
            lemma_parse_fact_rt(*f, seq![TokenView::EOL]);
            assert(spec_parse_query(t1) == Ok::<
                (NodeView, Seq<TokenView>),
                crate::parser::ParseError,
            >((NodeView::Query(f), seq![TokenView::EOL])));
        },
        NodeView::Rule(h, b) => {
            let t1 = node_tokens(*b) + seq![TokenView::EOL];
            let t2 = seq![TokenView::Arrow] + t1;
            assert(toks =~= node_tokens(*h) + t2);
            assert(toks.first() == node_tokens(*h).first());
            assert(node_tokens(*h).first() is Name);
            lemma_parse_fact_rt(*h, t2);
            assert(t2.first() is Arrow);
            assert(t2.drop_first() =~= t1);
            lemma_parse_expr_rt(*b, seq![TokenView::EOL]);
        },
        _ => {},
    }
}

} // verus!
