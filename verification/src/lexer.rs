//! The tokenizer.
//!
//! `consume` appends the tokens of a piece of text to an internal buffer in
//! first-in-first-out order; `pop` retrieves the oldest token and `peek`
//! looks at it without removing it. The buffer may be fed one line at a
//! time, so a statement can span several calls.

use vstd::prelude::*;

use crate::charclass::{alpha_char, name_char, space_char};
use crate::charclass::{is_alphabetic_char, is_name_char, is_whitespace_char};

verus! {

/// A lexical token. `Name` carries raw identifier text; classification of
/// names into atoms and variables is left to the parser, which has
/// grammatical context.
#[derive(Debug, PartialEq)]
pub enum Tokens {
    Name(String),
    Bopen,
    Bclose,
    Op(char),
    Exists,
    Seperator,
    Neg,
    Arrow,
    Delim,
    EOL,
    EOF,
}

/// The mathematical image of a token: identifier text as a character
/// sequence.
pub enum TokenView {
    Name(Seq<char>),
    Bopen,
    Bclose,
    Op(char),
    Exists,
    Seperator,
    Neg,
    Arrow,
    Delim,
    EOL,
    EOF,
}

impl View for Tokens {
    type V = TokenView;

    open spec fn view(&self) -> TokenView {
        match self {
            Tokens::Name(s) => TokenView::Name(s@),
            Tokens::Bopen => TokenView::Bopen,
            Tokens::Bclose => TokenView::Bclose,
            Tokens::Op(c) => TokenView::Op(*c),
            Tokens::Exists => TokenView::Exists,
            Tokens::Seperator => TokenView::Seperator,
            Tokens::Neg => TokenView::Neg,
            Tokens::Arrow => TokenView::Arrow,
            Tokens::Delim => TokenView::Delim,
            Tokens::EOL => TokenView::EOL,
            Tokens::EOF => TokenView::EOF,
        }
    }
}

/// Length of the maximal leading run of identifier characters.
pub open spec fn name_run(s: Seq<char>) -> nat
    decreases s.len(),
{
    if s.len() > 0 && name_char(s[0]) {
        (1 + name_run(s.drop_first())) as nat
    } else {
        0
    }
}

pub proof fn lemma_name_run_le(s: Seq<char>)
    ensures
        name_run(s) <= s.len(),
    decreases s.len(),
{
    if s.len() > 0 && name_char(s[0]) {
        lemma_name_run_le(s.drop_first());
    }
}

/// The maximal run is exactly `m` when the first `m` characters are
/// identifier characters and the next one, if any, is not.
pub proof fn lemma_name_run_is(s: Seq<char>, m: int)
    requires
        0 <= m <= s.len(),
        forall|k: int| 0 <= k < m ==> name_char(#[trigger] s[k]),
        m == s.len() || !name_char(s[m]),
    ensures
        name_run(s) == m,
    decreases m,
{
    if m == 0 {
    } else {
        assert(name_char(s[0]));
        lemma_name_run_is(s.drop_first(), m - 1);
    }
}

/// The token sequence a piece of text tokenizes to, oldest first.
///
/// Single glyphs map to their tokens; a colon followed by a dash becomes a
/// rule arrow and consumes both characters; whitespace is skipped; an
/// alphabetic character starts a maximal run of identifier characters,
/// emitted as one `Name`; anything else is silently dropped.
pub open spec fn tokens_of(s: Seq<char>) -> Seq<TokenView>
    decreases s.len(),
    via tokens_of_decreases
{
    if s.len() == 0 {
        Seq::empty()
    } else {
        let c = s[0];
        let rest = s.drop_first();
        if c == '(' {
            seq![TokenView::Bopen] + tokens_of(rest)
        } else if c == ')' {
            seq![TokenView::Bclose] + tokens_of(rest)
        } else if c == '\u{2227}' {
            seq![TokenView::Op('\u{2227}')] + tokens_of(rest)
        } else if c == '\u{2228}' {
            seq![TokenView::Op('\u{2228}')] + tokens_of(rest)
        } else if c == '\u{00AC}' {
            seq![TokenView::Neg] + tokens_of(rest)
        } else if c == '.' {
            seq![TokenView::EOL] + tokens_of(rest)
        } else if c == ',' {
            seq![TokenView::Delim] + tokens_of(rest)
        } else if c == '?' {
            seq![TokenView::Exists] + tokens_of(rest)
        } else if c == ':' {
            if s.len() >= 2 && s[1] == '-' {
                seq![TokenView::Arrow] + tokens_of(s.skip(2))
            } else {
                seq![TokenView::Seperator] + tokens_of(rest)
            }
        } else if space_char(c) {
            tokens_of(rest)
        } else if alpha_char(c) {
            let l = name_run(s) as int;
            seq![TokenView::Name(s.subrange(0, l))] + tokens_of(s.skip(l))
        } else {
            tokens_of(rest)
        }
    }
}

#[via_fn]
proof fn tokens_of_decreases(s: Seq<char>) {
    if s.len() > 0 {
        lemma_name_run_le(s);
    }
}

/// The token buffer. Tokens stand in pop order: the oldest at index 0.
#[derive(Debug)]
pub struct Lexer {
    pub buffer: Vec<Tokens>,
}

impl View for Lexer {
    type V = Seq<TokenView>;

    open spec fn view(&self) -> Seq<TokenView> {
        self.buffer@.map_values(|t: Tokens| t@)
    }
}

impl Lexer {
    /// A fresh lexer holding the tokens of `text`.
    pub fn new(text: String) -> (lex: Self)
        ensures
            lex@ == tokens_of(text@),
    {
        let mut lex = Lexer { buffer: Vec::new() };
        lex.consume(text);
        proof {
            assert(lex@ =~= tokens_of(text@));
        }
        lex
    }

    /// Tokenizes `text` and appends its tokens to the buffer.
    pub fn consume(&mut self, text: String)
        ensures
            final(self)@ == old(self)@ + tokens_of(text@),
    {
        let s: &str = text.as_str();
        let n: usize = s.unicode_len();
        let mut i: usize = 0;
        proof {
            assert(text@.skip(0) =~= text@);
        }
        while i < n
            invariant
                i <= n,
                n == s@.len(),
                s@ == text@,
                old(self)@ + tokens_of(text@) == self@ + tokens_of(text@.skip(i as int)),
            decreases n - i,
        {
            let ghost rem = text@.skip(i as int);
            proof {
                assert(rem.len() == n - i);
                assert(rem[0] == text@[i as int]);
                assert(rem.drop_first() =~= text@.skip(i as int + 1));
            }
            let c = s.get_char(i);
            if c == '(' {
                self.push_tok(Tokens::Bopen);
                i = i + 1;
            } else if c == ')' {
                self.push_tok(Tokens::Bclose);
                i = i + 1;
            } else if c == '\u{2227}' {
                self.push_tok(Tokens::Op('\u{2227}'));
                i = i + 1;
            } else if c == '\u{2228}' {
                self.push_tok(Tokens::Op('\u{2228}'));
                i = i + 1;
            } else if c == '\u{00AC}' {
                self.push_tok(Tokens::Neg);
                i = i + 1;
            } else if c == '.' {
                self.push_tok(Tokens::EOL);
                i = i + 1;
            } else if c == ',' {
                self.push_tok(Tokens::Delim);
                i = i + 1;
            } else if c == '?' {
                self.push_tok(Tokens::Exists);
                i = i + 1;
            } else if c == ':' {
                if i + 1 < n && s.get_char(i + 1) == '-' {
                    proof {
                        assert(rem.len() >= 2 && rem[1] == '-');
                        assert(rem.skip(2) =~= text@.skip(i as int + 2));
                    }
                    self.push_tok(Tokens::Arrow);
                    i = i + 2;
                } else {
                    self.push_tok(Tokens::Seperator);
                    i = i + 1;
                }
            } else if is_whitespace_char(c) {
                i = i + 1;
            } else if is_alphabetic_char(c) {
                let mut j: usize = i + 1;
                while j < n && is_name_char(s.get_char(j))
                    invariant
                        i < j <= n,
                        n == s@.len(),
                        s@ == text@,
                        forall|k: int| i < k < j ==> name_char(#[trigger] text@[k]),
                    decreases n - j,
                {
                    j = j + 1;
                }
                proof {
                    assert(name_char(rem[0]));
                    assert forall|k: int| 0 <= k < j - i implies name_char(#[trigger] rem[k]) by {
                        assert(rem[k] == text@[i + k]);
                    }
                    if j < n {
                        assert(rem[j - i] == text@[j as int]);
                    }
                    lemma_name_run_is(rem, j - i);
                    assert(rem.subrange(0, j - i) =~= text@.subrange(i as int, j as int));
                    assert(rem.skip(j - i) =~= text@.skip(j as int));
                }
                let name_str = s.substring_char(i, j);
                self.push_tok(Tokens::Name(String::from_str(name_str)));
                i = j;
            } else {
                i = i + 1;
            }
        }
        proof {
            assert(text@.skip(n as int) =~= Seq::<char>::empty());
            assert(tokens_of(text@.skip(n as int)) =~= Seq::<TokenView>::empty());
            assert(self@ =~= old(self)@ + tokens_of(text@));
        }
    }

    /// Appends one token at the newest end of the buffer.
    fn push_tok(&mut self, t: Tokens)
        ensures
            final(self)@ == old(self)@ + seq![t@],
    {
        self.buffer.push(t);
        proof {
            assert(self@ =~= old(self)@ + seq![t@]);
        }
    }

    /// Removes and returns the oldest token, if any.
    pub fn pop(&mut self) -> (r: Option<Tokens>)
        ensures
            match r {
                Some(t) => old(self)@.len() > 0 && t@ == old(self)@.first() && final(self)@
                    == old(self)@.drop_first(),
                None => old(self)@.len() == 0 && final(self)@ == old(self)@,
            },
    {
        if self.buffer.len() == 0 {
            None
        } else {
            let t = self.buffer.remove(0);
            proof {
                assert(self@ =~= old(self)@.drop_first());
            }
            Some(t)
        }
    }

    /// The oldest token, left in place.
    pub fn peek(&self) -> (r: Option<&Tokens>)
        ensures
            match r {
                Some(t) => self@.len() > 0 && t@ == self@.first(),
                None => self@.len() == 0,
            },
    {
        if self.buffer.len() == 0 {
            None
        } else {
            Some(&self.buffer[0])
        }
    }
}

} // verus!
