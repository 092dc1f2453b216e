//! The parser of the small "let" language.
use crate::ast::{
    statements_view, ExpressionView, Expression, Identifier, IdentifierView, IntegerLiteral,
    LetStatement, LetView, Program, Statement, StatementView,
};
use crate::lexer::{lex_all, lemma_lex_step_progress, Lexer};
use crate::text::{push_str, string_of};
use crate::token::{literal_of, Token, TokenView};
use vstd::prelude::*;

verus! {

/// The token at `i`, or `Eof` past the end.
pub open spec fn tok_at(toks: Seq<TokenView>, i: int) -> TokenView {
    if 0 <= i < toks.len() {
        toks[i]
    } else {
        TokenView::Eof
    }
}

/// The error for a token that is not the one expected next.
pub open spec fn expect_error(expected: Seq<char>, got: TokenView) -> Seq<char> {
    "expected next token to be "@ + expected + ", got "@ + literal_of(got) + " instead"@
}

/// The error for a token that starts no expression.
pub open spec fn expression_error(got: TokenView) -> Seq<char> {
    "no expression starts with "@ + literal_of(got)
}

/// The expression a single token makes, if any.
pub open spec fn expression_of(t: TokenView) -> Option<ExpressionView> {
    match t {
        TokenView::Ident(s) => Some(ExpressionView::Identifier(IdentifierView { token: t, value: s })),
        TokenView::Int(v) => Some(ExpressionView::IntegerLiteral(t, v)),
        _ => None,
    }
}

/// Parsing `let <ident> = <expr> [;]` with its `let` at `c`: the statement,
/// the position of the last token used, and the errors met.
pub open spec fn let_at(toks: Seq<TokenView>, c: int) -> (Option<LetView>, int, Seq<Seq<char>>) {
    let name = tok_at(toks, c + 1);
    if !(name is Ident) {
        (None, c, seq![expect_error("Ident"@, name)])
    } else if !(tok_at(toks, c + 2) is Assign) {
        (None, c + 1, seq![expect_error("Assign"@, tok_at(toks, c + 2))])
    } else {
        match expression_of(tok_at(toks, c + 3)) {
            None => (None, c + 3, seq![expression_error(tok_at(toks, c + 3))]),
            Some(e) => {
                let end = if tok_at(toks, c + 4) is Semicolon {
                    c + 4
                } else {
                    c + 3
                };
                (
                    Some(
                        LetView {
                            token: tok_at(toks, c),
                            name: IdentifierView { token: name, value: name->Ident_0 },
                            value: e,
                        },
                    ),
                    end,
                    Seq::empty(),
                )
            },
        }
    }
}

/// The statements and errors of parsing from token `c` to the first `Eof`.
pub open spec fn program_from(toks: Seq<TokenView>, c: int) -> (
    Seq<StatementView>,
    Seq<Seq<char>>,
)
    decreases toks.len() - c,
{
    if c < 0 || c >= toks.len() || toks[c] is Eof {
        (Seq::empty(), Seq::empty())
    } else if toks[c] is Let {
        let (s, end, errs) = let_at(toks, c);
        if end < c || end >= toks.len() {
            (Seq::empty(), errs)
        } else {
            let rest = program_from(toks, end + 1);
            (
                match s {
                    Some(l) => seq![StatementView::Let(l)] + rest.0,
                    None => rest.0,
                },
                errs + rest.1,
            )
        }
    } else {
        program_from(toks, c + 1)
    }
}

/// Builds a syntax tree from a lexer's tokens.
pub struct Parser {
    tokens: Vec<Token>,
    position: usize,
    errors: Vec<String>,
}

pub open spec fn tokens_view(ts: Seq<Token>) -> Seq<TokenView> {
    ts.map_values(|t: Token| t@)
}

pub open spec fn texts_view(ss: Seq<String>) -> Seq<Seq<char>> {
    ss.map_values(|s: String| s@)
}

impl Parser {
    /// The tokens being parsed.
    pub closed spec fn tokens(&self) -> Seq<TokenView> {
        tokens_view(self.tokens@)
    }

    /// The position of the current token.
    pub closed spec fn pos(&self) -> int {
        self.position as int
    }

    /// The errors met so far.
    pub closed spec fn error_texts(&self) -> Seq<Seq<char>> {
        texts_view(self.errors@)
    }

    /// A parser over every token of `lexer` up to the first `Eof`.
    pub fn new(lexer: Lexer) -> (r: Self)
        requires
            lexer.wf(),
        ensures
            r.tokens() == lex_all(lexer.text(), lexer.pos()),
            r.pos() == 0,
            r.error_texts() == Seq::<Seq<char>>::empty(),
    {
        let mut lexer = lexer;
        let ghost text = lexer.text();
        let ghost start = lexer.pos();
        let mut tokens: Vec<Token> = Vec::new();
        proof {
            lexer.lemma_wf();
            assert(tokens_view(tokens@) + lex_all(text, lexer.pos()) =~= lex_all(text, start));
        }
        let mut done = false;
        while !done
            invariant
                lexer.wf(),
                lexer.text() == text,
                0 <= lexer.pos() <= text.len(),
                done ==> tokens_view(tokens@) == lex_all(text, start),
                !done ==> tokens_view(tokens@) + lex_all(text, lexer.pos()) == lex_all(text, start),
            decreases 2 * (text.len() - lexer.pos()) + (if done { 0int } else { 1int }),
        {
            let ghost p = lexer.pos();
            proof {
                lemma_lex_step_progress(text, p);
            }
            let t = lexer.next_token();
            proof {
                lexer.lemma_wf();
            }
            let eof = match t {
                Token::Eof => true,
                _ => false,
            };
            let ghost before = tokens@;
            tokens.push(t);
            proof {
                assert(tokens_view(tokens@) =~= tokens_view(before).push(t@));
            }
            if eof {
                assert(tokens_view(tokens@) =~= lex_all(text, start));
                done = true;
            } else {
                assert(tokens_view(tokens@) + lex_all(text, lexer.pos()) =~= tokens_view(before)
                    + lex_all(text, p));
            }
        }
        let r = Parser { tokens, position: 0, errors: Vec::new() };
        assert(r.error_texts() =~= Seq::<Seq<char>>::empty());
        r
    }

    /// The errors met so far.
    pub fn errors(&self) -> (r: &Vec<String>)
        ensures
            texts_view(r@) == self.error_texts(),
    {
        &self.errors
    }

    /// The token `k` places after position `c`, or `Eof` past the end.
    fn token_after(&self, c: usize, k: usize) -> (r: Token)
        ensures
            r@ == tok_at(self.tokens(), c + k),
    {
        let n = self.tokens.len();
        if c >= n || k >= n - c {
            Token::Eof
        } else {
            assert(self.tokens()[c + k] == self.tokens@[c + k]@);
            self.tokens[c + k].duplicate()
        }
    }

    fn push_error(&mut self, cs: &Vec<char>)
        ensures
            final(self).tokens() == old(self).tokens(),
            final(self).pos() == old(self).pos(),
            final(self).error_texts() == old(self).error_texts().push(cs@),
    {
        let e = string_of(cs.as_slice());
        let ghost before = self.errors@;
        self.errors.push(e);
        assert(texts_view(self.errors@) =~= texts_view(before).push(cs@));
    }

    fn expect_error(&mut self, expected: &str, got: &Token)
        ensures
            final(self).tokens() == old(self).tokens(),
            final(self).pos() == old(self).pos(),
            final(self).error_texts() == old(self).error_texts().push(
                expect_error(expected@, got@),
            ),
    {
        let mut cs: Vec<char> = Vec::new();
        push_str(&mut cs, "expected next token to be ");
        push_str(&mut cs, expected);
        push_str(&mut cs, ", got ");
        let lit = got.token_literal();
        push_str(&mut cs, lit.as_str());
        push_str(&mut cs, " instead");
        assert(cs@ =~= expect_error(expected@, got@));
        self.push_error(&cs);
    }

    /// Parses a `let` statement whose `let` is at `c`; returns it (if any)
    /// and the position of the last token used.
    fn parse_let_statement(&mut self, c: usize) -> (r: (Option<LetStatement>, usize))
        requires
            c < old(self).tokens().len(),
        ensures
            final(self).tokens() == old(self).tokens(),
            final(self).pos() == old(self).pos(),
            ({
                let (s, end, errs) = let_at(old(self).tokens(), c as int);
                &&& r.1 == end
                &&& match r.0 {
                    Some(l) => s == Some(l@),
                    None => s is None,
                }
                &&& final(self).error_texts() == old(self).error_texts() + errs
            }),
    {
        let ghost toks = self.tokens();
        let ghost errs0 = self.error_texts();
        let n = self.tokens.len();
        let let_token = self.token_after(c, 0);
        let name = self.token_after(c, 1);
        let name_text = match &name {
            Token::Ident(s) => s.clone(),
            _ => {
                self.expect_error("Ident", &name);
                proof {
                    reveal_strlit("Ident");
                    assert(self.error_texts() =~= errs0 + let_at(toks, c as int).2);
                }
                return (None, c);
            },
        };
        let assign = self.token_after(c, 2);
        match assign {
            Token::Assign => {},
            _ => {
                self.expect_error("Assign", &assign);
                proof {
                    reveal_strlit("Assign");
                    assert(self.error_texts() =~= errs0 + let_at(toks, c as int).2);
                }
                return (None, c + 1);
            },
        }
        let value_token = self.token_after(c, 3);
        let value = match value_token {
            Token::Ident(s) => {
                let t = Token::Ident(s.clone());
                Expression::Identifier(Identifier { token: t, value: s })
            },
            Token::Int(v) => Expression::IntegerLiteral(IntegerLiteral { token: Token::Int(v), value: v }),
            other => {
                let mut cs: Vec<char> = Vec::new();
                push_str(&mut cs, "no expression starts with ");
                let lit = other.token_literal();
                push_str(&mut cs, lit.as_str());
                assert(cs@ =~= crate::parser::expression_error(other@));
                self.push_error(&cs);
                assert(self.error_texts() =~= errs0 + let_at(toks, c as int).2);
                return (None, c + 3);
            },
        };
        let after = self.token_after(c, 4);
        let end = match after {
            Token::Semicolon => c + 4,
            _ => c + 3,
        };
        assert(self.error_texts() =~= errs0 + Seq::<Seq<char>>::empty());
        let name_token = Token::Ident(name_text.clone());
        (Some(LetStatement { token: let_token, name: Identifier { token: name_token, value: name_text }, value }), end)
    }

    /// Parses statements from the current token up to the first `Eof`.
    pub fn parse_program(&mut self) -> (r: Program)
        ensures
            final(self).tokens() == old(self).tokens(),
            statements_view(r.statements@) == program_from(old(self).tokens(), old(self).pos()).0,
            final(self).error_texts() == old(self).error_texts() + program_from(
                old(self).tokens(),
                old(self).pos(),
            ).1,
    {
        let ghost toks = self.tokens();
        let ghost start = self.pos();
        let ghost errs0 = self.error_texts();
        let mut statements: Vec<Statement> = Vec::new();
        let n = self.tokens.len();
        proof {
            assert(statements_view(statements@) + program_from(toks, start).0 =~= program_from(
                toks,
                start,
            ).0);
            assert(errs0 + program_from(toks, start).1 =~= errs0 + program_from(toks, start).1);
        }
        while self.position < n
            invariant
                n == self.tokens@.len(),
                self.tokens() == toks,
                toks.len() == n,
                statements_view(statements@) + program_from(toks, self.pos()).0 == program_from(
                    toks,
                    start,
                ).0,
                self.error_texts() + program_from(toks, self.pos()).1 == errs0 + program_from(
                    toks,
                    start,
                ).1,
            decreases n - self.position,
        {
            let c = self.position;
            assert(toks[c as int] == self.tokens@[c as int]@);
            let is_eof = match self.tokens[c] {
                Token::Eof => true,
                _ => false,
            };
            let is_let = match self.tokens[c] {
                Token::Let => true,
                _ => false,
            };
            if is_eof {
                self.position = n;
                assert(program_from(toks, c as int).0 =~= Seq::<StatementView>::empty());
            } else if is_let {
                let ghost before = statements@;
                let ghost errs_before = self.error_texts();
                let (s, end) = self.parse_let_statement(c);
                proof {
                    assert(c <= end);
                }
                match s {
                    Some(l) => {
                        statements.push(Statement::Let(l));
                        proof {
                            assert(statements_view(statements@) =~= statements_view(before).push(
                                statements@.last()@,
                            ));
                        }
                    },
                    None => {},
                }
                if end >= n {
                    self.position = n;
                    proof {
                        assert(statements_view(statements@) =~= statements_view(before));
                        assert(statements_view(statements@) + program_from(toks, n as int).0
                            =~= statements_view(before) + program_from(toks, c as int).0);
                        assert(self.error_texts() + program_from(toks, n as int).1 =~= errs_before
                            + program_from(toks, c as int).1);
                    }
                } else {
                    self.position = end + 1;
                    proof {
                        let rest = program_from(toks, end + 1);
                        assert(statements_view(statements@) + rest.0 =~= statements_view(before)
                            + program_from(toks, c as int).0);
                        assert(self.error_texts() + rest.1 =~= errs_before + program_from(
                            toks,
                            c as int,
                        ).1);
                    }
                }
            } else {
                self.position = c + 1;
            }
        }
        assert(statements_view(statements@) =~= program_from(toks, start).0);
        assert(self.error_texts() =~= errs0 + program_from(toks, start).1);
        Program { statements }
    }
}

} // verus!
