//! The lexer of the small "let" language.
use crate::text::{chars_of, string_of};
use crate::token::{Token, TokenView};
use vstd::prelude::*;

verus! {

/// Whether a character has the Unicode White_Space property.
pub uninterp spec fn is_space(c: char) -> bool;

/// Whether a character has the Unicode Alphabetic property.
pub uninterp spec fn is_letter(c: char) -> bool;

/// Relies on char::is_whitespace: the Unicode White_Space property.
#[verifier::external_body]
fn char_is_whitespace(c: char) -> (r: bool)
    ensures
        r == is_space(c),
{
    c.is_whitespace()
}

/// Relies on char::is_alphabetic: the Unicode Alphabetic property.
#[verifier::external_body]
fn char_is_alphabetic(c: char) -> (r: bool)
    ensures
        r == is_letter(c),
{
    c.is_alphabetic()
}

pub open spec fn is_ident_char(c: char) -> bool {
    is_letter(c) || c == '_'
}

pub open spec fn is_decimal_digit(c: char) -> bool {
    '0' <= c <= '9'
}

/// The character at `pos`, or NUL past the end.
pub open spec fn char_at(input: Seq<char>, pos: int) -> char {
    if 0 <= pos < input.len() {
        input[pos]
    } else {
        '\0'
    }
}

/// The first position at or after `pos` that holds no whitespace.
pub open spec fn skip_spaces(input: Seq<char>, pos: int) -> int
    decreases input.len() - pos,
{
    if 0 <= pos < input.len() && is_space(input[pos]) {
        skip_spaces(input, pos + 1)
    } else {
        pos
    }
}

/// The end of the run of characters starting at `pos` that satisfy `p`.
pub open spec fn run_end(input: Seq<char>, pos: int, p: spec_fn(char) -> bool) -> int
    decreases input.len() - pos,
{
    if 0 <= pos < input.len() && p(input[pos]) {
        run_end(input, pos + 1, p)
    } else {
        pos
    }
}

/// The value of a string of decimal digits.
pub open spec fn decimal_value(ds: Seq<char>) -> nat
    decreases ds.len(),
{
    if ds.len() == 0 {
        0
    } else {
        10 * decimal_value(ds.drop_last()) + (ds.last() as nat - '0' as nat) as nat
    }
}

/// A keyword, or an identifier.
pub open spec fn word_token(w: Seq<char>) -> TokenView {
    if w == seq!['f', 'n'] {
        TokenView::Function
    } else if w == seq!['l', 'e', 't'] {
        TokenView::Let
    } else {
        TokenView::Ident(w)
    }
}

/// The token for a single-character symbol, if `c` is one.
pub open spec fn symbol_token(c: char) -> Option<TokenView> {
    if c == '=' {
        Some(TokenView::Assign)
    } else if c == ';' {
        Some(TokenView::Semicolon)
    } else if c == '(' {
        Some(TokenView::LParen)
    } else if c == ')' {
        Some(TokenView::RParen)
    } else if c == ',' {
        Some(TokenView::Comma)
    } else if c == '+' {
        Some(TokenView::Plus)
    } else if c == '-' {
        Some(TokenView::Minus)
    } else if c == '!' {
        Some(TokenView::Bang)
    } else if c == '/' {
        Some(TokenView::Slash)
    } else if c == '*' {
        Some(TokenView::Asterisk)
    } else if c == '{' {
        Some(TokenView::LBrace)
    } else if c == '}' {
        Some(TokenView::RBrace)
    } else if c == '\0' {
        Some(TokenView::Eof)
    } else {
        None
    }
}

/// The token read from `pos` on, and the position after it. A number too
/// large for `i64` is an illegal token.
pub open spec fn lex_step(input: Seq<char>, pos: int) -> (TokenView, int) {
    let p = skip_spaces(input, pos);
    let c = char_at(input, p);
    if p >= input.len() {
        (TokenView::Eof, p)
    } else if let Some(t) = symbol_token(c) {
        (t, p + 1)
    } else if is_ident_char(c) {
        let q = run_end(input, p, |x: char| is_ident_char(x));
        (word_token(input.subrange(p, q)), q)
    } else if is_decimal_digit(c) {
        let q = run_end(input, p, |x: char| is_decimal_digit(x));
        let v = decimal_value(input.subrange(p, q));
        (if v <= i64::MAX { TokenView::Int(v as i64) } else { TokenView::Illegal }, q)
    } else {
        (TokenView::Illegal, p + 1)
    }
}

/// Every token from `pos` up to and including the first `Eof`.
pub open spec fn lex_all(input: Seq<char>, pos: int) -> Seq<TokenView>
    decreases input.len() - pos,
{
    let (t, q) = lex_step(input, pos);
    if t is Eof || q <= pos || q > input.len() {
        seq![t]
    } else {
        seq![t] + lex_all(input, q)
    }
}

pub proof fn lemma_skip_spaces_bounds(input: Seq<char>, pos: int)
    requires
        0 <= pos <= input.len(),
    ensures
        pos <= skip_spaces(input, pos) <= input.len(),
    decreases input.len() - pos,
{
    if 0 <= pos < input.len() && is_space(input[pos]) {
        lemma_skip_spaces_bounds(input, pos + 1);
    }
}

pub proof fn lemma_run_end_bounds(input: Seq<char>, pos: int, p: spec_fn(char) -> bool)
    requires
        0 <= pos <= input.len(),
    ensures
        pos <= run_end(input, pos, p) <= input.len(),
        pos < input.len() && p(input[pos]) ==> pos < run_end(input, pos, p),
    decreases input.len() - pos,
{
    if 0 <= pos < input.len() && p(input[pos]) {
        lemma_run_end_bounds(input, pos + 1, p);
    }
}

/// Each token but `Eof` moves the position forward, never past the end.
pub proof fn lemma_lex_step_progress(input: Seq<char>, pos: int)
    requires
        0 <= pos <= input.len(),
    ensures
        !(lex_step(input, pos).0 is Eof) ==> pos < lex_step(input, pos).1 <= input.len(),
        pos <= lex_step(input, pos).1,
        lex_step(input, pos).1 <= input.len() + 1,
        0 <= lex_step(input, pos).1,
{
    let p = skip_spaces(input, pos);
    lemma_skip_spaces_bounds(input, pos);
    lemma_run_end_bounds(input, p, |x: char| is_ident_char(x));
    lemma_run_end_bounds(input, p, |x: char| is_decimal_digit(x));
}

/// Turns source text into tokens, one at a time.
pub struct Lexer {
    input: Vec<char>,
    position: usize,
}

impl Lexer {
    /// The characters being read.
    pub closed spec fn text(&self) -> Seq<char> {
        self.input@
    }

    /// The position of the next character to read.
    pub closed spec fn pos(&self) -> int {
        self.position as int
    }

    /// The position never passes the end of the text.
    pub closed spec fn wf(&self) -> bool {
        self.position <= self.input@.len()
    }

    pub proof fn lemma_wf(&self)
        requires
            self.wf(),
        ensures
            0 <= self.pos() <= self.text().len(),
    {
    }

    /// A lexer at the start of `input`.
    pub fn new(input: &str) -> (r: Self)
        ensures
            r.wf(),
            r.text() == input@,
            r.pos() == 0,
    {
        Lexer { input: chars_of(input), position: 0 }
    }

    fn current(&self) -> (r: char)
        ensures
            r == char_at(self.text(), self.pos()),
    {
        if self.position < self.input.len() {
            self.input[self.position]
        } else {
            '\0'
        }
    }

    /// Reads the next token; at the end of the input, `Eof` each time.
    pub fn next_token(&mut self) -> (r: Token)
        requires
            old(self).wf(),
        ensures
            final(self).wf(),
            final(self).text() == old(self).text(),
            (r@, final(self).pos()) == lex_step(old(self).text(), old(self).pos()),
    {
        let ghost input = self.input@;
        let ghost start = self.position as int;
        let n = self.input.len();
        while self.position < n && char_is_whitespace(self.input[self.position])
            invariant
                self.input@ == input,
                n == input.len(),
                start <= self.position <= n,
                skip_spaces(input, start) == skip_spaces(input, self.position as int),
            decreases n - self.position,
        {
            self.position = self.position + 1;
        }
        if self.position >= n {
            return Token::Eof;
        }
        let c = self.current();
        let symbol = match c {
            '=' => Some(Token::Assign),
            ';' => Some(Token::Semicolon),
            '(' => Some(Token::LParen),
            ')' => Some(Token::RParen),
            ',' => Some(Token::Comma),
            '+' => Some(Token::Plus),
            '-' => Some(Token::Minus),
            '!' => Some(Token::Bang),
            '/' => Some(Token::Slash),
            '*' => Some(Token::Asterisk),
            '{' => Some(Token::LBrace),
            '}' => Some(Token::RBrace),
            '\0' => Some(Token::Eof),
            _ => None,
        };
        if let Some(t) = symbol {
            self.position = self.position + 1;
            return t;
        }
        if char_is_alphabetic(c) || c == '_' {
            return self.read_word();
        }
        if '0' <= c && c <= '9' {
            return self.read_number();
        }
        self.position = self.position + 1;
        Token::Illegal
    }

    /// Reads an identifier or keyword starting at the current character.
    fn read_word(&mut self) -> (r: Token)
        requires
            old(self).pos() < old(self).text().len(),
            is_ident_char(old(self).text()[old(self).pos()]),
        ensures
            final(self).text() == old(self).text(),
            final(self).wf(),
            final(self).pos() == run_end(old(self).text(), old(self).pos(), |x: char| is_ident_char(x)),
            r@ == word_token(old(self).text().subrange(old(self).pos(), final(self).pos())),
    {
        let ghost input = self.input@;
        let ghost p = |x: char| is_ident_char(x);
        let start = self.position;
        let n = self.input.len();
        while self.position < n && (char_is_alphabetic(self.input[self.position])
            || self.input[self.position] == '_')
            invariant
                self.input@ == input,
                n == input.len(),
                start <= self.position <= n,
                p == (|x: char| is_ident_char(x)),
                run_end(input, start as int, p) == run_end(input, self.position as int, p),
            decreases n - self.position,
        {
            self.position = self.position + 1;
        }
        let end = self.position;
        let word = &self.input.as_slice()[start..end];
        self.keyword_or_ident(word)
    }

    fn keyword_or_ident(&self, word: &[char]) -> (r: Token)
        ensures
            r@ == word_token(word@),
    {
        if word.len() == 2 && word[0] == 'f' && word[1] == 'n' {
            assert(word@ =~= seq!['f', 'n']);
            return Token::Function;
        }
        if word.len() == 3 && word[0] == 'l' && word[1] == 'e' && word[2] == 't' {
            assert(word@ =~= seq!['l', 'e', 't']);
            return Token::Let;
        }
        Token::Ident(string_of(word))
    }

    /// Reads a run of decimal digits starting at the current character.
    fn read_number(&mut self) -> (r: Token)
        requires
            old(self).pos() < old(self).text().len(),
            is_decimal_digit(old(self).text()[old(self).pos()]),
        ensures
            final(self).text() == old(self).text(),
            final(self).wf(),
            final(self).pos() == run_end(
                old(self).text(),
                old(self).pos(),
                |x: char| is_decimal_digit(x),
            ),
            ({
                let v = decimal_value(old(self).text().subrange(old(self).pos(), final(self).pos()));
                r@ == (if v <= i64::MAX { TokenView::Int(v as i64) } else { TokenView::Illegal })
            }),
    {
        let ghost input = self.input@;
        let ghost p = |x: char| is_decimal_digit(x);
        let start = self.position;
        let n = self.input.len();
        let mut value: i64 = 0;
        let mut fits = true;
        while self.position < n && '0' <= self.input[self.position] && self.input[self.position] <= '9'
            invariant
                self.input@ == input,
                n == input.len(),
                start <= self.position <= n,
                p == (|x: char| is_decimal_digit(x)),
                run_end(input, start as int, p) == run_end(input, self.position as int, p),
                value >= 0,
                fits ==> value as nat == decimal_value(input.subrange(start as int, self.position as int)),
                !fits ==> decimal_value(input.subrange(start as int, self.position as int)) > i64::MAX,
            decreases n - self.position,
        {
            let c = self.input[self.position];
            let d = (c as u32 - '0' as u32) as i64;
            let ghost before = input.subrange(start as int, self.position as int);
            let ghost after = input.subrange(start as int, self.position + 1);
            assert(after.drop_last() =~= before);
            assert(after.last() == c);
            assert(d as nat == after.last() as nat - '0' as nat);
            assert(decimal_value(after) == 10 * decimal_value(before) + d as nat);
            if fits {
                if value > (i64::MAX - d) / 10 {
                    fits = false;
                    assert(decimal_value(after) > i64::MAX) by (nonlinear_arith)
                        requires
                            decimal_value(after) == 10 * decimal_value(before) + d,
                            decimal_value(before) == value,
                            value > (i64::MAX - d) / 10,
                            0 <= d <= 9,
                    ;
                } else {
                    assert(value * 10 + d <= i64::MAX) by (nonlinear_arith)
                        requires
                            value <= (i64::MAX - d) / 10,
                            0 <= d <= 9,
                    ;
                    value = value * 10 + d;
                }
            } else {
                assert(decimal_value(after) > i64::MAX) by (nonlinear_arith)
                    requires
                        decimal_value(after) == 10 * decimal_value(before) + d,
                        decimal_value(before) > i64::MAX,
                        0 <= d,
                ;
            }
            self.position = self.position + 1;
        }
        if fits {
            Token::Int(value)
        } else {
            Token::Illegal
        }
    }
}

} // verus!
