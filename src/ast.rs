//! The syntax tree of the small "let" language.
use crate::token::{literal_of, Token, TokenView};
use vstd::prelude::*;

verus! {

/// A node of the syntax tree.
pub trait Node {
    /// The literal text of the token the node starts with.
    spec fn literal(&self) -> Seq<char>;

    fn token_literal(&self) -> (r: String)
        ensures
            r@ == self.literal(),
    ;
}

/// An identifier, such as `x` in `let x = 5;`.
#[derive(Debug, PartialEq)]
pub struct Identifier {
    pub token: Token,
    pub value: String,
}

/// An integer literal.
#[derive(Debug, PartialEq)]
pub struct IntegerLiteral {
    pub token: Token,
    pub value: i64,
}

/// An expression: for now an identifier or an integer literal.
#[derive(Debug, PartialEq)]
pub enum Expression {
    Identifier(Identifier),
    IntegerLiteral(IntegerLiteral),
}

/// `let <name> = <value>;`
#[derive(Debug, PartialEq)]
pub struct LetStatement {
    pub token: Token,
    pub name: Identifier,
    pub value: Expression,
}

/// A statement: for now only `let`.
#[derive(Debug, PartialEq)]
pub enum Statement {
    Let(LetStatement),
}

/// A whole program: its statements in order.
pub struct Program {
    pub statements: Vec<Statement>,
}

pub struct IdentifierView {
    pub token: TokenView,
    pub value: Seq<char>,
}

pub enum ExpressionView {
    Identifier(IdentifierView),
    IntegerLiteral(TokenView, i64),
}

pub struct LetView {
    pub token: TokenView,
    pub name: IdentifierView,
    pub value: ExpressionView,
}

pub enum StatementView {
    Let(LetView),
}

impl View for Identifier {
    type V = IdentifierView;

    open spec fn view(&self) -> IdentifierView {
        IdentifierView { token: self.token@, value: self.value@ }
    }
}

impl View for Expression {
    type V = ExpressionView;

    open spec fn view(&self) -> ExpressionView {
        match self {
            Expression::Identifier(i) => ExpressionView::Identifier(i@),
            Expression::IntegerLiteral(l) => ExpressionView::IntegerLiteral(l.token@, l.value),
        }
    }
}

impl View for LetStatement {
    type V = LetView;

    open spec fn view(&self) -> LetView {
        LetView { token: self.token@, name: self.name@, value: self.value@ }
    }
}

impl View for Statement {
    type V = StatementView;

    open spec fn view(&self) -> StatementView {
        match self {
            Statement::Let(l) => StatementView::Let(l@),
        }
    }
}

pub open spec fn statements_view(s: Seq<Statement>) -> Seq<StatementView> {
    s.map_values(|x: Statement| x@)
}

impl Node for Statement {
    open spec fn literal(&self) -> Seq<char> {
        match self {
            Statement::Let(s) => literal_of(s.token@),
        }
    }

    fn token_literal(&self) -> (r: String) {
        match self {
            Statement::Let(s) => s.token.token_literal(),
        }
    }
}

impl Node for Expression {
    open spec fn literal(&self) -> Seq<char> {
        match self {
            Expression::Identifier(i) => literal_of(i.token@),
            Expression::IntegerLiteral(l) => literal_of(l.token@),
        }
    }

    fn token_literal(&self) -> (r: String) {
        match self {
            Expression::Identifier(i) => i.token.token_literal(),
            Expression::IntegerLiteral(l) => l.token.token_literal(),
        }
    }
}

impl Node for Program {
    /// The first statement's literal, or nothing for an empty program.
    open spec fn literal(&self) -> Seq<char> {
        if self.statements@.len() == 0 {
            Seq::empty()
        } else {
            self.statements@[0].literal()
        }
    }

    fn token_literal(&self) -> (r: String) {
        if self.statements.len() == 0 {
            String::new()
        } else {
            self.statements[0].token_literal()
        }
    }
}

} // verus!
