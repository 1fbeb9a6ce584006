//! The shared data model: source locations, tokens, expression trees and
//! parse errors, together with their mathematical views.

use vstd::prelude::*;

verus! {

/// Where a token begins in the source text. Lines are 1-based and grow on
/// each newline; the column resets to 0 at the start of a line and grows by
/// one per character consumed.
#[derive(Clone, Copy, PartialEq, Eq, Structural, Debug)]
pub struct Location {
    pub line: usize,
    pub column: usize,
}

/// The mathematical view of a [`Location`]: the same pair over `nat`.
pub struct LocView {
    pub line: nat,
    pub column: nat,
}

impl View for Location {
    type V = LocView;

    open spec fn view(&self) -> LocView {
        LocView { line: self.line as nat, column: self.column as nat }
    }
}

impl Location {
    pub fn new(line: usize, column: usize) -> (r: Self)
        ensures
            r.line == line,
            r.column == column,
    {
        Self { line, column }
    }
}

/// One lexical token, carrying the location where it begins.
#[derive(PartialEq, Debug)]
pub enum Token {
    LParen { location: Location },
    RParen { location: Location },
    Symbol { content: String, location: Location },
    StrLit { content: String, location: Location },
}

/// The mathematical view of a [`Token`]: contents as character sequences.
pub enum TokenView {
    LParen { location: LocView },
    RParen { location: LocView },
    Symbol { content: Seq<char>, location: LocView },
    StrLit { content: Seq<char>, location: LocView },
}

impl TokenView {
    /// The location carried by a token, whatever its kind.
    pub open spec fn loc(self) -> LocView {
        match self {
            TokenView::LParen { location } => location,
            TokenView::RParen { location } => location,
            TokenView::Symbol { location, .. } => location,
            TokenView::StrLit { location, .. } => location,
        }
    }

    /// Whether a token may stand as a leaf of an expression tree.
    pub open spec fn is_atom(self) -> bool {
        self is Symbol || self is StrLit
    }
}

impl View for Token {
    type V = TokenView;

    open spec fn view(&self) -> TokenView {
        match self {
            Token::LParen { location } => TokenView::LParen { location: location@ },
            Token::RParen { location } => TokenView::RParen { location: location@ },
            Token::Symbol { content, location } => TokenView::Symbol {
                content: content@,
                location: location@,
            },
            Token::StrLit { content, location } => TokenView::StrLit {
                content: content@,
                location: location@,
            },
        }
    }
}

impl Clone for Token {
    fn clone(&self) -> (r: Self)
        ensures
            r@ == self@,
    {
        match self {
            Token::LParen { location } => Token::LParen { location: *location },
            Token::RParen { location } => Token::RParen { location: *location },
            Token::Symbol { content, location } => Token::Symbol {
                content: content.clone(),
                location: *location,
            },
            Token::StrLit { content, location } => Token::StrLit {
                content: content.clone(),
                location: *location,
            },
        }
    }
}

impl Token {
    pub fn get_location(&self) -> (r: Location)
        ensures
            r@ == self@.loc(),
    {
        match self {
            Token::LParen { location } => *location,
            Token::RParen { location } => *location,
            Token::Symbol { location, .. } => *location,
            Token::StrLit { location, .. } => *location,
        }
    }
}

/// The view of a whole token sequence.
pub open spec fn tokens_view(ts: Seq<Token>) -> Seq<TokenView> {
    ts.map_values(|t: Token| t@)
}

/// The string-delimiter kind that is open while the lexer scans a string
/// literal. Tracked only transiently; it is not stored on the token.
#[derive(Clone, Copy, PartialEq, Eq, Structural, Debug)]
pub enum Quote {
    Single,
    Double,
}

/// One S-expression: the empty list, a nonempty parenthesized group, or a
/// leaf wrapping a single symbol or string-literal token.
#[derive(PartialEq, Debug)]
pub enum Exp {
    Nil,
    List { contents: Vec<Exp> },
    Atom { token: Token },
}

/// The mathematical view of an [`Exp`].
pub enum ExpView {
    Nil,
    List { contents: Seq<ExpView> },
    Atom { token: TokenView },
}

/// The view of an expression tree, taken bottom-up.
pub open spec fn exp_view(e: Exp) -> ExpView
    decreases e, 1int,
{
    match e {
        Exp::Nil => ExpView::Nil,
        Exp::List { contents } => ExpView::List { contents: exps_view(contents@) },
        Exp::Atom { token } => ExpView::Atom { token: token@ },
    }
}

impl View for Exp {
    type V = ExpView;

    open spec fn view(&self) -> ExpView {
        exp_view(*self)
    }
}

/// The element-wise view of a sequence of expressions.
pub open spec fn exps_view(es: Seq<Exp>) -> Seq<ExpView>
    decreases es, 0int,
{
    Seq::new(
        es.len(),
        (|i: int| if 0 <= i < es.len() {
            exp_view(es[i])
        } else {
            ExpView::Nil
        }),
    )
}

/// Appending an expression and then taking the view is taking the view and
/// then appending the expression's view.
pub proof fn lemma_exps_view_push(es: Seq<Exp>, e: Exp)
    ensures
        exps_view(es.push(e)) == exps_view(es).push(exp_view(e)),
{
    assert(exps_view(es.push(e)) =~= exps_view(es).push(exp_view(e)));
}

/// A structural syntax error: a human-readable description and the location
/// at which the problem was detected.
#[derive(PartialEq, Debug)]
pub struct ParseError {
    pub message: String,
    pub location: Location,
}

/// The mathematical view of a [`ParseError`].
pub struct ParseErrView {
    pub message: Seq<char>,
    pub location: LocView,
}

impl View for ParseError {
    type V = ParseErrView;

    open spec fn view(&self) -> ParseErrView {
        ParseErrView { message: self.message@, location: self.location@ }
    }
}

impl ParseError {
    pub fn new(message: String, location: Location) -> (r: Self)
        ensures
            r@.message == message@,
            r@.location == location@,
    {
        Self { message, location }
    }

    /// The error's description, for callers that want to report it.
    pub fn description(&self) -> (r: &str)
        ensures
            r@ == self@.message,
    {
        self.message.as_str()
    }
}

} // verus!
