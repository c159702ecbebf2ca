//! The parser: from tokens to an expression tree.

use vstd::prelude::*;
use crate::expr::{Expr, Term, list_view, lemma_list_view};
use crate::lexer::{Token, Lexeme, tokens_view};

verus! {

/// What can go wrong while parsing.
#[derive(Debug)]
pub enum ParseError {
    /// The input is empty or starts with a closing parenthesis.
    ParenExpected,
    /// The input ends while a list is still open.
    UnclosedList,
    /// More input follows a complete expression.
    TrailingInput,
}

/// The message that describes a parse error to a person.
pub open spec fn parse_error_text(e: ParseError) -> Seq<char> {
    match e {
        ParseError::ParenExpected => "Opening parenthesis expected"@,
        ParseError::UnclosedList => "Closing parenthesis expected"@,
        ParseError::TrailingInput => "Unexpected input after the expression"@,
    }
}

impl ParseError {
    /// A message for a person.
    pub fn message(&self) -> (r: String)
        ensures
            r@ == parse_error_text(*self),
    {
        match self {
            ParseError::ParenExpected => String::from_str("Opening parenthesis expected"),
            ParseError::UnclosedList => String::from_str("Closing parenthesis expected"),
            ParseError::TrailingInput => String::from_str("Unexpected input after the expression"),
        }
    }
}

/// The parser's state: the lists still open, innermost last, the finished
/// expression once the outermost list has closed, and whether any token
/// came after that.
pub struct ParseState {
    pub stack: Seq<Seq<Term>>,
    pub done: Option<Term>,
    pub extra: bool,
}

/// The expression that a token other than a parenthesis stands for.
pub open spec fn atom(t: Lexeme) -> Term {
    match t {
        Lexeme::Integer(n) => Term::Integer(n),
        Lexeme::Boolean(b) => Term::Boolean(b),
        Lexeme::If => Term::If,
        Lexeme::BinaryOp(s) => Term::Op(s),
        Lexeme::Keyword(s) => Term::Keyword(s),
        Lexeme::Symbol(s) => Term::Symbol(s),
        _ => Term::NoOp,
    }
}

/// `item` appended to the innermost open list.
pub open spec fn add_item(stack: Seq<Seq<Term>>, item: Term) -> Seq<Seq<Term>> {
    stack.update(stack.len() - 1, stack.last().push(item))
}

/// The state after one more token.
pub open spec fn step(st: ParseState, t: Lexeme) -> ParseState {
    if st.done is Some {
        ParseState { extra: true, ..st }
    } else if st.stack.len() == 0 {
        st
    } else {
        match t {
            Lexeme::OpenParen => ParseState { stack: st.stack.push(Seq::empty()), done: None, extra: false },
            Lexeme::CloseParen => {
                let rest = st.stack.drop_last();
                if rest.len() == 0 {
                    ParseState { stack: rest, done: Some(Term::List(st.stack.last())), extra: false }
                } else {
                    ParseState { stack: add_item(rest, Term::List(st.stack.last())), done: None, extra: false }
                }
            },
            _ => ParseState { stack: add_item(st.stack, atom(t)), done: None, extra: false },
        }
    }
}

/// The state after the tokens before position `n`, the first of which opened
/// the outermost list.
pub open spec fn run(ts: Seq<Lexeme>, n: nat) -> ParseState
    decreases n,
{
    if n <= 1 {
        ParseState { stack: seq![Seq::empty()], done: None, extra: false }
    } else {
        step(run(ts, (n - 1) as nat), ts[n - 1])
    }
}

/// The expression that a sequence of tokens spells: a single token other
/// than a parenthesis, or the list that the first token opens together with
/// everything up to its closing parenthesis. Anything else is an error.
pub open spec fn parse_tokens(ts: Seq<Lexeme>) -> Result<Term, ParseError> {
    if ts.len() == 0 || ts[0] == Lexeme::CloseParen {
        Err(ParseError::ParenExpected)
    } else if ts[0] != Lexeme::OpenParen {
        if ts.len() == 1 { Ok(atom(ts[0])) } else { Err(ParseError::TrailingInput) }
    } else {
        let st = run(ts, ts.len());
        if st.extra {
            Err(ParseError::TrailingInput)
        } else {
            match st.done {
                Some(t) => Ok(t),
                None => Err(ParseError::UnclosedList),
            }
        }
    }
}

/// The model of a parse result.
pub open spec fn parse_view(r: Result<Expr, ParseError>) -> Result<Term, ParseError> {
    match r {
        Ok(e) => Ok(e@),
        Err(e) => Err(e),
    }
}

spec fn stack_view(stack: Vec<Vec<Expr>>) -> Seq<Seq<Term>> {
    Seq::new(stack.len() as nat, |i: int| list_view(stack[i]))
}

spec fn done_view(done: Option<Expr>) -> Option<Term> {
    match done {
        Some(e) => Some(e@),
        None => None,
    }
}

fn atom_expr(t: &Token) -> (r: Expr)
    ensures
        r@ == atom(t@),
{
    match t {
        Token::Integer(n) => Expr::Integer(*n),
        Token::Boolean(b) => Expr::Boolean(*b),
        Token::If => Expr::If,
        Token::BinaryOp(s) => Expr::Op(s.clone()),
        Token::Keyword(s) => Expr::Keyword(s.clone()),
        Token::Symbol(s) => Expr::Symbol(s.clone()),
        _ => Expr::NoOp,
    }
}

fn push_item(stack: &mut Vec<Vec<Expr>>, item: Expr)
    requires
        old(stack).len() >= 1,
    ensures
        stack_view(*final(stack)) == add_item(stack_view(*old(stack)), item@),
        final(stack).len() == old(stack).len(),
{
    let k = stack.len() - 1;
    let ghost before = stack_view(*stack);
    stack[k].push(item);
    assert(list_view(stack[k as int]) =~= before.last().push(item@));
    assert(stack_view(*stack) =~= add_item(before, item@));
}

/// Parses one expression: an atom, or a list with all its parentheses closed.
pub fn parse(tokens: &Vec<Token>) -> (r: Result<Expr, ParseError>)
    ensures
        parse_view(r) == parse_tokens(tokens_view(*tokens)),
{
    let ghost ts = tokens_view(*tokens);
    if tokens.len() == 0 {
        return Err(ParseError::ParenExpected);
    }
    assert(ts[0] == tokens[0]@);
    match &tokens[0] {
        Token::OpenParen => {},
        Token::CloseParen => {
            return Err(ParseError::ParenExpected);
        },
        t => {
            if tokens.len() == 1 {
                return Ok(atom_expr(t));
            } else {
                return Err(ParseError::TrailingInput);
            }
        },
    }
    let mut stack: Vec<Vec<Expr>> = Vec::new();
    stack.push(Vec::new());
    let mut done: Option<Expr> = None;
    let mut extra = false;
    assert(list_view(stack[0]) =~= Seq::<Term>::empty());
    assert(stack_view(stack) =~= seq![Seq::<Term>::empty()]);
    let mut i: usize = 1;
    while i < tokens.len()
        invariant
            1 <= i <= tokens.len(),
            ts == tokens_view(*tokens),
            run(ts, i as nat) == (ParseState { stack: stack_view(stack), done: done_view(done), extra }),
            done is None ==> stack.len() >= 1,
        decreases tokens.len() - i,
    {
        assert(ts[i as int] == tokens[i as int]@);
        if done.is_some() {
            extra = true;
        } else {
            match &tokens[i] {
                Token::OpenParen => {
                    let ghost before = stack_view(stack);
                    stack.push(Vec::new());
                    assert(list_view(stack[stack.len() - 1]) =~= Seq::<Term>::empty());
                    assert(stack_view(stack) =~= before.push(Seq::empty()));
                },
                Token::CloseParen => {
                    let ghost before = stack_view(stack);
                    let top = stack.pop().unwrap();
                    assert(stack_view(stack) =~= before.drop_last());
                    assert(list_view(top) == before.last());
                    proof {
                        lemma_list_view(top);
                    }
                    if stack.len() == 0 {
                        done = Some(Expr::List(top));
                    } else {
                        push_item(&mut stack, Expr::List(top));
                    }
                },
                t => {
                    push_item(&mut stack, atom_expr(t));
                },
            }
        }
        i += 1;
    }
    if extra {
        return Err(ParseError::TrailingInput);
    }
    match done {
        Some(e) => Ok(e),
        None => Err(ParseError::UnclosedList),
    }
}

} // verus!
