//! Recursive-descent parsing of a token sequence into an expression tree.
//!
//! The grammar, over the positions of a token sequence:
//!
//! ```text
//! expression  ::= <nothing, before an end marker or a closing parenthesis>
//!               | application
//! application ::= bounded bounded*            (left-associative)
//! bounded     ::= atom | "λ" atom "." expression | "(" expression ")"
//! ```

use crate::ast::ASTNode;
use crate::lexer::{lexemes, Lexeme, Token};
use crate::term::Term;
use vstd::prelude::*;

verus! {

/// Why a token sequence is not an expression.
#[derive(Debug, Clone, Copy, PartialEq, Eq, Structural)]
pub enum ParseError {
    /// The token at `position` cannot stand there.
    UnexpectedToken { position: usize },
    /// A token was expected behind the last one.
    UnexpectedEnd,
}

/// A parsed tree and the position behind it, or the reason why there is
/// none.
pub type Parsed = Result<(Term, nat), ParseError>;

/// The position behind the token at `pos`, which must be `token`.
pub open spec fn expect_at(ts: Seq<Lexeme>, pos: nat, token: Lexeme) -> Result<nat, ParseError> {
    if pos >= ts.len() {
        Err(ParseError::UnexpectedEnd)
    } else if ts[pos as int] == token {
        Ok(pos + 1)
    } else {
        Err(ParseError::UnexpectedToken { position: pos as usize })
    }
}

/// The atom at `pos`.
pub open spec fn atom_at(ts: Seq<Lexeme>, pos: nat) -> Parsed {
    if pos >= ts.len() {
        Err(ParseError::UnexpectedEnd)
    } else {
        match ts[pos as int] {
            Lexeme::Atom(name) => Ok((Term::Atom(name), pos + 1)),
            _ => Err(ParseError::UnexpectedToken { position: pos as usize }),
        }
    }
}

/// The expression that starts at `pos`: the placeholder, of no tokens, before
/// an end marker or a closing parenthesis, and an application elsewhere.
pub open spec fn expression_at(ts: Seq<Lexeme>, pos: nat) -> Parsed
    decreases ts.len() - pos, 3nat,
{
    if pos >= ts.len() {
        Err(ParseError::UnexpectedEnd)
    } else if ts[pos as int] is EOF || ts[pos as int] is RParen {
        Ok((Term::Epsilon, pos))
    } else {
        application_at(ts, pos)
    }
}

/// The application that starts at `pos`: one bounded expression, applied in
/// turn to each bounded expression that follows it.  A bounded expression
/// always ends behind its start and within the tokens (`lemma_bounded_at`),
/// so the last branch is never taken.
pub open spec fn application_at(ts: Seq<Lexeme>, pos: nat) -> Parsed
    decreases ts.len() - pos, 2nat,
{
    match bounded_at(ts, pos) {
        Err(e) => Err(e),
        Ok(None) => Err(ParseError::UnexpectedToken { position: pos as usize }),
        Ok(Some((first, next))) => if pos < next <= ts.len() {
            arguments_at(ts, next, first)
        } else {
            Ok((first, next))
        },
    }
}

/// `function` applied in turn to each bounded expression from `pos` on.
/// Here too the last branch is never taken.
pub open spec fn arguments_at(ts: Seq<Lexeme>, pos: nat, function: Term) -> Parsed
    decreases ts.len() - pos, 2nat,
{
    match bounded_at(ts, pos) {
        Err(e) => Err(e),
        Ok(None) => Ok((function, pos)),
        Ok(Some((argument, next))) => if pos < next <= ts.len() {
            arguments_at(
                ts,
                next,
                Term::Application { lhs: Box::new(function), rhs: Box::new(argument) },
            )
        } else {
            Ok((function, pos))
        },
    }
}

/// The bounded expression that starts at `pos`: an atom, an abstraction or
/// a parenthesized expression; `None` where the token at `pos` starts none
/// of them.
pub open spec fn bounded_at(ts: Seq<Lexeme>, pos: nat) -> Result<Option<(Term, nat)>, ParseError>
    decreases ts.len() - pos, 1nat,
{
    if pos >= ts.len() {
        Err(ParseError::UnexpectedEnd)
    } else {
        match ts[pos as int] {
            Lexeme::Atom(_) => some_of(atom_at(ts, pos)),
            Lexeme::Lambda => some_of(abstraction_at(ts, pos)),
            Lexeme::LParen => some_of(parenthesized_at(ts, pos)),
            _ => Ok(None),
        }
    }
}

/// A parse result as one that may be absent.
pub open spec fn some_of(parsed: Parsed) -> Result<Option<(Term, nat)>, ParseError> {
    match parsed {
        Ok(found) => Ok(Some(found)),
        Err(e) => Err(e),
    }
}

/// The abstraction that starts at `pos`: `λ`, an atom, a dot and an
/// expression.
pub open spec fn abstraction_at(ts: Seq<Lexeme>, pos: nat) -> Parsed
    decreases ts.len() - pos, 0nat,
{
    match expect_at(ts, pos, Lexeme::Lambda) {
        Err(e) => Err(e),
        Ok(at_param) => match atom_at(ts, at_param) {
            Err(e) => Err(e),
            Ok((param, at_dot)) => match expect_at(ts, at_dot, Lexeme::Dot) {
                Err(e) => Err(e),
                Ok(at_body) => match expression_at(ts, at_body) {
                    Err(e) => Err(e),
                    Ok((body, next)) => Ok(
                        (Term::Abstraction { param: Box::new(param), body: Box::new(body) }, next),
                    ),
                },
            },
        },
    }
}

/// The parenthesized expression that starts at `pos`.
pub open spec fn parenthesized_at(ts: Seq<Lexeme>, pos: nat) -> Parsed
    decreases ts.len() - pos, 0nat,
{
    match expect_at(ts, pos, Lexeme::LParen) {
        Err(e) => Err(e),
        Ok(inside) => match expression_at(ts, inside) {
            Err(e) => Err(e),
            Ok((expr, at_close)) => match expect_at(ts, at_close, Lexeme::RParen) {
                Err(e) => Err(e),
                Ok(next) => Ok((expr, next)),
            },
        },
    }
}

/// The expression that starts at `pos` and is followed by an end marker.
/// Tokens behind that end marker are not looked at.
pub open spec fn parse_at(ts: Seq<Lexeme>, pos: nat) -> Result<Term, ParseError> {
    match expression_at(ts, pos) {
        Err(e) => Err(e),
        Ok((expr, at_end)) => match expect_at(ts, at_end, Lexeme::EOF) {
            Err(e) => Err(e),
            Ok(_) => Ok(expr),
        },
    }
}

/// An expression ends within the tokens, at or behind its start, and is well
/// formed.
pub proof fn lemma_expression_at(ts: Seq<Lexeme>, pos: nat)
    ensures
        expression_at(ts, pos) matches Ok((expr, next)) ==> pos <= next < ts.len()
            && expr.well_formed(),
    decreases ts.len() - pos, 3nat,
{
    if pos < ts.len() && !(ts[pos as int] is EOF || ts[pos as int] is RParen) {
        lemma_application_at(ts, pos);
    }
}

/// An application ends within the tokens, behind its start, and is well
/// formed.
pub proof fn lemma_application_at(ts: Seq<Lexeme>, pos: nat)
    ensures
        application_at(ts, pos) matches Ok((expr, next)) ==> pos < next < ts.len()
            && expr.well_formed(),
    decreases ts.len() - pos, 2nat,
{
    lemma_bounded_at(ts, pos);
    if let Ok(Some((first, next))) = bounded_at(ts, pos) {
        lemma_arguments_at(ts, next, first);
    }
}

/// A run of arguments ends within the tokens, at or behind its start, and
/// applying a well-formed function to it gives a well-formed tree.
pub proof fn lemma_arguments_at(ts: Seq<Lexeme>, pos: nat, function: Term)
    requires
        function.well_formed(),
    ensures
        arguments_at(ts, pos, function) matches Ok((expr, next)) ==> pos <= next < ts.len()
            && expr.well_formed(),
    decreases ts.len() - pos, 2nat,
{
    lemma_bounded_at(ts, pos);
    if let Ok(Some((argument, next))) = bounded_at(ts, pos) {
        lemma_arguments_at(
            ts,
            next,
            Term::Application { lhs: Box::new(function), rhs: Box::new(argument) },
        );
    }
}

/// A bounded expression holds at least one token, ends within the tokens
/// and is well formed.
pub proof fn lemma_bounded_at(ts: Seq<Lexeme>, pos: nat)
    ensures
        bounded_at(ts, pos) matches Ok(Some((expr, next))) ==> pos < next <= ts.len()
            && expr.well_formed(),
        bounded_at(ts, pos) matches Ok(None) ==> pos < ts.len(),
    decreases ts.len() - pos, 1nat,
{
    if pos < ts.len() {
        match ts[pos as int] {
            Lexeme::Lambda => {
                if let Ok(at_param) = expect_at(ts, pos, Lexeme::Lambda) {
                    if let Ok((param, at_dot)) = atom_at(ts, at_param) {
                        if let Ok(at_body) = expect_at(ts, at_dot, Lexeme::Dot) {
                            lemma_expression_at(ts, at_body);
                        }
                    }
                }
            },
            Lexeme::LParen => {
                lemma_expression_at(ts, pos + 1);
            },
            _ => {},
        }
    }
}

/// A cursor over a token sequence.
pub struct Parser {
    tokens: Vec<Token>,
    ind: usize,
}

impl Parser {
    /// The tokens that are parsed.
    pub closed spec fn tokens(&self) -> Seq<Lexeme> {
        lexemes(self.tokens@)
    }

    /// The position of the next token.
    pub closed spec fn position(&self) -> nat {
        self.ind as nat
    }

    /// A parser at the start of `tokens`.
    pub fn new(tokens: Vec<Token>) -> (r: Parser)
        ensures
            r.tokens() == lexemes(tokens@),
            r.position() == 0,
    {
        Parser { tokens, ind: 0 }
    }

    /// Steps over the next token, which must be `token`.
    fn consume(&mut self, token: &Token) -> (r: Result<(), ParseError>)
        ensures
            final(self).tokens == old(self).tokens,
            match r {
                Ok(_) => expect_at(old(self).tokens(), old(self).position(), token@) == Ok::<
                    nat,
                    ParseError,
                >(final(self).position()),
                Err(e) => expect_at(old(self).tokens(), old(self).position(), token@) == Err::<
                    nat,
                    ParseError,
                >(e),
            },
    {
        if self.ind >= self.tokens.len() {
            return Err(ParseError::UnexpectedEnd);
        }
        if self.tokens[self.ind] != *token {
            return Err(ParseError::UnexpectedToken { position: self.ind });
        }
        self.ind += 1;
        Ok(())
    }

    /// Parses `λ`, an atom, a dot and an expression.
    fn parse_abstraction(&mut self) -> (r: Result<ASTNode, ParseError>)
        ensures
            final(self).tokens == old(self).tokens,
            match r {
                Ok(node) => abstraction_at(old(self).tokens(), old(self).position()) == Ok::<
                    (Term, nat),
                    ParseError,
                >((node@, final(self).position())),
                Err(e) => abstraction_at(old(self).tokens(), old(self).position()) == Err::<
                    (Term, nat),
                    ParseError,
                >(e),
            },
        decreases old(self).tokens.len() - old(self).ind, 0nat,
    {
        match self.consume(&Token::Lambda) {
            Err(e) => {
                return Err(e);
            },
            Ok(_) => {},
        }
        let param = match self.parse_atom() {
            Err(e) => {
                return Err(e);
            },
            Ok(param) => param,
        };
        match self.consume(&Token::Dot) {
            Err(e) => {
                return Err(e);
            },
            Ok(_) => {},
        }
        match self.parse_expression() {
            Err(e) => Err(e),
            Ok(body) => Ok(ASTNode::Abstraction { param: Box::new(param), body: Box::new(body) }),
        }
    }

    /// Parses one bounded expression and then each bounded expression that
    /// follows it, applying what has been built to each in turn.
    fn parse_application(&mut self) -> (r: Result<ASTNode, ParseError>)
        ensures
            final(self).tokens == old(self).tokens,
            match r {
                Ok(node) => application_at(old(self).tokens(), old(self).position()) == Ok::<
                    (Term, nat),
                    ParseError,
                >((node@, final(self).position())),
                Err(e) => application_at(old(self).tokens(), old(self).position()) == Err::<
                    (Term, nat),
                    ParseError,
                >(e),
            },
        decreases old(self).tokens.len() - old(self).ind, 2nat,
    {
        let ghost ts = self.tokens();
        let ghost start = self.position();
        proof {
            lemma_bounded_at(ts, start);
        }
        let mut lexpr = match self.parse_bounded() {
            Err(e) => {
                return Err(e);
            },
            Ok(None) => {
                return Err(ParseError::UnexpectedToken { position: self.ind });
            },
            Ok(Some(first)) => first,
        };
        loop
            invariant
                self.tokens == old(self).tokens,
                ts == old(self).tokens(),
                start == old(self).position(),
                start < self.ind <= self.tokens.len(),
                application_at(ts, start) == arguments_at(ts, self.position(), lexpr@),
            decreases self.tokens.len() - self.ind,
        {
            proof {
                lemma_bounded_at(ts, self.position());
            }
            match self.parse_bounded() {
                Err(e) => {
                    return Err(e);
                },
                Ok(None) => {
                    return Ok(lexpr);
                },
                Ok(Some(exp)) => {
                    lexpr = ASTNode::Application { lhs: Box::new(lexpr), rhs: Box::new(exp) };
                },
            }
        }
    }

    /// Parses an expression: nothing before an end marker or a closing
    /// parenthesis, an application elsewhere.
    fn parse_expression(&mut self) -> (r: Result<ASTNode, ParseError>)
        ensures
            final(self).tokens == old(self).tokens,
            match r {
                Ok(node) => expression_at(old(self).tokens(), old(self).position()) == Ok::<
                    (Term, nat),
                    ParseError,
                >((node@, final(self).position())),
                Err(e) => expression_at(old(self).tokens(), old(self).position()) == Err::<
                    (Term, nat),
                    ParseError,
                >(e),
            },
        decreases old(self).tokens.len() - old(self).ind, 3nat,
    {
        if self.ind >= self.tokens.len() {
            return Err(ParseError::UnexpectedEnd);
        }
        match &self.tokens[self.ind] {
            Token::EOF => {
                return Ok(ASTNode::Epsilon);
            },
            Token::RParen => {
                return Ok(ASTNode::Epsilon);
            },
            _ => {},
        }
        self.parse_application()
    }

    /// Parses an expression between parentheses.
    fn parse_parenthesized_expression(&mut self) -> (r: Result<ASTNode, ParseError>)
        ensures
            final(self).tokens == old(self).tokens,
            match r {
                Ok(node) => parenthesized_at(old(self).tokens(), old(self).position()) == Ok::<
                    (Term, nat),
                    ParseError,
                >((node@, final(self).position())),
                Err(e) => parenthesized_at(old(self).tokens(), old(self).position()) == Err::<
                    (Term, nat),
                    ParseError,
                >(e),
            },
        decreases old(self).tokens.len() - old(self).ind, 0nat,
    {
        match self.consume(&Token::LParen) {
            Err(e) => {
                return Err(e);
            },
            Ok(_) => {},
        }
        let expr = match self.parse_expression() {
            Err(e) => {
                return Err(e);
            },
            Ok(expr) => expr,
        };
        match self.consume(&Token::RParen) {
            Err(e) => Err(e),
            Ok(_) => Ok(expr),
        }
    }

    /// Parses an atom, an abstraction or a parenthesized expression,
    /// whichever the next token starts; `None` where it starts none.
    fn parse_bounded(&mut self) -> (r: Result<Option<ASTNode>, ParseError>)
        ensures
            final(self).tokens == old(self).tokens,
            match r {
                Ok(Some(node)) => bounded_at(old(self).tokens(), old(self).position()) == Ok::<
                    Option<(Term, nat)>,
                    ParseError,
                >(Some((node@, final(self).position()))),
                Ok(None) => bounded_at(old(self).tokens(), old(self).position()) == Ok::<
                    Option<(Term, nat)>,
                    ParseError,
                >(None) && final(self).ind == old(self).ind,
                Err(e) => bounded_at(old(self).tokens(), old(self).position()) == Err::<
                    Option<(Term, nat)>,
                    ParseError,
                >(e),
            },
        decreases old(self).tokens.len() - old(self).ind, 1nat,
    {
        if self.ind >= self.tokens.len() {
            return Err(ParseError::UnexpectedEnd);
        }
        let parsed = match &self.tokens[self.ind] {
            Token::Atom(_) => self.parse_atom(),
            Token::Lambda => self.parse_abstraction(),
            Token::LParen => self.parse_parenthesized_expression(),
            _ => {
                return Ok(None);
            },
        };
        match parsed {
            Ok(node) => Ok(Some(node)),
            Err(e) => Err(e),
        }
    }

    /// Parses an atom.
    fn parse_atom(&mut self) -> (r: Result<ASTNode, ParseError>)
        ensures
            final(self).tokens == old(self).tokens,
            match r {
                Ok(node) => atom_at(old(self).tokens(), old(self).position()) == Ok::<
                    (Term, nat),
                    ParseError,
                >((node@, final(self).position())),
                Err(e) => atom_at(old(self).tokens(), old(self).position()) == Err::<
                    (Term, nat),
                    ParseError,
                >(e),
            },
    {
        if self.ind >= self.tokens.len() {
            return Err(ParseError::UnexpectedEnd);
        }
        match &self.tokens[self.ind] {
            Token::Atom(name) => {
                let node = ASTNode::Atom(name.clone());
                self.ind += 1;
                Ok(node)
            },
            _ => Err(ParseError::UnexpectedToken { position: self.ind }),
        }
    }

    /// Parses the tokens from the current position on as one expression
    /// followed by an end marker, and stops behind that end marker.  The
    /// tree that comes out is well formed.
    pub fn parse(&mut self) -> (r: Result<ASTNode, ParseError>)
        ensures
            final(self).tokens() == old(self).tokens(),
            match r {
                Ok(node) => parse_at(old(self).tokens(), old(self).position()) == Ok::<
                    Term,
                    ParseError,
                >(node@) && node@.well_formed() && expression_at(
                    old(self).tokens(),
                    old(self).position(),
                ) == Ok::<(Term, nat), ParseError>((node@, (final(self).position() - 1) as nat))
                    && final(self).position() > old(self).position(),
                Err(e) => parse_at(old(self).tokens(), old(self).position()) == Err::<
                    Term,
                    ParseError,
                >(e),
            },
    {
        proof {
            lemma_expression_at(self.tokens(), self.position());
        }
        let res = match self.parse_expression() {
            Err(e) => {
                return Err(e);
            },
            Ok(res) => res,
        };
        match self.consume(&Token::EOF) {
            Err(e) => Err(e),
            Ok(_) => Ok(res),
        }
    }
}

} // verus!
