//! The fixpoint driver: reduction repeated until the tree stops changing.

use crate::ast::{remove_epsilon, ASTNode};
use crate::env::Env;
use crate::laws::lemma_strip_well_formed;
use crate::lexer::{scan, without_whitespace, LexError, Lexer};
use crate::parser::{parse_at, ParseError, Parser};
use crate::term::Term;
use vstd::prelude::*;

verus! {

/// The number of reduction passes after which [`evaluate`] gives up.
pub const PASS_LIMIT: usize = 1000;

/// Why a text has no normal form to show.
#[derive(Debug, Clone, Copy, PartialEq, Eq, Structural)]
pub enum EvalError {
    /// The text holds a character that stands for no token.
    Lex(LexError),
    /// The tokens are not an expression.
    Parse(ParseError),
    /// Reduction was still changing the tree when the pass limit was
    /// reached.
    NotConverged,
}

/// What evaluating `text` with at most `limit` reduction passes gives: the
/// text is split into tokens, the tokens are parsed, the tree is cleaned up
/// once and reduced until a pass changes nothing.
pub open spec fn evaluate_text(text: Seq<char>, limit: nat) -> Result<Term, EvalError> {
    match scan(without_whitespace(text), 0) {
        Err(e) => Err(EvalError::Lex(e)),
        Ok(tokens) => match parse_at(tokens, 0) {
            Err(e) => Err(EvalError::Parse(e)),
            Ok(tree) => match tree.strip().normalize(limit) {
                Some(normal) => Ok(normal),
                None => Err(EvalError::NotConverged),
            },
        },
    }
}

/// Cleans `tree` up once and then reduces it, pass after pass with no
/// bindings, until a pass returns the tree it was given.  That tree is the
/// result.  `None` says that each of the first `limit` passes still changed
/// the tree.
pub fn normalize(tree: ASTNode, limit: usize) -> (r: Option<ASTNode>)
    requires
        tree@.well_formed(),
    ensures
        match r {
            Some(normal) => tree@.strip().normalize(limit as nat) == Some(normal@),
            None => tree@.strip().normalize(limit as nat) is None,
        },
{
    proof {
        lemma_strip_well_formed(tree@);
    }
    let mut current = remove_epsilon(tree);
    let mut passes: usize = 0;
    while passes < limit
        invariant
            passes <= limit,
            current@.well_formed(),
            tree@.strip().normalize(limit as nat) == current@.normalize((limit - passes) as nat),
        decreases limit - passes,
    {
        let candidate = current.reduce(Env::new());
        if candidate == current {
            return Some(candidate);
        }
        current = candidate;
        passes += 1;
    }
    None
}

/// Evaluates the expression written in `expr`: its normal form, or the
/// reason why there is none to show.
pub fn evaluate(expr: &str) -> (r: Result<ASTNode, EvalError>)
    ensures
        match r {
            Ok(normal) => evaluate_text(expr@, PASS_LIMIT as nat) == Ok::<Term, EvalError>(
                normal@,
            ),
            Err(e) => evaluate_text(expr@, PASS_LIMIT as nat) == Err::<Term, EvalError>(e),
        },
{
    let mut lexer = Lexer::new(expr.to_owned());
    let tokens = match lexer.lex() {
        Err(e) => {
            return Err(EvalError::Lex(e));
        },
        Ok(tokens) => tokens,
    };
    let mut parser = Parser::new(tokens);
    let ast = match parser.parse() {
        Err(e) => {
            return Err(EvalError::Parse(e));
        },
        Ok(ast) => ast,
    };
    match normalize(ast, PASS_LIMIT) {
        Some(normal) => Ok(normal),
        None => Err(EvalError::NotConverged),
    }
}

} // verus!
