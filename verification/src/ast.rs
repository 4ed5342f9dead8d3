//! The executable expression tree.

use crate::env::Env;
use crate::laws::lemma_reduce_well_formed;
use crate::term::{bindings_well_formed, Term};
use vstd::pervasive::unreached;
use vstd::prelude::*;
use vstd::string::StringExecFns;

verus! {

/// A node of an expression tree.  Each node owns its children.
#[derive(Debug)]
pub enum ASTNode {
    /// `λparam.body`; `param` must be an `Atom`.
    Abstraction { param: Box<ASTNode>, body: Box<ASTNode> },
    /// `lhs` applied to `rhs`.
    Application { lhs: Box<ASTNode>, rhs: Box<ASTNode> },
    /// A bare identifier.
    Atom(String),
    /// The placeholder for "no expression here".
    Epsilon,
}

impl View for ASTNode {
    type V = Term;

    open spec fn view(&self) -> Term
        decreases self,
    {
        match *self {
            ASTNode::Abstraction { param, body } => Term::Abstraction {
                param: Box::new((*param).view()),
                body: Box::new((*body).view()),
            },
            ASTNode::Application { lhs, rhs } => Term::Application {
                lhs: Box::new((*lhs).view()),
                rhs: Box::new((*rhs).view()),
            },
            ASTNode::Atom(name) => Term::Atom(name@),
            ASTNode::Epsilon => Term::Epsilon,
        }
    }
}

impl Clone for ASTNode {
    /// A deep copy: the same tree, node for node.
    fn clone(&self) -> (r: Self)
        ensures
            r == *self,
        decreases self,
    {
        match self {
            ASTNode::Abstraction { param, body } => ASTNode::Abstraction {
                param: Box::new((**param).clone()),
                body: Box::new((**body).clone()),
            },
            ASTNode::Application { lhs, rhs } => ASTNode::Application {
                lhs: Box::new((**lhs).clone()),
                rhs: Box::new((**rhs).clone()),
            },
            ASTNode::Atom(name) => ASTNode::Atom(name.clone()),
            ASTNode::Epsilon => ASTNode::Epsilon,
        }
    }
}

impl PartialEq for ASTNode {
    /// Structural equality: the same shape and the same names.
    fn eq(&self, other: &Self) -> (r: bool) {
        self.same_as(other)
    }
}

impl vstd::std_specs::cmp::PartialEqSpecImpl for ASTNode {
    open spec fn obeys_eq_spec() -> bool {
        true
    }

    open spec fn eq_spec(&self, other: &Self) -> bool {
        self@ == other@
    }
}

impl ASTNode {
    /// Whether the two trees have the same shape and the same names.
    pub fn same_as(&self, other: &ASTNode) -> (r: bool)
        ensures
            r == (self@ == other@),
        decreases self,
    {
        match self {
            ASTNode::Abstraction { param, body } => match other {
                ASTNode::Abstraction { param: param2, body: body2 } => {
                    param.same_as(param2) && body.same_as(body2)
                },
                _ => false,
            },
            ASTNode::Application { lhs, rhs } => match other {
                ASTNode::Application { lhs: lhs2, rhs: rhs2 } => {
                    lhs.same_as(lhs2) && rhs.same_as(rhs2)
                },
                _ => false,
            },
            ASTNode::Atom(name) => match other {
                ASTNode::Atom(name2) => *name == *name2,
                _ => false,
            },
            ASTNode::Epsilon => match other {
                ASTNode::Epsilon => true,
                _ => false,
            },
        }
    }

    /// Whether every abstraction in this tree binds an atom.
    pub fn is_well_formed(&self) -> (r: bool)
        ensures
            r == self@.well_formed(),
        decreases self,
    {
        match self {
            ASTNode::Abstraction { param, body } => {
                let binds_atom = match &**param {
                    ASTNode::Atom(_) => true,
                    _ => false,
                };
                assert(binds_atom == (param@ is Atom));
                binds_atom && body.is_well_formed()
            },
            ASTNode::Application { lhs, rhs } => lhs.is_well_formed() && rhs.is_well_formed(),
            ASTNode::Atom(_) => true,
            ASTNode::Epsilon => true,
        }
    }

    /// One reduction pass over this tree under the bindings `env`.
    ///
    /// A bound atom is replaced by a copy of its binding.  An application of
    /// an abstraction is replaced by the reduced body of the abstraction, with
    /// the parameter bound to the argument as it stands.  An abstraction
    /// `λp.(f p)` in which `p` is not free in `f` is replaced by the reduced
    /// `f`.  Beneath an abstraction its parameter is unbound.
    pub fn reduce(&self, env: Env) -> (r: ASTNode)
        requires
            self@.well_formed(),
        ensures
            r@ == self@.reduce(env@),
            bindings_well_formed(env@) ==> r@.well_formed(),
        decreases self,
    {
        proof {
            if bindings_well_formed(env@) {
                lemma_reduce_well_formed(self@, env@);
            }
        }
        match self {
            ASTNode::Abstraction { param, body } => {
                assert(param@ is Atom && body@.well_formed());
                let mut inner = env;
                match &**param {
                    ASTNode::Atom(name) => {
                        inner.remove(name);
                    },
                    _ => {
                        return unreached();
                    },
                }
                match &**body {
                    ASTNode::Application { lhs, rhs } => {
                        assert(lhs@.well_formed());
                        if rhs.same_as(param) && !lhs.free_in(param) {
                            return lhs.reduce(inner);
                        }
                    },
                    _ => {},
                }
                ASTNode::Abstraction {
                    param: Box::new((**param).clone()),
                    body: Box::new(body.reduce(inner)),
                }
            },
            ASTNode::Application { lhs, rhs } => {
                assert(lhs@.well_formed() && rhs@.well_formed());
                match &**lhs {
                    ASTNode::Abstraction { param, body } => {
                        assert(param@ is Atom && body@.well_formed());
                        match &**param {
                            ASTNode::Atom(name) => {
                                let mut inner = env;
                                inner.insert(name.clone(), (**rhs).clone());
                                body.reduce(inner)
                            },
                            _ => unreached(),
                        }
                    },
                    _ => {
                        let left = lhs.reduce(env.clone());
                        let right = rhs.reduce(env);
                        ASTNode::Application { lhs: Box::new(left), rhs: Box::new(right) }
                    },
                }
            },
            ASTNode::Atom(name) => {
                match env.get(name) {
                    Some(node) => node.clone(),
                    None => self.clone(),
                }
            },
            ASTNode::Epsilon => ASTNode::Epsilon,
        }
    }

    /// The text of this tree.
    pub fn render(&self) -> (r: String)
        ensures
            r@ == self@.render(),
        decreases self,
    {
        proof {
            reveal_strlit("λ");
            reveal_strlit(".");
            reveal_strlit("(");
            reveal_strlit(" ");
            reveal_strlit(")");
            reveal_strlit("ε");
        }
        match self {
            ASTNode::Abstraction { param, body } => {
                let mut out = String::from_str("λ");
                assert(out@ =~= seq!['λ']);
                out.append(param.render().as_str());
                out.append(".");
                assert("."@ =~= seq!['.']);
                out.append(body.render().as_str());
                out
            },
            ASTNode::Application { lhs, rhs } => {
                let mut out = String::from_str("(");
                assert(out@ =~= seq!['(']);
                out.append(lhs.render().as_str());
                out.append(" ");
                assert(" "@ =~= seq![' ']);
                out.append(rhs.render().as_str());
                out.append(")");
                assert(")"@ =~= seq![')']);
                out
            },
            ASTNode::Atom(name) => name.clone(),
            ASTNode::Epsilon => {
                let out = String::from_str("ε");
                assert(out@ =~= seq!['ε']);
                out
            },
        }
    }

    /// Whether `atom` occurs unbound inside this tree.
    pub fn free_in(&self, atom: &ASTNode) -> (r: bool)
        ensures
            r == self@.has_free(atom@),
        decreases self,
    {
        match self {
            ASTNode::Abstraction { param, body } => !atom.same_as(param) && body.free_in(atom),
            ASTNode::Application { lhs, rhs } => lhs.free_in(atom) || rhs.free_in(atom),
            ASTNode::Atom(_) => self.same_as(atom),
            ASTNode::Epsilon => false,
        }
    }
}

/// Removes the placeholder from argument position, once, top-down: an
/// application whose argument is the placeholder becomes the placeholder.
pub fn remove_epsilon(ast: ASTNode) -> (r: ASTNode)
    ensures
        r@ == ast@.strip(),
    decreases ast,
{
    match ast {
        ASTNode::Abstraction { param, body } => ASTNode::Abstraction {
            param,
            body: Box::new(remove_epsilon(*body)),
        },
        ASTNode::Application { lhs, rhs } => match *rhs {
            ASTNode::Epsilon => ASTNode::Epsilon,
            arg => ASTNode::Application {
                lhs: Box::new(remove_epsilon(*lhs)),
                rhs: Box::new(remove_epsilon(arg)),
            },
        },
        ASTNode::Atom(name) => ASTNode::Atom(name),
        ASTNode::Epsilon => ASTNode::Epsilon,
    }
}

} // verus!
