//! The mathematical model of expression trees and of the reduction rules.
//!
//! A [`Term`] mirrors the executable tree but names are plain character
//! sequences, and a binding environment is a `Map` from names to terms.

use vstd::prelude::*;

verus! {

/// An expression tree whose names are character sequences.
pub enum Term {
    /// `λparam.body`; `param` is expected to be an `Atom`.
    Abstraction { param: Box<Term>, body: Box<Term> },
    /// `lhs` applied to `rhs`.
    Application { lhs: Box<Term>, rhs: Box<Term> },
    /// A bare identifier.
    Atom(Seq<char>),
    /// The placeholder for "no expression here".
    Epsilon,
}

/// A binding environment: replacement terms by name.
pub type Bindings = Map<Seq<char>, Term>;

impl Term {
    /// Every abstraction in the tree binds an atom.
    pub open spec fn well_formed(self) -> bool
        decreases self,
    {
        match self {
            Term::Abstraction { param, body } => *param is Atom && body.well_formed(),
            Term::Application { lhs, rhs } => lhs.well_formed() && rhs.well_formed(),
            Term::Atom(_) => true,
            Term::Epsilon => true,
        }
    }

    /// The name carried by an atom (the empty name for any other node).
    pub open spec fn name(self) -> Seq<char> {
        match self {
            Term::Atom(n) => n,
            _ => Seq::empty(),
        }
    }

    /// `atom` occurs unbound somewhere inside `self`.
    ///
    /// An abstraction whose parameter equals `atom` hides every occurrence
    /// beneath it.
    pub open spec fn has_free(self, atom: Term) -> bool
        decreases self,
    {
        match self {
            Term::Abstraction { param, body } => atom != *param && body.has_free(atom),
            Term::Application { lhs, rhs } => lhs.has_free(atom) || rhs.has_free(atom),
            Term::Atom(_) => self == atom,
            Term::Epsilon => false,
        }
    }

    /// `self` has the shape `λp.(f p)` where `p` does not occur free in `f`.
    pub open spec fn is_eta_redex(self) -> bool {
        match self {
            Term::Abstraction { param, body } => match *body {
                Term::Application { lhs, rhs } => *rhs == *param && !lhs.has_free(*param),
                _ => false,
            },
            _ => false,
        }
    }

    /// `self` is an application whose function position is an abstraction.
    pub open spec fn is_beta_redex(self) -> bool {
        match self {
            Term::Application { lhs, rhs } => *lhs is Abstraction,
            _ => false,
        }
    }

    /// One reduction pass over `self` under the bindings `env`.
    ///
    /// Bound atoms are replaced by their bindings, which are inserted as they
    /// are and not reduced further.  A beta redex becomes the reduced body of
    /// its abstraction with the parameter bound to the unreduced argument.  An
    /// eta redex `λp.(f p)` becomes the reduced `f`.  An abstraction removes
    /// the binding of its own parameter before anything beneath it is reduced.
    pub open spec fn reduce(self, env: Bindings) -> Term
        decreases self,
    {
        match self {
            Term::Abstraction { param, body } => {
                let inner = env.remove(param.name());
                match *body {
                    Term::Application { lhs, rhs } => if *rhs == *param && !lhs.has_free(*param) {
                        lhs.reduce(inner)
                    } else {
                        Term::Abstraction { param, body: Box::new(body.reduce(inner)) }
                    },
                    _ => Term::Abstraction { param, body: Box::new(body.reduce(inner)) },
                }
            },
            Term::Application { lhs, rhs } => match *lhs {
                Term::Abstraction { param, body } => body.reduce(env.insert(param.name(), *rhs)),
                _ => Term::Application {
                    lhs: Box::new(lhs.reduce(env)),
                    rhs: Box::new(rhs.reduce(env)),
                },
            },
            Term::Atom(n) => if env.contains_key(n) {
                env[n]
            } else {
                self
            },
            Term::Epsilon => self,
        }
    }

    /// The tree without the placeholder in argument position: an application
    /// whose argument is the placeholder is itself replaced by the
    /// placeholder, and its function position is dropped.  The test looks at
    /// the argument as it stands, before anything beneath is cleaned.
    pub open spec fn strip(self) -> Term
        decreases self,
    {
        match self {
            Term::Abstraction { param, body } => Term::Abstraction {
                param,
                body: Box::new(body.strip()),
            },
            Term::Application { lhs, rhs } => if *rhs is Epsilon {
                Term::Epsilon
            } else {
                Term::Application { lhs: Box::new(lhs.strip()), rhs: Box::new(rhs.strip()) }
            },
            Term::Atom(_) => self,
            Term::Epsilon => self,
        }
    }

    /// One clean-up leaves nothing for a second one: no application that
    /// is kept has an argument that is cleaned to the placeholder without
    /// being the placeholder already.
    pub open spec fn strips_in_one_pass(self) -> bool
        decreases self,
    {
        match self {
            Term::Abstraction { param, body } => body.strips_in_one_pass(),
            Term::Application { lhs, rhs } => *rhs is Epsilon || (!(rhs.strip() is Epsilon)
                && lhs.strips_in_one_pass() && rhs.strips_in_one_pass()),
            Term::Atom(_) => true,
            Term::Epsilon => true,
        }
    }

    /// Reduction passes repeated from `self` until one of them changes
    /// nothing: the tree that the last pass returned, or `None` if each of
    /// the first `limit` passes changed the tree.
    pub open spec fn normalize(self, limit: nat) -> Option<Term>
        decreases limit,
    {
        if limit == 0 {
            None
        } else {
            let next = self.reduce(Map::empty());
            if next == self {
                Some(next)
            } else {
                next.normalize((limit - 1) as nat)
            }
        }
    }

    /// The text of the tree: `λp.b` for an abstraction, `(l r)` for an
    /// application, the name for an atom and `ε` for the placeholder.
    pub open spec fn render(self) -> Seq<char>
        decreases self,
    {
        match self {
            Term::Abstraction { param, body } => seq!['λ'] + param.render() + seq!['.']
                + body.render(),
            Term::Application { lhs, rhs } => seq!['('] + lhs.render() + seq![' '] + rhs.render()
                + seq![')'],
            Term::Atom(n) => n,
            Term::Epsilon => seq!['ε'],
        }
    }

    /// Some application in the tree has an abstraction in function position.
    pub open spec fn has_beta_redex(self) -> bool
        decreases self,
    {
        match self {
            Term::Abstraction { param, body } => body.has_beta_redex(),
            Term::Application { lhs, rhs } => *lhs is Abstraction || lhs.has_beta_redex()
                || rhs.has_beta_redex(),
            Term::Atom(_) => false,
            Term::Epsilon => false,
        }
    }

    /// The tree holds neither a beta redex nor an eta redex.
    pub open spec fn is_normal(self) -> bool
        decreases self,
    {
        match self {
            Term::Abstraction { param, body } => !self.is_eta_redex() && body.is_normal(),
            Term::Application { lhs, rhs } => !self.is_beta_redex() && lhs.is_normal()
                && rhs.is_normal(),
            Term::Atom(_) => true,
            Term::Epsilon => true,
        }
    }
}

/// Every replacement term in `env` is well formed.
pub open spec fn bindings_well_formed(env: Bindings) -> bool {
    forall|n: Seq<char>| #[trigger] env.contains_key(n) ==> env[n].well_formed()
}

} // verus!
