//! Properties of the clean-up, of reduction and of repeated reduction.

use crate::term::{bindings_well_formed, Bindings, Term};
use vstd::prelude::*;

verus! {

/// One reduction pass keeps a tree well formed, provided that the
/// replacement terms are.
pub proof fn lemma_reduce_well_formed(t: Term, env: Bindings)
    requires
        t.well_formed(),
        bindings_well_formed(env),
    ensures
        t.reduce(env).well_formed(),
    decreases t,
{
    match t {
        Term::Abstraction { param, body } => {
            let inner = env.remove(param.name());
            assert(body.well_formed());
            match *body {
                Term::Application { lhs, rhs } => {
                    assert(lhs.well_formed());
                    lemma_reduce_well_formed(*lhs, inner);
                    lemma_reduce_well_formed(*body, inner);
                },
                _ => {
                    lemma_reduce_well_formed(*body, inner);
                },
            }
        },
        Term::Application { lhs, rhs } => match *lhs {
            Term::Abstraction { param, body } => {
                assert(lhs.well_formed() && rhs.well_formed());
                assert(body.well_formed());
                lemma_reduce_well_formed(*body, env.insert(param.name(), *rhs));
            },
            _ => {
                lemma_reduce_well_formed(*lhs, env);
                lemma_reduce_well_formed(*rhs, env);
            },
        },
        Term::Atom(n) => {},
        Term::Epsilon => {},
    }
}

/// Cleaning up keeps a tree well formed.
pub proof fn lemma_strip_well_formed(t: Term)
    requires
        t.well_formed(),
    ensures
        t.strip().well_formed(),
    decreases t,
{
    match t {
        Term::Abstraction { param, body } => {
            lemma_strip_well_formed(*body);
        },
        Term::Application { lhs, rhs } => {
            lemma_strip_well_formed(*lhs);
            lemma_strip_well_formed(*rhs);
        },
        Term::Atom(_) => {},
        Term::Epsilon => {},
    }
}

/// Cleaning up twice gives what cleaning up once gives, for every tree that
/// strips in one pass.
pub proof fn lemma_strip_idempotent(t: Term)
    requires
        t.strips_in_one_pass(),
    ensures
        t.strip().strip() == t.strip(),
    decreases t,
{
    match t {
        Term::Abstraction { param, body } => {
            lemma_strip_idempotent(*body);
        },
        Term::Application { lhs, rhs } => {
            if !(*rhs is Epsilon) {
                lemma_strip_idempotent(*lhs);
                lemma_strip_idempotent(*rhs);
            }
        },
        Term::Atom(_) => {},
        Term::Epsilon => {},
    }
}

/// For every other tree a second clean-up changes the result of the first:
/// an application whose argument was cleaned to the placeholder is then
/// dropped in its turn.
pub proof fn lemma_strip_twice_differs(t: Term)
    requires
        !t.strips_in_one_pass(),
    ensures
        t.strip().strip() != t.strip(),
    decreases t,
{
    match t {
        Term::Abstraction { param, body } => {
            lemma_strip_twice_differs(*body);
        },
        Term::Application { lhs, rhs } => {
            if !(rhs.strip() is Epsilon) {
                if !lhs.strips_in_one_pass() {
                    lemma_strip_twice_differs(*lhs);
                } else {
                    lemma_strip_twice_differs(*rhs);
                }
            }
        },
        Term::Atom(_) => {},
        Term::Epsilon => {},
    }
}

/// A tree in normal form is a fixpoint of reduction: a pass with no bindings
/// returns it unchanged.
pub proof fn lemma_normal_form_is_fixpoint(t: Term)
    requires
        t.is_normal(),
    ensures
        t.reduce(Bindings::empty()) == t,
    decreases t,
{
    match t {
        Term::Abstraction { param, body } => {
            assert(Bindings::empty().remove(param.name()) =~= Bindings::empty());
            lemma_normal_form_is_fixpoint(*body);
        },
        Term::Application { lhs, rhs } => {
            lemma_normal_form_is_fixpoint(*lhs);
            lemma_normal_form_is_fixpoint(*rhs);
        },
        Term::Atom(_) => {},
        Term::Epsilon => {},
    }
}

/// A binding of a name that does not occur free in a tree plays no part in
/// the reduction of that tree.
pub proof fn lemma_reduce_ignores_unused_name(t: Term, env: Bindings, name: Seq<char>)
    requires
        !t.has_free(Term::Atom(name)),
    ensures
        t.reduce(env) == t.reduce(env.remove(name)),
    decreases t,
{
    let atom = Term::Atom(name);
    match t {
        Term::Abstraction { param, body } => {
            let inner = env.remove(param.name());
            let inner2 = env.remove(name).remove(param.name());
            if param.name() == name {
                assert(inner =~= inner2);
            } else {
                assert(inner.remove(name) =~= inner2);
                assert(inner2.remove(name) =~= inner2);
                assert(!body.has_free(atom));
                match *body {
                    Term::Application { lhs, rhs } => {
                        lemma_reduce_ignores_unused_name(*lhs, inner, name);
                        lemma_reduce_ignores_unused_name(*lhs, inner2, name);
                    },
                    _ => {},
                }
                lemma_reduce_ignores_unused_name(*body, inner, name);
                lemma_reduce_ignores_unused_name(*body, inner2, name);
            }
        },
        Term::Application { lhs, rhs } => match *lhs {
            Term::Abstraction { param, body } => {
                let inner = env.insert(param.name(), *rhs);
                let inner2 = env.remove(name).insert(param.name(), *rhs);
                if param.name() == name {
                    assert(inner =~= inner2);
                } else {
                    assert(inner.remove(name) =~= inner2.remove(name));
                    assert(!lhs.has_free(atom));
                    assert(!body.has_free(atom));
                    lemma_reduce_ignores_unused_name(*body, inner, name);
                    lemma_reduce_ignores_unused_name(*body, inner2, name);
                }
            },
            _ => {
                lemma_reduce_ignores_unused_name(*lhs, env, name);
                lemma_reduce_ignores_unused_name(*rhs, env, name);
            },
        },
        Term::Atom(_) => {},
        Term::Epsilon => {},
    }
}

/// Free-variable analysis agrees with substitution: where `name` does not
/// occur free in `t`, binding it to any `value` gives the tree that leaving
/// it unbound gives.  No name that is free in `value` can therefore appear
/// in the result on account of the binding.
pub proof fn lemma_binding_unused_name(t: Term, env: Bindings, name: Seq<char>, value: Term)
    requires
        !t.has_free(Term::Atom(name)),
    ensures
        t.reduce(env.insert(name, value)) == t.reduce(env.remove(name)),
        forall|other: Term|
            t.reduce(env.insert(name, value)).has_free(other) == t.reduce(
                env.remove(name),
            ).has_free(other),
{
    lemma_reduce_ignores_unused_name(t, env.insert(name, value), name);
    assert(env.insert(name, value).remove(name) =~= env.remove(name));
}

/// `atom` occurs free in `t` itself, or in the replacement of a name that
/// is bound in `env` and occurs free in `t`.
pub open spec fn free_by_origin(t: Term, env: Bindings, atom: Term) -> bool {
    t.has_free(atom) || exists|n: Seq<char>|
        #[trigger] env.contains_key(n) && t.has_free(Term::Atom(n)) && env[n].has_free(atom)
}

/// Substitution introduces no free name of its own: what occurs free in the
/// result of a pass over a tree without beta redexes occurs free in the
/// tree, or in the replacement of a name that occurs free in the tree.  The
/// converse does not hold: a name that is free in a replacement is bound
/// where the replacement lands beneath an abstraction of that name.
pub proof fn lemma_reduce_free_names(t: Term, env: Bindings, atom: Term)
    requires
        !t.has_beta_redex(),
        t.reduce(env).has_free(atom),
    ensures
        free_by_origin(t, env, atom),
    decreases t,
{
    match t {
        Term::Abstraction { param, body } => {
            let inner = env.remove(param.name());
            let eta = match *body {
                Term::Application { lhs, rhs } => *rhs == *param && !lhs.has_free(*param),
                _ => false,
            };
            let target = match *body {
                Term::Application { lhs, rhs } => if eta {
                    *lhs
                } else {
                    *body
                },
                _ => *body,
            };
            assert(!body.has_beta_redex());
            assert(!target.has_beta_redex());
            assert(target.reduce(inner).has_free(atom));
            lemma_reduce_free_names(target, inner, atom);
            assert(target.has_free(atom) ==> body.has_free(atom) && atom != *param);
            if !target.has_free(atom) {
                let n = choose|n: Seq<char>|
                    #[trigger] inner.contains_key(n) && target.has_free(Term::Atom(n))
                        && inner[n].has_free(atom);
                assert(env.contains_key(n) && env[n] == inner[n]);
                assert(body.has_free(Term::Atom(n)));
                assert(Term::Atom(n) != *param);
                assert(t.has_free(Term::Atom(n)));
            }
        },
        Term::Application { lhs, rhs } => {
            if lhs.reduce(env).has_free(atom) {
                lemma_reduce_free_names(*lhs, env, atom);
                if !lhs.has_free(atom) {
                    let n = choose|n: Seq<char>|
                        #[trigger] env.contains_key(n) && lhs.has_free(Term::Atom(n))
                            && env[n].has_free(atom);
                    assert(env.contains_key(n) && t.has_free(Term::Atom(n)));
                }
            } else {
                lemma_reduce_free_names(*rhs, env, atom);
                if !rhs.has_free(atom) {
                    let n = choose|n: Seq<char>|
                        #[trigger] env.contains_key(n) && rhs.has_free(Term::Atom(n))
                            && env[n].has_free(atom);
                    assert(env.contains_key(n) && t.has_free(Term::Atom(n)));
                }
            }
        },
        Term::Atom(n) => {
            if env.contains_key(n) {
                assert(env.contains_key(n) && t.has_free(Term::Atom(n)) && env[n].has_free(atom));
            }
        },
        Term::Epsilon => {},
    }
}

/// What repeated reduction returns is a fixpoint of reduction.
pub proof fn lemma_normalize_gives_fixpoint(t: Term, limit: nat)
    requires
        t.normalize(limit) is Some,
    ensures
        t.normalize(limit)->0.reduce(Bindings::empty()) == t.normalize(limit)->0,
    decreases limit,
{
    if limit > 0 {
        let next = t.reduce(Bindings::empty());
        if next != t {
            lemma_normalize_gives_fixpoint(next, (limit - 1) as nat);
        }
    }
}

/// A larger limit does not change a result that a smaller one reached.
pub proof fn lemma_normalize_limit_monotone(t: Term, limit: nat, more: nat)
    requires
        t.normalize(limit) is Some,
        limit <= more,
    ensures
        t.normalize(more) == t.normalize(limit),
    decreases limit,
{
    if limit > 0 {
        let next = t.reduce(Bindings::empty());
        if next != t {
            lemma_normalize_limit_monotone(next, (limit - 1) as nat, (more - 1) as nat);
        }
    }
}

/// Repeated reduction keeps a tree well formed.
pub proof fn lemma_normalize_well_formed(t: Term, limit: nat)
    requires
        t.well_formed(),
        t.normalize(limit) is Some,
    ensures
        t.normalize(limit)->0.well_formed(),
    decreases limit,
{
    if limit > 0 {
        let next = t.reduce(Bindings::empty());
        lemma_reduce_well_formed(t, Bindings::empty());
        if next != t {
            lemma_normalize_well_formed(next, (limit - 1) as nat);
        }
    }
}

/// A tree in normal form is returned as it is by the first pass.
pub proof fn lemma_normalize_normal_form(t: Term, limit: nat)
    requires
        t.is_normal(),
        limit > 0,
    ensures
        t.normalize(limit) == Some(t),
{
    lemma_normal_form_is_fixpoint(t);
}

} // verus!
