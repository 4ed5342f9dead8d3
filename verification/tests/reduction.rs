use lambda_calc::ast::{remove_epsilon, ASTNode};
use lambda_calc::env::Env;

fn atom(name: &str) -> ASTNode {
    ASTNode::Atom(String::from(name))
}

fn lam(param: &str, body: ASTNode) -> ASTNode {
    ASTNode::Abstraction { param: Box::new(atom(param)), body: Box::new(body) }
}

fn app(lhs: ASTNode, rhs: ASTNode) -> ASTNode {
    ASTNode::Application { lhs: Box::new(lhs), rhs: Box::new(rhs) }
}

#[test]
fn bound_atom_is_replaced_by_its_binding() {
    let mut env = Env::new();
    env.insert(String::from("x"), lam("z", atom("z")));
    assert_eq!(atom("x").reduce(env.clone()), lam("z", atom("z")));
    assert_eq!(atom("y").reduce(env), atom("y"));
}

#[test]
fn binding_is_inserted_without_being_reduced() {
    let mut env = Env::new();
    let redex = app(lam("z", atom("z")), atom("w"));
    env.insert(String::from("x"), redex.clone());
    assert_eq!(atom("x").reduce(env), redex);
}

#[test]
fn beta_redex_binds_parameter_to_argument() {
    let tree = app(lam("x", app(atom("x"), atom("x"))), atom("y"));
    assert_eq!(tree.reduce(Env::new()), app(atom("y"), atom("y")));
}

#[test]
fn argument_of_redex_is_not_reduced_first() {
    let inner = app(lam("z", atom("z")), atom("w"));
    let tree = app(lam("x", atom("x")), inner.clone());
    assert_eq!(tree.reduce(Env::new()), inner);
}

#[test]
fn application_reduces_both_sides_under_same_bindings() {
    let mut env = Env::new();
    env.insert(String::from("x"), atom("a"));
    let tree = app(app(atom("f"), atom("x")), app(lam("x", atom("x")), atom("x")));
    // The redex on the right binds x to the atom x, as it stands; the left
    // side still sees the outer binding.
    assert_eq!(tree.reduce(env), app(app(atom("f"), atom("a")), atom("x")));
}

#[test]
fn abstraction_hides_outer_binding_of_its_parameter() {
    let mut env = Env::new();
    env.insert(String::from("x"), atom("a"));
    env.insert(String::from("y"), atom("b"));
    let tree = lam("x", app(atom("x"), atom("y")));
    assert_eq!(tree.reduce(env), lam("x", app(atom("x"), atom("b"))));
}

#[test]
fn eta_redex_collapses_to_its_function() {
    let tree = lam("x", app(atom("f"), atom("x")));
    assert_eq!(tree.reduce(Env::new()), atom("f"));
}

#[test]
fn eta_needs_parameter_not_free_in_function() {
    let tree = lam("x", app(atom("x"), atom("x")));
    assert_eq!(tree.reduce(Env::new()), tree);
}

#[test]
fn eta_function_is_reduced_under_the_bindings() {
    let mut env = Env::new();
    env.insert(String::from("f"), atom("g"));
    env.insert(String::from("x"), atom("a"));
    let tree = lam("x", app(atom("f"), atom("x")));
    assert_eq!(tree.reduce(env), atom("g"));
}

#[test]
fn placeholder_reduces_to_itself() {
    assert_eq!(ASTNode::Epsilon.reduce(Env::new()), ASTNode::Epsilon);
}

#[test]
fn normal_form_is_unchanged_by_a_pass() {
    let tree = lam("x", app(app(atom("x"), atom("y")), lam("z", atom("z"))));
    assert_eq!(tree.reduce(Env::new()), tree);
}

#[test]
fn binding_of_a_name_that_is_not_free_changes_nothing() {
    let tree = app(lam("x", app(atom("x"), atom("y"))), atom("z"));
    assert!(!tree.free_in(&atom("x")));
    let mut env = Env::new();
    env.insert(String::from("x"), app(atom("p"), atom("q")));
    assert_eq!(tree.reduce(env), tree.reduce(Env::new()));
}

#[test]
fn free_in_follows_shadowing() {
    let x = atom("x");
    assert!(atom("x").free_in(&x));
    assert!(!atom("y").free_in(&x));
    assert!(app(atom("y"), atom("x")).free_in(&x));
    assert!(!lam("x", atom("x")).free_in(&x));
    assert!(lam("y", atom("x")).free_in(&x));
    assert!(!ASTNode::Epsilon.free_in(&x));
    assert!(!lam("y", lam("x", atom("x"))).free_in(&x));
}

#[test]
fn remove_epsilon_drops_application_with_empty_argument() {
    assert_eq!(remove_epsilon(app(atom("a"), ASTNode::Epsilon)), ASTNode::Epsilon);
    assert_eq!(
        remove_epsilon(app(lam("x", atom("x")), ASTNode::Epsilon)),
        ASTNode::Epsilon
    );
}

#[test]
fn remove_epsilon_keeps_other_nodes() {
    assert_eq!(remove_epsilon(atom("a")), atom("a"));
    assert_eq!(remove_epsilon(ASTNode::Epsilon), ASTNode::Epsilon);
    assert_eq!(remove_epsilon(lam("x", ASTNode::Epsilon)), lam("x", ASTNode::Epsilon));
    assert_eq!(
        remove_epsilon(app(ASTNode::Epsilon, atom("a"))),
        app(ASTNode::Epsilon, atom("a"))
    );
    assert_eq!(
        remove_epsilon(lam("x", app(atom("a"), ASTNode::Epsilon))),
        lam("x", ASTNode::Epsilon)
    );
}

#[test]
fn remove_epsilon_twice_is_once_where_nothing_is_left_over() {
    let tree = app(lam("x", app(atom("a"), ASTNode::Epsilon)), atom("b"));
    let once = remove_epsilon(tree);
    assert_eq!(once, app(lam("x", ASTNode::Epsilon), atom("b")));
    assert_eq!(remove_epsilon(once.clone()), once);
}

#[test]
fn remove_epsilon_looks_at_the_argument_before_cleaning_it() {
    // The argument becomes the placeholder only by the clean-up itself, so
    // the application around it stays, and a second clean-up would drop it.
    let tree = app(atom("a"), app(atom("b"), ASTNode::Epsilon));
    let once = remove_epsilon(tree);
    assert_eq!(once, app(atom("a"), ASTNode::Epsilon));
    assert_eq!(remove_epsilon(once), ASTNode::Epsilon);
}

#[test]
fn render_follows_the_shape() {
    assert_eq!(atom("abc").render(), "abc");
    assert_eq!(ASTNode::Epsilon.render(), "ε");
    assert_eq!(lam("x", app(atom("y"), atom("x"))).render(), "λx.(y x)");
    assert_eq!(app(lam("x", atom("x")), ASTNode::Epsilon).render(), "(λx.x ε)");
}

#[test]
fn equality_is_structural() {
    assert_eq!(lam("x", atom("y")), lam("x", atom("y")));
    assert_ne!(lam("x", atom("y")), lam("x", atom("z")));
    assert_ne!(lam("x", atom("y")), app(atom("x"), atom("y")));
    assert_ne!(atom("x"), ASTNode::Epsilon);
    assert!(app(atom("x"), atom("y")).same_as(&app(atom("x"), atom("y"))));
    assert!(!app(atom("x"), atom("y")).same_as(&app(atom("y"), atom("x"))));
}

#[test]
fn clone_is_a_deep_copy() {
    let tree = app(lam("x", atom("x")), ASTNode::Epsilon);
    assert_eq!(tree.clone(), tree);
}

#[test]
fn env_later_binding_replaces_earlier() {
    let mut env = Env::new();
    let x = String::from("x");
    assert!(!env.contains_key(&x));
    assert_eq!(env.get(&x), None);
    env.insert(String::from("x"), atom("a"));
    env.insert(String::from("y"), atom("c"));
    env.insert(String::from("x"), atom("b"));
    assert!(env.contains_key(&x));
    assert_eq!(env.get(&x), Some(&atom("b")));
    assert_eq!(env.get(&String::from("y")), Some(&atom("c")));
}

#[test]
fn env_remove_unbinds_every_entry_of_the_name() {
    let mut env = Env::new();
    let x = String::from("x");
    env.insert(String::from("x"), atom("a"));
    env.insert(String::from("y"), atom("c"));
    env.insert(String::from("x"), atom("b"));
    let snapshot = env.clone();
    env.remove(&x);
    assert_eq!(env.get(&x), None);
    assert_eq!(env.get(&String::from("y")), Some(&atom("c")));
    env.remove(&String::from("z"));
    assert_eq!(env.get(&String::from("y")), Some(&atom("c")));
    // The copy taken before is not touched.
    assert_eq!(snapshot.get(&x), Some(&atom("b")));
}

#[test]
fn free_names_of_a_result_come_from_the_tree_or_from_replacements() {
    let mut env = Env::new();
    env.insert(String::from("x"), app(atom("a"), atom("b")));
    let result = app(atom("f"), atom("x")).reduce(env);
    assert_eq!(result, app(atom("f"), app(atom("a"), atom("b"))));
    assert!(result.free_in(&atom("f")));
    assert!(result.free_in(&atom("a")));
    assert!(result.free_in(&atom("b")));
    assert!(!result.free_in(&atom("x")));
}

#[test]
fn replacement_is_captured_beneath_a_binder_of_its_name() {
    let mut env = Env::new();
    env.insert(String::from("x"), atom("y"));
    let result = lam("y", app(atom("x"), atom("x"))).reduce(env);
    assert_eq!(result, lam("y", app(atom("y"), atom("y"))));
    assert!(!result.free_in(&atom("y")));
}

#[test]
fn beta_redex_can_free_a_bound_name() {
    // λx.((λy.y) x) applied to a: the inner argument x is inserted as it
    // stands, outside the reach of the binding of x.
    let tree = app(lam("x", app(lam("y", atom("y")), atom("x"))), atom("a"));
    assert!(!tree.free_in(&atom("x")));
    let result = tree.reduce(Env::new());
    assert_eq!(result, atom("x"));
    assert!(result.free_in(&atom("x")));
}

#[test]
fn well_formed_trees_bind_atoms_only() {
    assert!(atom("x").is_well_formed());
    assert!(ASTNode::Epsilon.is_well_formed());
    assert!(app(lam("x", atom("x")), lam("y", ASTNode::Epsilon)).is_well_formed());
    let bad = ASTNode::Abstraction {
        param: Box::new(ASTNode::Epsilon),
        body: Box::new(atom("x")),
    };
    assert!(!bad.is_well_formed());
    assert!(!app(atom("f"), lam("x", bad)).is_well_formed());
}
