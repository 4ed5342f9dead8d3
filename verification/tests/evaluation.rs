use lambda_calc::ast::ASTNode;
use lambda_calc::eval::{evaluate, normalize, EvalError, PASS_LIMIT};
use lambda_calc::lexer::LexError;
use lambda_calc::parser::ParseError;

fn shown(expr: &str) -> String {
    evaluate(expr).unwrap().render()
}

#[test]
fn test_evaluation() {
    // identity combinator
    // (λx.x) y -> y
    assert_eq!(evaluate("(λx.x) y").unwrap(), ASTNode::Atom(String::from("y")));

    // application combinator
    // ((λy.λx.(y x)) (λx.x x)) y -> y y
    assert_eq!(
        evaluate("((λy.λx.(y x)) (λx.x x)) y").unwrap(),
        ASTNode::Application {
            lhs: Box::new(ASTNode::Atom(String::from("y"))),
            rhs: Box::new(ASTNode::Atom(String::from("y"))),
        }
    );

    // simple eta-reducible expression
    // λx.(y x) -> y
    assert_eq!(evaluate("λx.(y x)").unwrap(), ASTNode::Atom(String::from("y")));

    // complex eta-reducible expression
    // (λx.(λx.y x) (λx.z x)) x -> y z
    assert_eq!(
        evaluate("(λx.(λx.y x) (λx.z x)) x").unwrap(),
        ASTNode::Application {
            lhs: Box::new(ASTNode::Atom(String::from("y"))),
            rhs: Box::new(ASTNode::Atom(String::from("z"))),
        }
    );

    // if-else combinator (5 beta-reductions)
    // (λp.λa.λb.p a b) (λa.λb. a) a b -> a
    assert_eq!(
        evaluate("(λp.λa.λb.p a b) (λa.λb. a) a b").unwrap(),
        ASTNode::Atom(String::from("a"))
    );

    // alpha-beta-eta combination
    // (λz.z (λx. w x)) y -> y w
    assert_eq!(
        evaluate("(λz.z (λx. w x)) y").unwrap(),
        ASTNode::Application {
            lhs: Box::new(ASTNode::Atom(String::from("y"))),
            rhs: Box::new(ASTNode::Atom(String::from("w"))),
        }
    );

    // possible name collision
    // (λx.λx.(x x)) y w -> w w
    assert_eq!(
        evaluate("(λx.λx.(x x)) y w").unwrap(),
        ASTNode::Application {
            lhs: Box::new(ASTNode::Atom(String::from("w"))),
            rhs: Box::new(ASTNode::Atom(String::from("w"))),
        }
    );
}

#[test]
fn identity_applied_renders_argument() {
    assert_eq!(shown("(λx.x) y"), "y");
}

#[test]
fn application_combinator_renders() {
    assert_eq!(shown("((λy.λx.(y x)) (λx.x x)) y"), "(y y)");
}

#[test]
fn eta_contraction_renders() {
    assert_eq!(shown("λx.(y x)"), "y");
}

#[test]
fn nested_eta_renders() {
    assert_eq!(shown("(λx.(λx.y x) (λx.z x)) x"), "(y z)");
}

#[test]
fn church_boolean_renders() {
    assert_eq!(shown("(λp.λa.λb.p a b) (λa.λb. a) a b"), "a");
}

#[test]
fn mixed_reductions_render() {
    assert_eq!(shown("(λz.z (λx. w x)) y"), "(y w)");
}

#[test]
fn shadowing_resolves_to_innermost_binder() {
    assert_eq!(shown("(λx.λx.(x x)) y w"), "(w w)");
}

#[test]
fn backslash_is_lambda() {
    assert_eq!(shown("(\\x.x) y"), "y");
}

#[test]
fn free_argument_is_captured_by_inner_binder() {
    // The argument y is substituted beneath the binder λy and is bound by it.
    assert_eq!(shown("(λx.λy.x) y"), "λy.y");
}

#[test]
fn substituted_argument_is_not_reduced_under_outer_bindings() {
    // The inner argument x is inserted as it stands; the outer binding of x
    // is gone by the time the next pass sees it.
    assert_eq!(shown("(λx.(λy.y) x) a"), "x");
}

#[test]
fn self_application_is_a_fixpoint_of_one_pass() {
    assert_eq!(shown("(λx.x x) (λx.x x)"), "(λx.(x x) λx.(x x))");
}

#[test]
fn empty_argument_drops_the_application() {
    assert_eq!(evaluate("a ()"), Ok(ASTNode::Epsilon));
    assert_eq!(shown("a ()"), "ε");
}

#[test]
fn empty_text_is_the_placeholder() {
    assert_eq!(evaluate(""), Ok(ASTNode::Epsilon));
    assert_eq!(evaluate("   "), Ok(ASTNode::Epsilon));
}

#[test]
fn empty_body_is_kept() {
    assert_eq!(
        evaluate("λx."),
        Ok(ASTNode::Abstraction {
            param: Box::new(ASTNode::Atom(String::from("x"))),
            body: Box::new(ASTNode::Epsilon),
        })
    );
}

#[test]
fn lexical_error_is_reported() {
    assert_eq!(
        evaluate("x 1"),
        Err(EvalError::Lex(LexError::MalformedIdentifier { position: 1, found: '1' }))
    );
}

#[test]
fn syntax_error_is_reported() {
    assert_eq!(evaluate("(x"), Err(EvalError::Parse(ParseError::UnexpectedToken { position: 2 })));
    assert_eq!(evaluate("."), Err(EvalError::Parse(ParseError::UnexpectedToken { position: 0 })));
}

#[test]
fn growing_term_does_not_converge() {
    assert_eq!(evaluate("(λx.x x x) (λx.x x x)"), Err(EvalError::NotConverged));
}

#[test]
fn pass_limit_value() {
    assert_eq!(PASS_LIMIT, 1000);
}

fn identity_applied_to_y() -> ASTNode {
    ASTNode::Application {
        lhs: Box::new(ASTNode::Abstraction {
            param: Box::new(ASTNode::Atom(String::from("x"))),
            body: Box::new(ASTNode::Atom(String::from("x"))),
        }),
        rhs: Box::new(ASTNode::Atom(String::from("y"))),
    }
}

#[test]
fn normalize_needs_one_pass_more_than_the_last_change() {
    // One pass contracts the redex, a second one finds nothing to do.
    assert_eq!(normalize(identity_applied_to_y(), 0), None);
    assert_eq!(normalize(identity_applied_to_y(), 1), None);
    assert_eq!(normalize(identity_applied_to_y(), 2), Some(ASTNode::Atom(String::from("y"))));
    assert_eq!(normalize(identity_applied_to_y(), 50), Some(ASTNode::Atom(String::from("y"))));
}

#[test]
fn normalize_returns_normal_form_on_first_pass() {
    let y = ASTNode::Atom(String::from("y"));
    assert_eq!(normalize(y.clone(), 1), Some(y));
    assert_eq!(normalize(ASTNode::Epsilon, 0), None);
}

#[test]
fn normalize_cleans_up_before_reducing() {
    let tree = ASTNode::Application {
        lhs: Box::new(identity_applied_to_y()),
        rhs: Box::new(ASTNode::Epsilon),
    };
    assert_eq!(normalize(tree, 1), Some(ASTNode::Epsilon));
}
