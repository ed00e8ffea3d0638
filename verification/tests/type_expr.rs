use tex_models::type_expr::{abstract_type_variable, contains_unbound_natural, open_sequence_element};
use tex_models::{Environment, Expr, Finop, Monop, RawExpr, TypeExpr, Variable};

#[test]
fn abstracts_and_opens_shifted_sequence_positions() {
    let index = Variable::new("i");
    let ty = TypeExpr::Matrix(
        Expr::new(RawExpr::Variable(index.clone())),
        Expr::new(RawExpr::NatLiteral(1)),
    );
    let source_position = Expr::new(RawExpr::Finop(
        Finop::Plus,
        vec![
            Expr::new(RawExpr::NatLiteral(2)),
            Expr::new(RawExpr::BoundNatural(tex_models::DeBruijnIndex(0))),
            Expr::new(RawExpr::Monop(Monop::Neg, Expr::new(RawExpr::NatLiteral(1)))),
        ],
    ));
    let abstracted = abstract_type_variable(&ty, &index, &source_position);
    assert!(contains_unbound_natural(&abstracted));
    let opened = open_sequence_element(&abstracted, &Expr::new(RawExpr::NatLiteral(3)));
    let TypeExpr::Matrix(rows, _) = opened else {
        panic!("expected a matrix type")
    };
    assert_eq!(Environment::default().evaluate_natural(&rows), Ok(4));
    assert!(!contains_unbound_natural(&TypeExpr::Matrix(
        rows,
        Expr::new(RawExpr::NatLiteral(1)),
    )));
}

#[test]
fn nested_sequence_binders_shift_without_capture() {
    let outer = Variable::new("i");
    let inner = TypeExpr::Sequence(
        Expr::new(RawExpr::Type(TypeExpr::Matrix(
            Expr::new(RawExpr::Variable(outer.clone())),
            Expr::new(RawExpr::BoundNatural(tex_models::DeBruijnIndex(0))),
        ))),
        Expr::new(RawExpr::NatLiteral(2)),
    );
    let abstracted = abstract_type_variable(
        &inner,
        &outer,
        &Expr::new(RawExpr::BoundNatural(tex_models::DeBruijnIndex(0))),
    );
    assert!(!contains_unbound_natural(&TypeExpr::Sequence(
        Expr::new(RawExpr::Type(abstracted)),
        Expr::new(RawExpr::NatLiteral(3)),
    )));
}
