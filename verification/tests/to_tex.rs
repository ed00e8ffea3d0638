use tex_models::{
    Binop, DeBruijnIndex, DimensionSupply, Expr, Finop, ImplicitDimension, Matrix, RawExpr, TypeExpr,
};

#[test]
fn verbose_latex_exposes_implicit_dimension_nonces_only_internally() {
    let mut supply = DimensionSupply::new();
    let identity = ImplicitDimension::fresh(&mut supply);
    let rows = ImplicitDimension::fresh(&mut supply);
    let cols = ImplicitDimension::fresh(&mut supply);
    let expression: Expr<()> = Expr::new(RawExpr::Finop(
        Finop::Plus,
        vec![
            Expr::new(RawExpr::IdentityMatrix { dimension: identity }),
            Expr::new(RawExpr::ZeroMatrix { rows, cols }),
        ],
    ));
    assert_eq!(expression.as_latex().to_string(), r"I + \mathbb{0}");
    assert_eq!(
        expression.as_latex_verbose().to_string(),
        format!(
            r"I_{{@{}}} + \mathbb{{0}}_{{@{},@{}}}",
            identity.nonce_id(),
            rows.nonce_id(),
            cols.nonce_id()
        )
    );

    let bound = Expr::<()>::new(RawExpr::BoundNatural(DeBruijnIndex::new(0)));
    assert_eq!(bound.as_latex_verbose().to_string(), r"\#0");
    assert_eq!(Expr::<()>::new(RawExpr::NatLiteral(0)).as_latex().to_string(), "0");
}

fn variable_expr(name: &str) -> Expr<()> {
    Expr::new(RawExpr::Variable(tex_models::Variable::new(name)))
}

fn matrix_type(rows: u64, cols: u64) -> tex_models::TypeExpr<()> {
    tex_models::TypeExpr::Matrix(
        Expr::new(RawExpr::NatLiteral(rows)),
        Expr::new(RawExpr::NatLiteral(cols)),
    )
}

fn latex(raw: RawExpr<()>) -> String {
    Expr::new(raw).as_latex().to_string()
}

#[test]
fn types_and_membership_render() {
    let rendered: Vec<String> = vec![
        TypeExpr::Bool,
        TypeExpr::Nat,
        TypeExpr::Int,
        TypeExpr::Real,
        matrix_type(3, 1),
        matrix_type(3, 4),
        matrix_type(1, 1),
    ]
    .into_iter()
    .map(|ty| latex(RawExpr::Type(ty)))
    .collect();
    assert_eq!(
        rendered.join("\n"),
        "\\mathbb{B}\n\\mathbb{N}\n\\mathbb{Z}\n\\mathbb{R}\n\\mathbb{R}^{3}\n\\mathbb{R}^{3 \\times 4}\n\\mathbb{R}^{1}"
    );
    assert_eq!(
        latex(RawExpr::Binop(
            tex_models::Binop::ElementOf,
            variable_expr("A"),
            Expr::new(RawExpr::Type(matrix_type(2, 3))),
        )),
        "A \\in \\mathbb{R}^{2 \\times 3}"
    );
}

#[test]
fn matrices_render_row_by_row_and_group_by_precedence() {
    let matrix = || Matrix {
        rows: 2,
        cols: 2,
        elements: vec![
            Expr::new(RawExpr::NatLiteral(1)),
            Expr::new(RawExpr::Finop(Finop::Plus, vec![variable_expr("x"), variable_expr("y")])),
            Expr::new(RawExpr::Binop(
                Binop::Div,
                Expr::new(RawExpr::NatLiteral(1)),
                Expr::new(RawExpr::NatLiteral(2)),
            )),
            Expr::new(RawExpr::Binop(Binop::Power, variable_expr("z"), Expr::new(RawExpr::NatLiteral(2)))),
        ],
    };
    assert_eq!(
        latex(RawExpr::Matrix(matrix())),
        "\\begin{bmatrix}1 & x + y \\\\ \\frac{1}{2} & z^{2}\\end{bmatrix}"
    );
    assert_eq!(
        latex(RawExpr::Finop(Finop::Times, vec![variable_expr("x"), Expr::new(RawExpr::Matrix(matrix()))])),
        "x \\begin{bmatrix}1 & x + y \\\\ \\frac{1}{2} & z^{2}\\end{bmatrix}"
    );
    assert_eq!(
        latex(RawExpr::Finop(
            Finop::Plus,
            vec![
                variable_expr("a"),
                Expr::new(RawExpr::Monop(tex_models::Monop::Neg, variable_expr("b"))),
                Expr::new(RawExpr::Monop(
                    tex_models::Monop::Neg,
                    Expr::new(RawExpr::Finop(Finop::Plus, vec![variable_expr("c"), variable_expr("d")])),
                )),
            ],
        )),
        "a - b - \\left(c + d\\right)"
    );
}

#[test]
fn casts_and_quantifiers_render() {
    assert_eq!(
        latex(RawExpr::Binop(
            Binop::Cast,
            Expr::new(RawExpr::Type(TypeExpr::Real)),
            Expr::new(RawExpr::Finop(Finop::Plus, vec![variable_expr("x"), variable_expr("y")])),
        )),
        "\\operatorname{cast}(\\mathbb{R}, x + y)"
    );
    assert_eq!(
        latex(RawExpr::Finop(Finop::Forall, vec![variable_expr("p"), variable_expr("q")])),
        "\\forall p, q"
    );
    assert_eq!(tex_models::to_tex::expr(&variable_expr("w")), "w");
}
