# tex_models

Symbolic linear-algebra formulas as expression trees that can be typed,
rewritten step by step towards a small core language, elaborated for concrete
dimensions and rendered as TeX. Every function of the library is verified
with Verus against a contract stated over a mathematical model of the trees.

## Layout

- `src/lib.rs` — the expression trees (`Expr`, `RawExpr`, `TypeExpr`,
  variables, operators), implicit dimensions and natural evaluation.
- `src/natural.rs` — evaluation of natural-valued expressions (dimensions,
  lengths, range bounds) under an assignment.
- `src/text.rs` — decimal rendering of naturals.
- `src/context.rs` — the polarity of a position in a formula, and the side
  conditions that rewrites introduce.
- `src/view.rs` — the model: `ExprView` and `TypeView`, trees of plain values
  with metadata erased.
- `src/expression_utils.rs` — node counts, holes and their filling, free
  variables.
- `src/deep_clone.rs`, `src/equality.rs` — unshared copies and model equality.
- `src/type_expr.rs` — de Bruijn manipulation of dependent sequence types, with
  the laws that substitution through a bound position is direct replacement and
  that abstraction does not capture.
- `src/type_resolver.rs` — the operator typing rules and the resolver that
  annotates a tree with types.
- `src/logic_lowering.rs` — logic chains to conjunctions of implications, with
  its laws (only single implications remain; lowering is idempotent).
- `src/operator_visitors.rs` — `\operatorname{Nul}` and `\operatorname{Range}`
  as set comprehensions.
- `src/formula.rs` — quantifiers and substitution for free variables.
- `src/unification.rs` — matching a pattern with metavariables against a
  candidate, respecting the variables bound on either side.
- `src/enumerable_envspec.rs` — shape facts of assumptions and the inference
  of a symbolic type environment.
- `src/elaboration.rs` — substitution of concrete index values and the check
  that an elaborated forest is core syntax.
- `src/concrete.rs` — the per-node steps of elaboration for a concrete
  environment: sequence elements, `\operatorname{diag}`, expansion of sums,
  products and maps over evaluated ranges, subscripts, type memberships and
  concrete leaves (implicit dimensions, identity, basis and zero matrices,
  matrix variables).
- `src/matrix_values.rs` — matrix arithmetic cell by cell: sums, products,
  negations, transposes, traces, determinants, quotients, casts, powers,
  comparison chains and the flattening of block matrices.
- `src/quantifier_lowering.rs` — existentials read positively and universals
  read negatively become the values that witness or refute them.
- `src/roots.rs` — squared norms as inner products, and norms and square roots
  as variables standing for principal roots, defined by their squares.
- `src/set_lowering.rs` — membership in a set comprehension as the domain check
  and the predicate applied to the subject.
- `src/preprocessing.rs` — the merging of side conditions and the reading of a
  prepared expression under its givens.
- `src/to_tex.rs` — rendering to TeX.
- `tests/` — tests run against the compiled library.

## Scope

The library holds the expression model, typing, rendering, the rewriting
steps and the concrete elaboration steps. It does not hold a TeX or Markdown
reader, the preparation fixpoint that drives the rewriting passes over a
whole forest, the elaboration driver, ellipsis elimination, or the lowering to
a solver: those rest on a generic tree traversal and on solver utilities that
this library does not have, and the rewriting passes other than the set
operators are given here as the step they take at one node.
