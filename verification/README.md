# semitone

Verified building blocks of a satisfiability-modulo-theories engine: the
formula language and its normal forms, and backtrackable theory solvers for
linear arithmetic, difference logic and equality with uninterpreted functions.
Every function is proved against its contract with Verus.

Modules:

- `ast`: formulas and expressions, operators and builders, negation normal
  form, distribution and conjunctive normal form, with their semantics.
- `display`: the text of expressions.
- `fraction`, `rational`: exact 64-bit fractions, extended with infinities and
  an infinitesimal part; operations that leave 64 bits report an overflow.
- `dot`: sums of products of fractions and the algebra relating them.
- `sparse_row`: sparse linear rows kept sorted by variable.
- `lra_theory`: the simplex tableau with bounds, pivoting, checking,
  optimisation, integer checks and Gomory cuts; `linear`: linear forms of
  arithmetic expressions.
- `atoms`: asserting a comparison of linear expressions: decided at once
  when no variable is left, else a bound on the variable or on the slack
  registered for the linear form.
- `dl_theory`: difference constraints as a weighted graph with a potential.
- `euf_theory`: congruence closure with a proof forest and explanations.
- `proxy`: the registry of literals standing for theory constraints.
- `lit`: literals.
- `encode`: the clauses defining a literal for the Boolean structure of a
  formula, one fresh variable per conjunction and disjunction.
- `engine`: asserting formulas leaf by leaf: negations pushed inwards,
  conjunctions split, comparisons and arithmetic equalities turned into
  bounds, Boolean leaves encoded into clauses; `formula_checks`: asserting a
  term of the input language: translation, linearity check, assertion;
  `session`: the commands of the input language (declarations, assertions,
  satisfiability checks handed to the search).
- `model`: values, bounds and three-valued truth under the current model.
- `smt`: translation of the arithmetic terms of the input language into
  arithmetic expressions, constants folded exactly; `formulas`: translation
  of its Boolean terms (connectives, comparisons, equalities) into formulas.
