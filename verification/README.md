# clausy

Transforms feature-model formulas into conjunctive normal form (CNF), and compares
feature models by counting the solutions they gain and lose.

The library in `src/` is verified with Verus. Formulas live in an arena of
hash-consed expressions (`arena`, `expr`, `var`); a `Formula` is a root expression
with its variables. Parsers for the supported file formats (`parser`), the
transformations (`visit`, `formula`: canonical form, negation normal form,
distributive and Tseitin CNF), clause extraction and DIMACS output (`clauses`),
and the logic of the command line (`shell`, `diff`, `diff_plan`, `count_inc`, `simplified`)
carry contracts that state their results over mathematical models.

`meaning` defines the truth value of expressions under an assignment; the
canonical, negation-normal-form and distributive transformations are proved to keep
the meaning of every expression of the arena, and the clause representation is
proved to be satisfied exactly by the models of its formula. `tseitin` proves that
Tseitin's transformation keeps the models of a formula (each extended uniquely by
the auxiliary variables) in arenas without cycles and duplicate expressions, which
parsing establishes, and, where the arena has room for the auxiliary variables, that it
replaces each conjunction and disjunction below the root by one new auxiliary
variable; `count_inc` proves that the clauses of its queries, where they can be built,
each from the Tseitin copy of its own reduction, count the models that each reduction gains or loses, and `simplified` proves
that, where both clause representations can be built, a query of simplified reasoning
is satisfiable exactly when the edit removes (or adds) a solution. `clauses` proves
that every formula in conjunctive normal form over its variables (`is_cnf`) has a
clause representation; that the transformations always yield such a formula (their
CNF shape) is not proved, so the clause errors of `count_inc`, `diff` and
`simplified` are tied to the transformed copies, not ruled out.
The traversals of `visit` are proved to end and to apply their visitors to every
expression they reach. `laws` holds the properties that relate several operations.

`app/` is the command-line program around the library: argument handling, files,
external solvers and timing. `tests/` holds the tests.
