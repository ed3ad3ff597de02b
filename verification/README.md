# circuit_expression

Gadgets for arithmetic circuits over the scalar field of BLS12-381, written in
Rust and verified with Verus. An `Expression` is a linear combination of circuit
variables together with its value, where that is known. Expressions can be added,
subtracted, compared, selected, conditionally reversed, decomposed into bits and
limited to a number of bits.

A gadget works on a `ConstraintSystem` that records the variables it allocates and
the rank-one constraints it puts on them. The contract of each gadget gives the
record after the call exactly. On top of the contracts stand these theorems:

- `soundness` and `strict_laws`: what every assignment that satisfies the
  constraints has to obey;
- `witness` and `strict_witness`: that the recorded values satisfy the constraints
  which a gadget adds, under every assignment that has them and gives the operands
  their values;
- `completeness` and `strict_laws`: that a record whose values are all known stays
  satisfied;
- `shape`: that gadgets only add to the record, fail only for want of a value, and
  record the same variables and constraints whatever the values are.

The field arithmetic and the representation of linear combinations are those of
`bellman_ce`, behind wrappers whose contracts are trusted. `app/` hands a record to
a constraint system of `bellman_ce`.
