# mercury

Structural core of a plan-based differentiation library, verified with Verus.

Numerical operators are wired into immutable plans. This crate proves the
parts of that machinery that decide *where* numbers go and *in which order*:

- `plan`: builders, validation of every connection, the slot layout of a
  plan, and the exact execution order (Kahn's algorithm, first-in first-out);
  every node of a built plan reads only plan inputs and outputs of earlier
  nodes, and the plan offers verified gather/scatter helpers for running it.
- `order`: the execution order itself, with a proof that a cycle is reported
  exactly when no valid order exists.
- `deps`: the conservative input dependencies of every published output.
- `sparse`: the sparse Jacobian structure (faer's symbolic column storage)
  and a greedy column coloring in which columns of one color never share a
  row.
- `perm`: permutations whose tracked sign is the parity of their inversions.
- `sizes`, `linalg`, `solve`, `error`: checked buffer sizes, shape checks of
  dense systems and solves, and the error types.

`app/` holds the floating-point layer around the library: dense and
fixed-size linear algebra, operators and their workspaces, plan evaluation
and batched derivative products, dense and implicit solves, and derivative
checks. `tests/` exercises the library on concrete values.
