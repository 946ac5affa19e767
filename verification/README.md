# halo2_proofs

Polynomial commitments over the Pasta curves, verified with Verus.

`src/` is the verified library:

- `arith`, `field`, `dft`, `fft`, `poly`: field elements, polynomials and transforms.
- `domain`, `transform`, `convert`, `quotient`, `lagrange`: evaluation domains, changes of
  basis, division by the vanishing polynomial and the Lagrange basis.
- `ast`, `scalars`, `shapes`, `plan`, `values`, `written`, `lowering`, `pieces`, `partition`,
  `unique`, `compile`: expressions and the plans that they are compiled to.
- `occurrence`, `schedule`, `apply`, `layout`, `occupancy`, `retained`, `cse`, `again`: caching
  of common subexpressions.
- `basis`, `fold`, `scratch`, `running`, `rows`, `evaluate`, `selectors`, `evaluator`:
  evaluation of plans over a domain.
- `curve`, `multiexp`, `windows`, `tables`, `shared`, `params`, `blind`, `commit`, `instance`,
  `encoding`, `msm`: commitments and their parameters.
- `ipa`, `acceptance`: the inner product argument, and what its verifier checks.
- `queries`, `collapse`, `division`, `qprime`, `multiopen`: openings of several polynomials
  at several points.

Field elements and points are modelled by integers: an element by its residue, a point by
its discrete logarithm to the base of the curve's generator. The arithmetic itself is that
of `pasta_curves`.

`app/` holds what reads, writes and draws random numbers: the transcript's side of the
openings, parameters in readers and writers, and the accounting of retained memory.
