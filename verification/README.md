# theseus

Inverse force-density solving and rigidity analysis for pin-jointed networks, with
contracts proved by Verus.

- `src/` is the verified library. Doubles are bit patterns (`double`), whose order is
  decided exactly; rounded operations come in through the `Arithmetic` trait, and
  factorizations, the SVD and the cone solver through the `Backend` trait. Neither trait
  promises anything: what the library says of a result holds whatever they return, and
  exactly where the operations are functions of their operands.
  - `sparse`, `array`, `vector`: the matrices and vectors.
  - `equilibrium`, `reactions`, `unknowns`, `loads`, `supports`, `objectives`, `creation`,
    `types`: problems.
  - `lsqr`, `weighted_lsqr`, `saddle`, `direct`, `qr`, `conic`, `spg`, `irls`, `inner`:
    the least-squares solvers.
  - `force_stage`, `geometry`, `weight`, `geometric_stage`, `inverse`, `pseudoinverse`,
    `likeness`: force densities for a target geometry.
  - `steady`, `uniqueness`: with a backend that answers the same question in the same way,
    a solve has one answer.
  - `nullspace`, `probe`, `basis`, `rigid`, `prestress`, `eigen`, `retraction`:
    self-stresses, mechanisms and member lengths.
  - `lifecycle`, `handle`: what a handle promises its callers.
- `tests/` runs the library on doubles.
- `app/` is the C interface, with faer and Clarabel behind the traits.
