# tropical_geometry

Tropical geometry replaces + with max and × with +: ReLU networks are
tropical rational functions.

- `src/` is the verified library (Verus). Its structures — tropical
  monomials and polynomials, ReLU layers and networks, tropical attention —
  are generic over the coefficient type; where an operation combines
  coefficients (the product of two polynomials, max-plus matrix
  multiplication) the caller passes the arithmetic as closures.
  `src/evaluation.rs` gives the exact max-plus meaning of a polynomial and
  proves the laws of tropical addition and multiplication, convexity, and
  adding a monomial; `src/polynomial.rs` proves that multiplication
  distributes over addition; `src/attention.rs` proves the meaning of a
  max-plus matrix product and that the tropical identity matrix is a unit.
- `app/` instantiates the structures at `f64` and holds what computes with
  floating point: evaluation, the active monomial, breakpoints, forward
  passes, activation paths, attention weights and the scalar operations.
- `tests/` exercises the library.
