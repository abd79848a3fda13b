# polyring

Arithmetic in `Z_q` (`q = 17`) and in the polynomial ring `Z_q[x]/(x^n + 1)`,
written in Verus with its contracts proved.

- `src/ring/zq.rs`: the element type `Zq`, its operators, exponentiation by
  squaring, division through the extended Euclidean algorithm, and the ring laws
  of `Z_q` (commutativity, associativity, distributivity, inverses, Fermat).
- `src/poly.rs`: dense polynomials over `Z_q` and the reduction modulo `x^n + 1`.
- `src/poly/laws.rs`: the laws of polynomial arithmetic and of the reduction
  (additivity, compatibility with multiplication, associativity, commutativity,
  distributivity).
- `src/ring/ring_poly.rs`: `RingPolynomial<n>`, an element of `Z_q[x]/(x^n + 1)`,
  its text rendering, and the ring laws of `Z_q[x]/(x^n + 1)`.
- `src/ring.rs`: the `Ring` and `PolynomialRingTrait` interfaces.
- `src/random.rs`: the calls into `rand`; `src/text.rs`: decimal notation.
- `app/`: serde and `Display` for copies of the library's types.
