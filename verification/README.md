# lau-free-probability

Free probability toolkit whose combinatorial core is verified with Verus.

## Layout

- `src/` — the verified library:
  - `numbers.rs`: factorials, binomial coefficients and Catalan numbers as spec
    functions, with executable `binomial` and the closed form
    C_n = (2n)! / (n! (n+1)!) related to the binomial C(2n, n).
  - `partition.rs`: `NCPartition`, its validating constructor, the crossing test,
    the enumeration of all non-crossing partitions, the Kreweras complement and the
    Möbius function on the non-crossing lattice.
  - `complement.rs`: relative Kreweras complements K_σ(π), the cycles of the
    permutation π⁻¹σ, from which both the Kreweras complement K(π) = K_{1_n}(π) and
    μ(π, σ) (a product of signed Catalan numbers over the blocks of K_σ(π)) come.
  - `enumeration.rs`, `counting.rs`: the search tree behind the enumeration, with
    proofs that it lists every non-crossing partition exactly once and that there
    are C_n of them.
  - `kreweras.rs`: for non-crossing π, the blocks of K(π) described by gaps; from
    this, K(π) is non-crossing, |π| + |K(π)| = n + 1, K is one-to-one, and the sign
    of μ(0_n, σ) and μ(π, 1_n).
  - `sets.rs`: reading a `BTreeSet<usize>` in increasing order.
  - `rng.rs`: the xorshift64 generator used for sampling.
  - `theorems.rs`: properties relating several operations.
- `app/` — the floating-point parts (moment–cumulant conversion, transforms,
  convolution, entropy, laws), which Verus does not verify, and serde copies of
  the library types.
- `tests/` — tests run against the compiled library.
