# sheaf_agents

Cellular sheaves on graphs for multi-agent consensus analysis, verified with
Verus.

`src/` is the verified library. Matrix and belief entries are generic, so the
structure is proved once for any scalar type:

- `matrix`: dense matrices held row by row (`DenseMatrix<T>`).
- `sheaf`: stalk dimensions, edges with restriction maps, total dimensions and
  offsets of the vertex and edge spaces.
- `coboundary`: the coboundary operator d₀ in symbolic form (`Term<T>`).
- `ops`: scalar operations handed in as closures, read through their
  `ensures`.
- `echelon`: Gauss–Jordan elimination with partial pivoting, proved to
  compute a step-by-step specification with the caller's operations, and the
  null space it yields.
- `kernel`: the null-space basis read off a reduced matrix.
- `cohomology`: the cohomology of a sheaf (H⁰ = ker d₀, H¹ = ker d₀ᵀ) with
  its dimensions and bases, `can_agree`.
- `laplacian`: where each product of restriction maps goes in L = d₀ᵀd₀.
- `agents`: the agent network, belief updates and the combined belief vector.
- `converge`: the decisions of the convergence loop.

`app/` instantiates the library with `f64`, hands it the real operations,
and does the remaining floating-point work with `nalgebra`: products, norms
and eigenvalues.
