# sgraph

**Sparse graph**: a shared sparse/Tanner-graph engine for erasure codes, written
in Verus and verified.

`sgraph` is the layer that LDPC, LT, and Raptor-class implementations keep
re-implementing: deterministic cross-peer neighbour generation, degree
distributions, a residual sparse graph that shrinks as symbols become known,
XOR-only peeling, and the exact residual solve that finishes what peeling cannot.
These codes differ in how their graph is generated, not in how it is consumed.

Field arithmetic and byte-buffer kernels come from `fgf`, and elimination from
`gfm`; this crate never re-implements either.

## Layout

| Module | Contents |
| --- | --- |
| `rng` | `SplitMix64`, unbiased bounded draws, and Floyd distinct-k sampling. |
| `index` | `Ring<T>` and `IndexSet`: dense index-keyed storage over a monotone `u64` domain, bounded by a configured live span. |
| `field` | The fields GF(2^8) and GF(2^16) and the linear algebra over them, stated and proved, and the trusted boundary to `fgf` and `gfm`. |
| `weight` | `EdgeWeight` and `ResidualCoeff<F>`, with `Binary` and `Weighted<F>`. |
| `degree` | `Constant`, `Cumulative`, and `RobustSoliton` from fixed-point parameters. |
| `neighbors` | The `Uniform`, `WindowedUniform`, weighted and `ExplicitMatrix` generators, `NeighborBuf` scratch, and `Edges`. |
| `peel` | `Peeler`: the residual graph, reverse adjacency, the degree-one cascade, pooled buffers, and retirement. |
| `residual` | `ResidualBuilder` and `RowSink` assembly, `DenseRow`, and `Solver`. |
| `driver` | `DenseRows` and `Resolver`, the peel, solve, re-peel fixpoint. |
| `id`, `error`, `nonzero`, `text` | Identifiers, errors, non-zero integers, decimal text. |

`app/` wraps the library's values in the standard library's `Display`, `Error`
and `Iterator`, which verified types cannot carry.

## What is proved

Every operation is a function on mathematical state, and the executable code is
proved to compute it. On top of that:

* a ring or set never holds a retired index again, never spans more than its
  limit, and a rejected operation leaves everything as it was;
* edge sets are reproducible, distinct and in range, and draws are unbiased;
* the fixed-point square root is exact, and the fixed-point logarithm within one
  unit of the exact one rounded down;
* peeling only ever recovers true values, reports each recovery once, and stops
  only when no equation has a single unknown;
* after any calls that retire nothing, what is known is exactly the closure of
  what was learned under the checks that were pushed, whatever their order;
* the solver publishes exactly the unknowns that all solutions agree on;
* resolving is sound, reports each recovery once, and ends at a fixpoint.

What the outside kernels compute is trusted, and stated in `field::kernels`.
The fields GF(2^8) and GF(2^16) stand there; weights, assembly and solver are
generic over `Field` and `FieldKernels`, which state what another field owes.
