# npb

The integer core of three NAS Parallel Benchmarks kernels, verified with Verus.

- `src/randdp.rs`: the linear congruential generator `x_{k+1} = a x_k mod 2^46`
  (`LazyRanddp`), with `skip_forward` by square-and-multiply; laws on its
  closed form, on skipping versus stepping and on the range of its values.
- `src/parallel.rs`: `ParallelLazyRanddp`, which splits one stream of `n`
  values (`n` even) into `m > 0` generators that can run in parallel; the law
  that their outputs, one after the other, are the unsplit stream.
- `src/is_kernel.rs`, `src/counting.rs`: the integer sort kernel (key
  generation, ranking by counting, the partial and full checks, counting sort).
- `src/sparse.rs`: the random sparse vectors of the conjugate gradient matrix
  and the compressed sparse row layout of its structure.
- `src/ep_kernel.rs`, `src/cg_kernel.rs`, `src/class.rs`: class parameters and
  the integer check of the embarrassingly parallel kernel.

Generator states `x` stand for the uniform values `x / 2^46`. Everything that
computes on floating point values (Gaussian pairs, matrix values, the conjugate
gradient iteration, timing and output) is in `app/`, which runs a kernel:
`app <ep|cg|is> [S|A|B|C|D]`.
