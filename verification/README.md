# Ternary auto-vectorizer (verified)

A scalar Z3 dot-threshold kernel computes `sign(sum of w[i] * x[i])` over trits
{-1, 0, +1}. The vectorizer cuts its weights into lane-wide chunks; the vectorized
kernel sums the per-chunk dot products and applies `sign` once.

Layout of `src/`:

- `trit.rs`: trits and their algebra (`sign`, `tadd`, `tmul`, `tneg`).
- `dot.rs`: exact dot products and sums, with the overflow conditions of `i32`.
- `scalar.rs`: `ScalarKernel`.
- `chunks.rs`: chunking and the proof that the chunked reduction equals the dot product.
- `counter.rs`: the base-3 enumeration of {-1, 0, +1}^n.
- `vector.rs`: `VecKernel`, `Vectorizer`, `EquivResult` and the exhaustive check.
- `conservation.rs`: negation laws and the binary-input bias of balanced kernels.
- `patch.rs`: `KernelPatch` and its lossless round trip.

`app/` turns the exact integer results (speedup fractions, output totals, patch
sizes) into floating-point ratios.
