# bench_harness

Verified kernels and helpers of a CPU tensor-benchmark harness (rstsr
CPU-efficiency campaign), written in Verus.

- `src/` — the verified library:
  - `float_key`: an IEEE-754 double as the scan kernels see it (NaN, or an
    integer key ordered like the double), built from `f64::to_bits`.
  - `scan_spec`, `scan`: the 8-lane argmax scan variants (plain, pre-scan,
    tiled, fused, block-8, fused without early return), each with its NaN
    semantics, and the laws that relate them.
  - `layout`, `elementwise`: 2-D strided layouts and the blocked 2-D
    elementwise kernels (`c = f(a, b)` and in-place `a = f(a, b)`) with their
    tiled and column-major walks. rstsr-native-impl ships these kernels too
    (`op_mutc_refa_refb_func_cpu_serial`, `op_muta_refb_func_cpu_serial`),
    but they write into `MaybeUninit` buffers, and reading a result back
    takes `unsafe` (`assume_init`), which the verified library does not
    contain; so the library has its own verified kernels, and the tests hold
    them against rstsr's `IterLayoutColMajor` walk. The code keeps rstsr's tile
    size, tile switch and choice of fast axis (no contract states these: the
    contracts say what is written, not in which order), but not its
    contiguous fast path or its axis reordering, and it reports
    out-of-bounds layouts and shape mismatches as errors instead of assuming
    valid layouts. The benchmarks in `app/` measure rstsr's own kernels.
  - `fixture`, `rusage`, `timing`: the fixture hash, resource-usage deltas,
    and the median/minimum of timing samples.
- `app/` — a program (`nan-scan-bench`, `final-check`, `ab-timing`), with devices, criterion settings, floating-point fixtures,
  `getrusage`, and the bench and check programs (rstsr, criterion, libc,
  num).
- `tests/` — tests of the library.
