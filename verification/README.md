# Adaptive Parallel Insertion Merge, verified

A stable, adaptive parallel sort. It samples the input, detects its monotone
runs, and merges them with bidirectional, P-way or cache-blocked k-way merges;
chaotic input is sorted in blocks that are then merged. Every sort of the
library is proved, with Verus, to return the stable sort of its input, and the
merge kernels, cuts and run detection are proved against exact specifications.

Layout of `src/`:

- `ordem`, `especificacao`: the order of the keys, the stable merge
  (`intercala`), cuts of a merge and what a stable sort is (`ordenacao_estavel`).
- `pim_kernel`, `cut`: merge kernels (linear, galloping, adaptive, from either
  end) and the rank cuts, bidirectional, trisected and P-way merges.
- `metadata`, `costura`: run detection (`detect_global_trend`), its signed
  run lengths and the stitching of overlapping blocks; at every length the
  result is the greedy decomposition read from the left.
- `bottom_up`, `multicorte`, `kway`: bottom-up merging of the runs, by binary
  P-way merges or by multi-sequence selection and tiled k-way merges.
- `blocos`, `random_path`: block sorting and the paths for chaotic input.
- `amostra`: the input sample and the route correction by run count.
- `despacho`: the entry points by key profile; `lib.rs`: configuration, input
  classification and the top-level sorts.
- `leis`: laws about the library as a whole (uniqueness of the stable sort,
  permutation, agreement of the cuts, associativity of the stitching).

`app/` holds what the library does not: process-wide settings, entry points
that panic when the auxiliary buffer is refused, floating-point tuning and
timing.
