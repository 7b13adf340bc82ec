# img-block-match

Block-matching image diff: the reference image is split into square
blocks, and each block is searched for (lowest sum of absolute RGB
differences) in a window of the target image. Blocks whose best match
stays above a threshold are reported as changed and clustered into
bounding boxes, so content that merely moved is not flagged.

The library in `src/` is written in Verus; every function carries a
contract that Verus proves.

- `buffer` — RGBA images and their mathematical view.
- `sad` — the block SAD with its early cut-off.
- `search` — exhaustive and hierarchical window searches, stated as
  transitions of a search state.
- `block_match` — options, motion vectors, `diff` and `diff_bidirectional`.
- `smoothing` — the 3×3 majority filter on the matched flags.
- `clustering` — dilation, 8-connected flood fill and the region list.
- `pyramid` — the two-level pass (downscaling through the `image` crate).
- `canvas`, `render` — drawing regions, lines, heatmaps and composites.
- `report` — decoding two encoded images and the pass/review outcome.
- `laws` — properties proved across functions: optimality of the full
  scan (the first cheapest candidate wins), genuineness of reported
  vectors, the runner-up as the lowest SAD at a spatially distinct evaluated
  displacement, identical images matching and passing, regions sorted,
  covering every unmatched block for any merge gap, a larger minimum size
  only filtering the regions, the pyramid's refinement, lines joining
  their end points.

`app/` holds the command-line program (argument parsing, file I/O, the
floating-point parts: confidence scores, heatmap colors and arrow end
points) and, for WebAssembly builds, the JavaScript binding.
