# prismaquant

Chooses a weight format (NVFP4, MXFP8 or BF16) for every linear layer of a model under a target for
the average bits per parameter, and prepares what was chosen for loading.

- `src/` is the verified library. Every function carries a contract that Verus proves; the public
  proof functions state what holds of the library as a whole.
- `app/` holds what floating point, files and devices need: norms and blends of scores, writing
  `layer_config.json`, and device work through traits.
- `tests/` runs the library on concrete values.

Scores are whole numbers in the library. Ranking only compares them, so any key in the order of the
measured scores will do; the knapsack solver also adds them up, so there they are fixed point.
