# split_learning

Distribution of the layers of a convolutional network over a group of
small workers, with a coordinator that forwards each worker's results to
the workers of the next layer.

- `src/` — the library, verified with Verus:
  - `layers` — layer shapes, the input positions each output reads, and the
    layer accessors;
  - `compact` — the same shapes with 16-bit positions;
  - `operations` — the read map of a layer (`get_input_mapping`) and the
    work split;
  - `distribute` — the inputs and the weights each worker receives
    (`distribute_input`, `distribute_weight`, `rearrange_weight`);
  - `compute` — what each worker computes from its inputs and weights;
  - `nodes` — messages, the coordinator's forwarding decisions and the
    worker's message handling;
  - `imaging` — the input image, resized with the `image` crate;
  - `util`, `flat`, `num` — bit fields, sampling, flattening and integer
    helpers.
- `tests/` — tests of the library on concrete values.
- `app/` — the program around it: JSON files, threads and channels of the
  simulation, and the floating-point arithmetic.
