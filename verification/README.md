# rml

A small tensor library with automatic differentiation. Tensors are strided views over
shared, reference-counted data; every structural operation (reshape, transpose, expand,
squeeze, unsqueeze) is a change of shape and strides over the same data.

The library in `src/` is verified with Verus and is generic over the element type: the
arithmetic (sums, products, softmax, ...) is handed in as closures, and each contract says
where every result comes from in terms of shapes, strides and logical positions.

- `shape` — the model: sizes, row-major rank (`ravel`/`unravel`), offsets, broadcasting.
- `iter` — `LogicalIndices`, the memory positions of a layout in logical order.
- `broadcasting` — broadcast shapes and indices on flat row-major data.
- `rawtensor` — `RawTensor<T>`: constructors, structure, map, elementwise and in-place
  broadcast updates, reductions and normalizations along an axis, dot and matrix product.
- `graph` — the computation graph as an arena and the order of backpropagation.
- `grad` — the integer side of backpropagation through `expand` and `transpose`.

`app/` holds the `f64` side: the `Tensor` type that records the graph, the gradient rules,
random constructors, text output, and `main`.
