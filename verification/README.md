# math_lib

A mathematics library whose exact parts are written in Verus and proved
against their contracts:

- `src/error.rs` – the shared error type and its messages;
- `src/validate.rs`, `src/text.rs` – argument checks and the decimal text they report;
- `src/scalar.rs` – the `Scalar` trait: exact integer scalars (`i32`, `i64`, `u32`, `u64`);
- `src/vector.rs`, `src/matrix.rs` – dense vectors and matrices: construction,
  access, transpose, products, trace, norms, and the parts of an LU factorisation;
- `src/graph.rs`, `src/graph/`, `src/union_find.rs` – adjacency-list graphs:
  breadth-first and depth-first traversals and connected components, each
  proved to visit nodes in its exact order; Kahn's topological order;
  Dijkstra's shortest paths and Kruskal's spanning forest over integer
  weights, with the forest proved minimal;
- `src/plot.rs` – colours, XML escaping and the pixel sets of lines, disks and
  rectangles used when rasterising plots.

`app/` holds the floating-point side (numerical methods, statistics,
distributions, plot layout and rendering, floating-point linear algebra and
graph weights) as ordinary Rust built on the library.
