# rf-engine

An RF propagation and coverage engine for Node.js. The crate under `src/` is
verified with Verus and holds the engine's discrete logic:

- `source`: terrain sources ordered by descending priority (stable among
  equal priorities) and the first-accepting lookup over that order;
- `raster`: the row-major coverage raster (reads, writes, result assembly,
  contributing source identifiers);
- `tiles`: tile enumeration per zoom level and lattice sampling of a raster;
- `grid`: the cells a bilinear terrain sample reads;
- `coverage`: the pixel order of a coverage computation;
- `types`: polarisation codes, path-type labels, vertical datum.

`app/` holds what works in floating point (geodesy, ITU-R P.1812 via the
`p1812` crate, antenna patterns, link budgets), the parallel coverage loop
(rayon) and the napi bindings.
