# mvtable

A verified Verus library for the _multilevel voxel table_ (MVT), a data structure for fast collision
checking between spheres and point clouds, with the tools that benchmark and illustrate it.

`src/` is the library, and Verus verifies every function in it but three: `capacity_of` (`memory`),
`sort_pairs` (`sorting`) and `sample_indices` (`replay`) each make one call of the standard library
or of `rand`, and their contracts are trusted. The functions of an `impl` of a trait take their
contracts from the trait.

- `axis`, `index`: the coordinate and index types that a table is generic over.
- `aabb`, `scan`, `simd`: boxes, scans over points, and batches of lanes.
- `grid`, `occupancy`, `pool`, `placement`, `window`: the pool of tables, the cells that it holds,
  how it grows from call to call, where points fall, and the cells that a query walks.
- `voxel_grid`: what a table holds and what a query answers, apart from how it is stored.
- `immutable`, `mutable`: `Mvt` and `MutableMvt`.
- `laws`, `exact`: how the answer of a query compares with checking every point, in arithmetic that
  rounds and in arithmetic that does not.
- `structure`, `clouds`, `filter`, `workload`, `replay`, `manifest`, `report`, `sweep`, `robots`,
  `recording`, `planning`, `runs`, `pointcloud`, `mvt_cpp`: the logic of the benchmarks.
- `viz`, `tree`, `kd_search`, `capt_search`, `mvt_trace`: the logic of the figures.
- `memory`, `sorting`, `text`: counting bytes, ordering by keys, and text.

Coordinates are abstract: a table works for any type with the `Axis` trait. `tests/` and `app/`
implement it for `f32` behind a newtype.

`app/` is ordinary Rust around the library: files, random draws, floating-point geometry, the C++
table, the planner and the recordings of figures.
