# render_core

The integer and byte-level core of three small renderers (a BVH ray caster over a
Morton-ordered grid mesh with tile-binned rasterization, a Gaussian-splat renderer
that reads PLY files, and a path tracer), verified with Verus.

- `src/morton.rs`, `src/grid_mesh.rs`: Morton decoding and the triangle
  connectivity of the grid mesh.
- `src/bvh.rs`: BVH node topology, one traversal step, and the randomized checksum.
- `src/tiles.rs`: tiles overlapping a pixel rectangle, the tile of a pixel, and the
  jagged tile-to-triangle bins.
- `src/text.rs`, `src/ply.rs`, `src/ply_layout.rs`: line splitting, UTF-8 decoding,
  tokenizing and number parsing; the PLY header grammar and the record words; the
  header layout that the reader accepts.
- `src/splat.rs`: splat windows on the image and the depth order of splats.
- `src/floor.rs`: the checkerboard of the path-traced floor.
- `app/`: the programs themselves: file I/O, images, and all floating-point work.
