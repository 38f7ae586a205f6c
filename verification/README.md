# photomosaic

A photomosaic generator: a destination image is cut into a grid of blocks and
each block is filled with a tile image chosen by color similarity.

`src/` is the verified library (Verus). It holds

- `lap` – the approximate capacity-constrained assignment solvers (greedy and
  auction) and the choice between them by problem size;
- `assign` – the default assignment: each block takes its closest tile, or,
  when tile use is limited, the closest tile that has not used up its quota;
- `fair` – fair mode: tile duplication, the exact least-cost assignment
  solver (`hungarian` crate) and the tiles the copies come from;
- `compose` – both modes from distances to assignment, image and tile info;
- `raster` – images as pixel grids: cropping, rotation, resizing (`image`
  crate), centring, and the assembly of the mosaic;
- `tile_info`, `text` – the tile-info text, written and read back;
- `tile_map`, `html`, `order` – the data and page of the interactive map;
- `cache` – the tile feature cache;
- `settings`, `tally` – option checks and counting helpers.

`app/` is the command line program around it: argument parsing, file and
image I/O, the floating-point color features, distances and blending, the
JSON files, progress bars and threads.
