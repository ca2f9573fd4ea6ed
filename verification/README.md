# fgddem

Converts the digital elevation model grids of Japan's fundamental geospatial data
(FGD DEM, GML) to GeoTIFF: one GeoTIFF per input, or all inputs merged into one
tiled mosaic (`merged.tif`).

Layout:

- `src/` — the verified library (Verus):
  - `text.rs`: whitespace words, lines, comma fields and unsigned decimal
    integers of GML text content, each proved equal to a specification of the
    std behaviour it mirrors (`split_whitespace`, `lines`, `split`,
    `usize::from_str`);
  - `dataset.rs`: grid limits and shape, corner words, the value column of a
    tuple list, and the metadata scanner: a state machine fed with XML start and
    text events;
  - `mosaic.rs`: tile ranges, the order in which grids are laid down, and the
    streaming tile assembler of the merged mosaic, with its laws (a handed-out
    tile already holds the final mosaic; every reached tile is handed out once;
    nothing is left once the last grid is laid down);
  - `lib.rs`: compression names, the command line configuration and output
    names.
- `app/` — the command: argument parsing, file and XML reading, floating-point
  conversions and placement, and the GeoTIFF writer.
- `tests/` — tests of the library.
