# gds_text

Render text snippets to GDSII, PNG and PDF with Calibre-style dummy fill,
on a dot-matrix raster aligned to an integer nanometre grid.

The crate is a Verus library with a small program around it:

- `src/` — the verified library:
  - `bitmap`: 1-bit bitmaps of grid cells; exact quarter-turn rotation,
    trimming to the tight bounding box, and the decomposition of the lit
    pixels into maximal horizontal runs;
  - `fill`: dummy fill on a pitch grid, away from text, with a fixed
    pseudo-random choice;
  - `gds_out`, `layout`: the GDS geometry (boundaries, cells, references)
    of a flat project and of a one-cell-per-entry layout;
  - `raster`, `png_out`: the canvas preview and the PNG images of a layout
    and of a GDS file read back;
  - `canvas`: hit testing and selection on the canvas;
  - `fonts`: fuzzy lookup of a font family, and the sorted list of family
    names.
- `app/` — the program: the egui window, the command line, text shaping and
  rasterisation with cosmic-text, arbitrary-angle rotation, and writing
  GDSII (gds21), PNG (image) and PDF (printpdf) files.
- `tests/` — tests of the library on concrete values.

## Dummy fill and the design rules

A fill shape is one grid cell. It is placed only where that cell is at
least as wide as the rules' minimum width (`grid_nm >= min_width_nm`);
wider fill shapes are not implemented. The default project (150 nm grid,
200 nm minimum width) therefore gets no fill at all; choose a grid of at
least the minimum width, or lower the rule, to get fill.
