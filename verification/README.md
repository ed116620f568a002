# panoptes (verified core)

Feature extraction from segmentation rasters, written in Verus.

- `src/grid.rs` — label masks and mark rasters held in `ndarray` arrays; the
  arrays are opaque and each array operation has a small trusted wrapper.
- `src/connectivity.rs` — 4-connectivity: paths, components, scan order.
- `src/polygonize.rs` — flood fill of the components of one class
  (`polygonize_class`) or of all classes (`polygonize_all`), with the laws
  that features are disjoint, cover the class and are connected, that a
  larger minimum area only drops features, and that a feature without holes
  has an outline enclosing exactly its pixel count.
- `src/outline.rs` — the pixel-edge boundary walk and the removal of
  straight-run vertices (`collapse_collinear`).
- `src/walk.rs` — the boundary walk of a non-empty set closes on itself and
  yields a non-empty closed ring whose sides are horizontal or vertical;
  collapsing a simple axis-aligned ring twice is collapsing it once.
- `src/area.rs` — the shoelace area of an outline: when the walk takes every
  boundary edge of the set, it is the number of pixels; the outline depends only
  on the set of pixels.
- `src/translate.rs` — shifting the pixels shifts the outline.
- `src/onnx.rs`, `src/commands.rs`, `src/model.rs` — decisions around model
  inference: runtime library choice, output-shape reading, model resolution
  and engine selection.
- `app/` — the command-line front end, file I/O, ONNX Runtime sessions and
  the floating-point parts (geometry, confidences, thresholds).
