# vrbag_s102

Converter from NOAA variable-resolution BAG bathymetry to IHO S-102 (HDF5), with a preview
window and on-the-fly safety-depth contours.

- `src/` is the verified library (Verus):
  - `text` — character scanning over `Seq<char>` views (search, trim, words, digit runs);
  - `datum` — S-100 vertical datum codes from datum descriptions and metadata;
  - `crs` — the horizontal EPSG code from GDAL's identification or the WKT text, the label of
    the coordinate system;
  - `metadata` — `key=value` metadata items that give grid resolutions;
  - `grid` — point counts, memory limits, and the north-up to south-up row order of S-102;
  - `contour` — marching-squares cell topology, with its laws;
  - `polyline` — chaining segments into polylines and Chaikin smoothing, generic in the point;
  - `session` — the window's session: paths, resolution choice, load/export decisions.
- `app/` is the program: egui window, file dialogs, GDAL reading, HDF5 writing and the
  floating-point work (interpolation, colour mapping, resolution arithmetic).
- `tests/` exercise the library.
