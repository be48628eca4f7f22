# pagecore

Pages as pictures and pages as structure: WebP images (lossless both ways, lossy
keyframes for reading), resampling, the interpreter of content streams, and the
reconstruction of lines, columns, lists, headings, tables, captions and running
furniture.

The library under `src/` is verified with Verus. Every function has a contract
over mathematical values, and what holds of several functions together is proved
in the proof functions whose names start with `law_`.

- `src/raster` reads, writes and resamples images.
- `src/render` steps through content streams and says what is to be painted.
- `src/recon` turns runs of text and rules into blocks in reading order.

The library works on integers, flags, handles and keys that order as real numbers
do. `app/` holds the real numbers: it measures coordinates, hands the library the
facts that it decides on, and turns the decisions back into places and paint.
`tests/` runs the library on concrete values.
