# image_processor

An image processor that applies plugins to the RGBA pixels of a PNG file.
The library (`src/`) holds the verified logic:

- `layout`: where channel `c` of pixel (x, y) lives in a row-major RGBA buffer.
- `mirror`: left-right and top-bottom flips, with the laws that each flip
  undoes itself and that the two commute.
- `blur`: the distance-weighted blur. The library chooses the samples of each
  pixel (the pixels within the radius, in row-major order), decides when a
  pixel is kept, and chains the passes; the caller supplies the floating-point
  average of one channel's samples.
- `params`: the plugins' JSON parameters, read with serde_json.
- `host`: the host's checks on input files, buffer sizes and plugin file names,
  and the text of its errors.

`app/` is the command-line program (argument parsing, image decoding and
encoding, loading plugin libraries) and the plugins' C entry points.
