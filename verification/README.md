# imagex

An image buffer library verified with Verus: RGBA pixels in a flat,
row-major buffer whose rows are padded to a stride, colour types, and PNG and
binary PPM codecs that work on bytes held in memory.

- `src/` is the verified library. `image.rs` holds the buffer and its
  operations, `pixel.rs` the pixel iterators, `png.rs` and `ppm.rs` the
  codecs, `codec.rs` the choice of codec by format, `types.rs` formats and
  metadata, `zlib.rs` the trusted interface to `miniz_oxide`.
- `app/` is the unverified part: file access, the floating-point colour
  operations, and the floating-point coordinate mapping of resizing.
- `tests/` runs the library on concrete inputs.
