# iris

A computer-vision library in two parts.

- `src/` is the verified core, checked by Verus: contour tracing and the
  contour hierarchy, convex hulls and bounding boxes, Bresenham lines,
  midpoint circles, rectangles, polylines, markers, text and scanline spans on
  a channel-planar pixel canvas, Canny hysteresis, intensity histograms and
  their running sums, the FAST arc test, the BRIEF sampling pattern and the
  KD-forest shuffles, the HOG layout, the window and trackbar registry, the
  xorshift generator, the parsing of `safetensors` weight buffers (the calls
  into the crate sit behind small trusted wrappers) and the layout of weight
  words and of packed RGB samples, the text of errors, and the argument checks and shape
  bookkeeping of the image operations. Each public function states its
  result in its contract; the laws that relate several calls are proof
  functions.
- `app/` is the rest: the image type backed by `burn` tensors, file I/O with
  `image`, reading weight files, the floating-point filters, colour
  conversions and geometry, the process-wide window registry, and error types
  with `thiserror`. It hands pixels to the core as plain vectors and takes
  them back.

`tests/` exercises the core on concrete values.
