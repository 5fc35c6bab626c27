# magiframe

The server side of MagiFrame, a picture frame with an e-paper screen that
shows generated pictures, dithered to black and white, and animates how each
picture is drawn.

- `src/` is the verified library (Verus):
  - `raster` — grayscale and RGBA images as plain buffers (8 or 16 bits per
    channel; a `Picture` keeps the depth a PNG was decoded with), cropping,
    the edge mask;
  - `lines` — tracing the 8-connected lines of dark pixels, depth first, and
    ordering them longest first; `lines_laws` — what holds of the result
    (it is unique, covers every dark pixel once, lines are connected and never
    touch each other);
  - `animation` — the frames of the drawing animation, and the check that
    the drawing only reads the picture inside it;
  - `imaging` — the calls into the `image` crate (PNG decoding and encoding,
    resizing, dithering) and the grayscale conversion; a 16-bit picture is
    resized, cut and turned gray at 16 bits, and only the gray value is
    narrowed to 8 bits. The Lanczos resize's pixels are not stated (its
    weights are computed in floating point); the library states which
    picture is handed to it, that the result is one of its outcomes for that
    picture, and the size it picks, and what follows the resize is verified
    for every such outcome;
  - `ai`, `image_service`, `config`, `state` — the services and what they
    compute: the request to the picture generator, the frame's stages (cut,
    gray, dithered to 0 and 255 only), the services' shared state.
- `app/` is the HTTP server around it: routing, the calls to the picture
  generator, files on disk, the Canny edge detection and the fade-in, which
  work in floating point.
- `tests/` exercises the library on concrete images.
