# drackpad

A tool that turns paper and a camera into a trackpad. This crate holds its
verified core; `app/` holds the command-line program around it.

- `src/` (verified with Verus): frames and their packing into the planar
  `[1, 3, 224, 224]` model input (`tensor`), the resize step done by the `image`
  crate (`resize`), the choice of model outputs (`outputs`), the grouping of raw
  landmark values (`landmark`), the model I/O summary (`model`), the command line
  (`cli`), the selection of image files (`paths`) and the camera loop decisions
  (`capture`).
- `app/`: OpenCV image and camera access, ONNX Runtime inference, scaling of the
  floating-point results, printing.

Run `cargo run -- path/to/hand.jpg` or `cargo run -- --camera [INDEX] [FRAMES]`
with `ORT_DYLIB_PATH` pointing at the ONNX Runtime shared library.
