# rust_ocr_transformer

Verified core of an OCR pipeline for images and video, written in Verus.

- `src/` is the verified library: reading order of detected text boxes
  (line grouping and recursive XY-Cut), connected regions of a detection
  map, greedy overlap suppression, CTC collapsing, subtitle segment merging,
  keyframe sampling decisions, SRT and plain-text output, and the
  model-independent decisions of the inference backend (input sizing,
  orientation choice, label lookup, dictionary parsing, input shape pinning).
  Every function carries a contract proved by Verus; the public proof
  functions state the laws that hold across calls.
- `app/` is the program around it: the `roct` command line, ONNX inference
  with tract, image decoding and resampling, the floating-point scores
  (softmax, IoU ratio, structural similarity, edit similarity), JSON through
  serde, and the Python bindings.
- `tests/` exercises the library on concrete inputs.
