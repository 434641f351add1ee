# pickture

A keyboard-driven photo-culling tool: a folder of frames is walked frame by
frame, keepers are copied (with an optional colour correction) into a
destination folder, and originals are never touched.

- `src/` is the verified library. It holds the session model and its record,
  natural name order, the destination rules and output names, the decode
  queue and the byte-budget caches, the JPEG segment walk that carries EXIF
  over, the decode route, the DCT-scaled JPEG decode and the encoders behind
  small trusted wrappers, exact raster operations, and the decisions behind
  every surface of the interface (keys, menus, picker, filmstrip, status).
- `app/` is the window: egui painting, file and thread plumbing, serde for
  the session record, and the floating-point colour and rotation passes.
- `tests/` exercises the library with the outside crates linked.
