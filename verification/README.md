# track_overlay

Overlays TrackAddict CSV telemetry (speed, g-force, lap times, GPS position,
throttle, engine speed) onto GoPro MP4 footage, with a preview for lining up
video and data and a batch exporter built on FFmpeg.

The crate is verified with Verus:

- `src/` is the library, its functions proved against their contracts
  (a few small trusted wrappers stand for calls into std, `chrono` and
  `lru`):
  `text` (lines, trimming, decimal output), `binary64` (the exact value of
  a millisecond count as a binary double, for printing seconds), `gpmf` (the GPMF stream in
  `ffprobe` output and the `GPS5` byte scan), `timeline` (searching time
  stamps), `telemetry` (lap boundaries, finished laps, trimmed views),
  `sync` (matching start/finish crossings), `session` (playhead and clock),
  `overlay` (gauge texts and options), `export` (frame selection, row
  packing and flipping, audio mux arguments), `video` (seek requests,
  decoded frames, recording time), `cache` (the decoder's frame cache) and
  `merge` (the concat list). Properties that span several functions are
  stated as `law_*` proof functions.
- `tests/` exercises the library on concrete values.
- `app/` is the GUI (eframe/egui), the FFmpeg decoding and encoding, CSV
  reading, and the floating-point parts (interpolation, map projection,
  distance-based sync, drawing), all calling into the library.
