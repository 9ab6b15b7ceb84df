# kimi_bg_tool

Changes the background of the Kimi Code desktop app: a picture for the dark and
the light color scheme (or an MP4 video), with adjustable mask opacities, written
as a patch into the app's main style sheet, and pushed live to a running app
through a small "hot reload" hook in its `index.html`.

The library (`src/`) is verified with Verus:

- `patch` – the patch block: building it from the templates, stripping it,
  writing it into a style sheet. Applying a built patch again changes nothing
  (for patch inputs without `*`, which base64 data, opacities and MIME types
  never hold, and a sheet without an unterminated patch start); removing it
  gives the sheet back when the sheet ends in one newline (else the sheet with
  its trailing white space trimmed and one newline).
- `hook` – installing, upgrading and removing the hot-reload hook in
  `index.html` (removing undoes installing on a page without a hook and with a
  `</body>`; installing twice changes nothing; removal cuts only the block, its
  own indentation and the newline after it).
- `hot` – the hot-reload files: the version number (always increasing) and the
  version file's JSON.
- `mp4`, `mp4_layout` – top-level MP4 boxes, shifting chunk offsets inside
  `moov`, and the "faststart" rearrangement. Unless the first `moov` uses size
  0 ("to the end of the file"), its result has `moov` first, keeps `mdat` byte
  for byte, and is left alone by a second pass.
- `picture` – a picture made ready to embed, through the `image` and `base64`
  crates: a GIF is embedded as it is; any other picture is decoded, cut,
  scaled so that no side exceeds 2560 pixels, encoded as JPEG (quality 82, or
  70 above 900 KiB) and embedded in base64.
- `conf` – the settings file (reading back what was written gives the settings).
- `persist` – saving the settings a moment after they last changed.
- `locate`, `paths`, `crop`, `pattern`, `text` – finding the main style sheet,
  path decisions, crop choices, regular expressions, and text helpers.

`app/` is the egui window and everything that touches the disk, the registry or
the clock; `tests/` runs the library on concrete inputs.
