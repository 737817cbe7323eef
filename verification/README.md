# resizer

Prepares videos and photos for the web without wrestling with ffmpeg: crops
them to the format of the site (4:5 *hover* cards, 1:1 or 16:9), compresses them
to a target size and saves copies that are ready to upload. The originals are
never modified.

## Layout

- `src/` is the library: every decision of the program, as functions on plain
  values that are verified with Verus against their contracts.
- `app/` is what surrounds it: the local web server, files and processes. It is
  the root of two programs, `main.rs` for the terminal and `resizer.rs` for a
  double click.
- `tests/` runs the library on concrete values.

## What is proved

Each public function of the library states exactly what it returns. On top of
that, the proof functions named `law_...` state what holds of the library as a
whole. A few of them:

- `plan`: an output is even on both sides, never larger than its source, and
  inside the box; fitting keeps the aspect to a pixel and fills the box on one
  side; a byte cap is kept.
- `coverage`: the bitrate of a plan covers its frame, since a frame that is too
  large for it shrinks.
- `exif`: an orientation that is written into a JPEG, a PNG or a WebP is the one
  that is read back.
- `jobs`: no result of a batch overwrites a file that is there or another result;
  nothing that lies in the output directory is taken as an input; an image that
  cannot be brought under its size cap is refused; parallel jobs never mix up
  their files.
- `install`: a download is always offered, and exactly one way is recommended; an
  installation ends at the first step that fails.
- `server`: requests from elsewhere are refused, changes need the token of the
  page, and only own files are served.

## What is trusted

Four functions are called without a proof of what they do, and their contracts
say what is claimed of them: `String::push` and `String::from_utf8_lossy`
(`src/text.rs`), and the reading and writing of JSON by `serde_json`
(`src/json.rs`).
