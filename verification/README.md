# pyxel_core

The core of a retro game engine as a verified library: every function under `src/` is
proved by Verus against its contract. `app/` holds the rest: file and audio input (the
resource archive loader reads the entries and commits the banks that the library has
staged), per-thread random state, window-to-screen mouse conversion, and floating-point
color, ramp and noise math.

Modules of the library:

- `mml_parser`, `mml_timing`: Music Macro Language to commands, and the number of clocks
  a command list takes to play, repeats included.
- `old_mml_parser`, `old_resource_data`, `resource_staging`: the older MML dialect, the
  text entries of old resource archives (images, tilemaps, sounds, music, version
  strings), and the staging of whole banks that changes nothing unless every entry reads.
- `image`, `color`: paletted images (hexadecimal rows, nearest-color mapping of decoded
  pictures, tilemap drawing with mirroring and a transparent color, clipping, camera,
  color remapping, RGB output).
- `font`: BDF bitmap fonts and text width.
- `input`: key states across frames (press, release, hold and repeat).
- `music`, `math`, `pcm`: channel sequences, random integers, decoded samples.
- `ramp`, `shading`, `raster`, `rasterizer`, `scene`: color ramp and shade tables (the
  nearest-color planning is floating point and stands in `app/`), raster helpers, and
  the scene tree's destruction bookkeeping.

`tests/` runs the library on concrete inputs.
