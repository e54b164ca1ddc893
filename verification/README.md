# dinamika

A CPU renderer for declarative 2D animation, split in two:

- `src/` — the library, written in Verus and verified: 8-bit straight and
  premultiplied colors, pixel buffers and clipping masks, PNG framing (through
  the `png` crate), font metrics in font units (through `ttf-parser`), text
  positions and editing, highlight ranges, the character diff behind text
  morphs, syntax-highlight coloring (through `syntect`), reactive signals,
  texel wrapping, the blend-mode table, and frame names. Contracts state
  results over mathematical models; where a result comes from an outside
  crate, it is stated over a named result of that crate. The value a `Signal` holds is
  not stated: it is shared between clones through an `Rc<InvCell<..>>`,
  whose contents a contract cannot follow. Output paths are built by
  `std::path` by the platform's rules, so their contracts speak of how each
  path was built from strings (joins and parents), not of its text.
  The laws that relate several functions are public
  proof functions next to them.
- `app/` — ordinary Rust around the library: everything computed in
  floating point (float colors, geometry, paths and strokes, the
  anti-aliased rasterizer, gradients, textures and compositing, glyph
  outlines and pixel metrics, easing curves, tweens and the timeline) and
  the file side of PNG frames.
- `tests/` — tests of the library, run against the real outside crates.
