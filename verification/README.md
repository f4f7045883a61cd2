# lottie

A verified core for working with [Lottie](https://lottiefiles.github.io/lottie-docs/)
animation documents, written in Verus.

## Layout

- `src/` — the library, verified by Verus:
  - `color` — 8-bit colors and their hexadecimal form (read through `read_color`).
  - `enums` — the numbered and lettered enumerations of the Lottie schema, with
    proofs that writing and reading them back agree.
  - `helpers` — flags written as 0/1, whole frame numbers, gradient stops read
    from flat number lists, and the content kind a layer's type number announces.
  - `legacy` — normalizing keyframe lists as older documents write them.
  - `animated` — keyframes starting at whole frames, and the value a property
    holds at a frame.
  - `shape` — grouping the items of a shape layer into styled shapes.
  - `timeline` — staging layers (precompositions expanded), attaching each to
    its parent, and the chain of layers whose opacities combine.
  - `media` — embedded `data:` media, media URLs (through `url`) and the
    `Content-Length` of fetched media; base64 decoding goes through `base64`.
  - `content` — what each kind of layer renders, and the mattes of its masks.
  - `renderer` — render configuration, timeline actions and text ranges.
- `tests/` — tests of the library on concrete values.
- `app/` — what the library does not verify: reading a document's layers,
  file and network I/O, fonts, serde
  glue, and the floating-point parts (easing, interpolation, paths, text layout).
