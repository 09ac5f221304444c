# Normal Mapper

Texture maps from images, and hand-painted relief for pixel art: four height
canvases, one per edge of a texel, from which the normal of a texel falls
straight out. A brush with seven tools paints them, shapes are stamped into
selected regions, and everything undoes stroke by stroke.

The library under `src/` is written in Verus: what each function does is stated
in its contract and proved. The desktop app round it, in `app/`, draws the
window, reads and writes files, and does the floating-point arithmetic.

## The library

- `sheet`: the four canvases, their selection and their history. `Sheet` is the
  mathematical picture, `Board` is what runs. Undo and redo are proved to
  retrace each other.
- `relief`: the brush, the tools, the selection, and the bake.
- `timeline`: the history as the user sees it, canvases before and after; any
  run of strokes, undos and redos is proved to follow it.
- `strokes`: what holds of whole strokes: where a tool reaches, that a drag
  leaves no gaps, that whatever was painted comes off in one step.
- `shape`, `distance`: regions and how far each texel sits from their edge, by
  an exact distance transform; the magic wand.
- `cutout`: which opaque texel stands in for a transparent one.
- `normalmap`, `preview`, `pixels`: the maps there are, the texels a slope is
  taken over, and the small copies that the previews work from.
- `binary32`, `drift`, `paced`: single-precision arithmetic on whole numbers, for
  the two places where a size or a path has to round as it does, how far that
  can carry a point, and which paths it cannot disturb.
- `session`, `batch`, `light`, `zoom`, `text`, `theme`: what the app decides from
  one frame to the next, and what it says.

One function of the `image` crate is called from the library, to resample a
picture; what it returns is taken on trust, in `pixels`.
