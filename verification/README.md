# crab frame

An animated ASCII crab. The verified library (`src/`) holds what the
renderer decides on integers and characters:

- `frame`: the character frame with its depth buffer (`Frame`), its
  mathematical view (`FrameView`), clearing, depth-tested plotting and the
  text a frame prints as;
- `shade`: the brightness ramp of glyphs;
- `laws`: properties that span these operations (text layout, idempotent
  and commuting plots, the nearest surface showing, depths only coming
  nearer, any run of offers showing the first nearest one per cell,
  marks standing exactly where depths are, a wiped frame printing blank).

`app/` builds the floating-point model, animates and projects it, and
hands each projected cell to the library.
