# Portraitify

Portraitify rearranges the pixels of any picture into a portrait. This is its engine: a library
written in Verus, whose contracts are proved, and a thin application around it.

## What the library does

- `optimal` finds the cheapest assignment of source pixels to cells of the portrait, with the
  alternating trees of `assignment` over the cost matrix of `cost`. It is proved that no other
  rearrangement costs less, and by the steps of `match_steps` which of the cheapest is taken.
- `genetic` swaps pixels that do better in each other's place, over distances that shrink by the
  `schedule`. It is proved which swaps a seed leads to, that pixels are only rearranged, and that
  every swap lowers the total cost.
- `process` runs either as a job, with the `messages` that it tells on the way.
- `drawing` and `drawing_job` do the same for a canvas that is being painted on, until another
  drawing takes its place. It is proved that a job tells of its end once, and only then.
- `settings`, `prepare`, `images`, `errors` and `naming` hold what a job is given, and say when it
  is refused.
- `preset`, `preview` and `storage` hold what a job hands over, when that is sound, and what of it
  is stored.
- `gif_recorder` and `gif_file` record the animation as a GIF.
- `natural`, `text`, `buffers`, `random` and `row_set` serve the others.

Costs are integers of 64 bits. Jobs that may compute costs ask that the importance of proximity is
small enough for that; `process::is_affordable` tells whether it is.

Jobs repeat: it is proved that two jobs over the same pictures tell the same, if decoding and
resampling made the same of the pictures or had nothing to do.

Shares of the work are fractions, and distances of the schedules are rounded from exact powers, so
that no contract rests on floating-point numbers.

## What is not proved

Calls into other crates stand behind declarations that say what is taken for granted: decoding,
cropping and resampling (`image`), the random numbers (`frand`), the set of rows (`indexmap`), the
palette (`color_quant`), the bytes of frames (`gif`) and fresh identifiers (`uuid`).

`app/` holds what needs floating point, threads, channels, files, the graphics card or a dialog:
crop windows and colors in bytes, stored forms of presets and settings, the drawing thread, and
reading frames back for a recording.
