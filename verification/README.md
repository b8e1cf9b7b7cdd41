# rustkit_layout

CSS layout, verified with Verus: block and inline flow, margin collapsing,
floats, positioning, multi-column balancing, text alignment, hit testing, and
display lists.

## Modules

- Numbers: `num` (IEEE binary32 in integers), `rounding`, `integral`; `exact`
  shows where arithmetic is exact and what rounding keeps in order.
- Geometry and style: `geometry`, `style`, `casing`.
- Flow: `floats`, `margin_collapse`, `text`, `sizing`, `block`, `leaf`,
  `baseline`, `align`, `multicol`, `flow`.
- Trees: `boxes`, `tree`, `layout`, with its executable half in `children`,
  `placing` and `collapsing`; `unfolding` opens its definitions one level at a
  time, `keeping` shows what layout leaves alone, and `pending` what becomes of
  the last margin of a block.
- Reading a laid out tree: `order`, `hit_test`.
- Painting: `images`, `display`, `decorate`, `borders`, `controls`, `ellipsis`,
  `paint_text`, `display_list`; `nesting` shows that display lists are well
  nested.

## Boundaries

- Text shaping is done elsewhere. `text::Shaper` is a table of its answers; an
  absent answer stands for a request the font engine could not meet.
- Intrinsic widths come with each box (`boxes::IntrinsicWidths`); a new box has
  none until they are filled in.
- The items of flex and grid containers are laid out in flow; arranging them is
  left to the caller.
- Letter case is the standard library's: the two wrappers in `casing` are the
  only code that is trusted.

`app/` holds the conversions to machine floats and the error type that
implements `std::error::Error`.
