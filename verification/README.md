# blazy

Blender-style user interface on top of Masonry: windows tiled into areas by a tree of
splits, and a canvas of nodes with pan, zoom, culling and levels of detail.

The library holds the decisions and proves them with Verus; the widgets around it are
ordinary Rust.

| Where | What |
|---|---|
| `src/areas` | The split tree, the screen of areas, the regions inside an area |
| `src/canvas` | The canvas: detail levels, culling, materialisation, view and pointer |
| `src/geometry.rs` | Points, rectangles, transforms |
| `src/number` | Binary64 arithmetic, proved against its definition |
| `app` | The Masonry widgets |
| `tests` | Tests of the library from outside |

What holds of a whole, rather than of one function, stands in the modules whose names end in
`laws`: that a layout tiles the screen exactly, that a splitter lands within a pixel of the
pointer and disturbs the areas on its two sides only, that an idle screen and an idle canvas
stay idle, that exactly the nodes in view have a widget, that a pan adds up to the way the
pointer went, and that a zoom keeps the canvas point under the pointer within a 64th of a
pixel of it. Each law says within which distances it holds.

A coordinate crosses to a native floating-point number and back by its bits.
