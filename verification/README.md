# svgopt

Tree optimizations for SVG documents, verified with Verus.

A document is read into a tree of nodes (`parser`, on top of the `xml`
crate's event reader) and rewritten by optimizations, each a function from
nodes to nodes whose contract states exactly what it returns:

- `ellipses_to_circles`: an ellipse whose two radii are equal becomes a
  circle with one radius;
- `extract_common_attributes`: attributes shared by all element children of a
  group move onto the group;
- `remove_useless_groups`: empty groups disappear and a group with a single
  child is merged into it, unless the child is referred to by its `id`;
- `remove_useless_stroke_and_fill`: stroke and fill attributes that cannot
  show are dropped;
- `remove_rough_style`: the doubled strokes of hand-drawn ("rough") rendering
  are removed from path data and from runs of sibling paths.

Layout:

- `src/` the verified library; `node.rs` holds the tree and its model,
  `optimizations/` one module per optimization, with its laws as public proof
  functions (`rough_style_laws.rs` holds those of `remove_rough_style`);
- `tests/` tests of the library;
- `app/` the floating-point steps of `remove_rough_style` (reading a number,
  comparing two end points) and entry points that supply them.
