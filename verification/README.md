# toolkit

Verified building blocks for procedural content tools, written in Verus.

`src/` is the verified library:

- `dag`, `node`, `paths`, `topology`, `kahn`, `order`, `evaluation`: a node
  graph stored in a `petgraph` stable graph, with cycle-free connections,
  downstream dirty propagation, reachability, and a topological order fixed
  by Kahn's algorithm with id tie-breaking; and the decision of which value
  feeds each input port during evaluation.
- `image`, `codec`: an RGBA8 image buffer (pixels, blits) and PNG decoding
  and encoding through the `png` crate, with channel expansion to RGBA8.
- `meshedit`, `loopcut`: face-list editing of polygon meshes (removing,
  filling, bridging and dissolving faces, extrude/inset rings, boundary
  loops, edge-loop cuts), each keeping vertex indices in range.
- `meshops`, `primitives`: index work on triangle lists (winding flips,
  merging with index offsets, vertex neighbour sets) and the triangle
  indices of the cube, grid plane and UV sphere primitives.
- `noise`: seeded permutation tables and integer hashes for coherent noise.
- `telemetry`: a fixed-capacity ring buffer that keeps the latest samples.
- `lsystem`, `turtle`: string rewriting, and reading the result as turtle
  operations with balanced state saves and restores.
- `bvh`: the node type of a bounding-volume hierarchy and its pre-order
  flattening.
- `weld`, `project`: vertex welding by grid key, `(id, value)` asset tables
  and the check that every referenced asset id resolves.
- `text`: the error messages the toolkit reports (`GraphError::message`,
  `ImageError::message`), built with node ids written in decimal.
- `vertex`, `easing`, `gizmo`, `field`, `procedural`: layout descriptors and
  the plain types of curves, gizmo handles, field combinators and packers.

`app/` holds what computes with floating point or touches files (noise
evaluation, geometry, mesh operations, polylines, gizmos, node templates,
PNG files); it uses the library and is not verified. `tests/` exercises the
library from outside.
