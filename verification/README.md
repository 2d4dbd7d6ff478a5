# polygon_offsetting

Offsetting of simple polygons, inward or outward, by a margin.

The crate under `src/` is the verified core. It is generic over the
coordinate type `C`, which it only carries, and holds everything that decides
on vertex identifiers and edges:

- `contour`: segments of a contour, reversing a chain, vertices keyed by
  position, numbering corner points, and the ring of edges of a polygon;
- `crossings`: ordering the crossings on an edge by distance key, numbering
  the crossings of all edge pairs as new vertices, and splitting every edge
  at its crossings;
- `regions`: the edge map, tracing one region from a start vertex, and
  splitting a self-crossing polygon into regions;
- `selection`: the start points of the edges and the choice of the largest
  region;
- `sorting`: a stable sort by integer key;
- `error`: the error type and its messages.

`app/` holds the floating-point geometry (normals, offset edges, arcs,
intersections, areas, perimeters, tolerances) over `f64` and drives the
offsetting pipeline through the core.
