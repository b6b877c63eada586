# oxide

Bounding-volume hierarchies for a ray tracer, verified with Verus.

Scene coordinates are fixed-point integers (`i32`), so that every box, edge and
ordering the hierarchies compute is exact.

- `src/` is the verified library: points and boxes (`vec3`, `aabb`), a stable
  merge sort by key (`sort`), the object hierarchy (`bvh`), and triangle meshes
  with their flat hierarchy and spheres (`geometry`). Each module states its
  contracts over spec functions and proves the laws of its structures (boxes
  join, sorting permutes, every node's box holds what lies below it).
- `app/` holds what computes in floating point: the conversion of scene
  coordinates to the grid, ray intersection tests and the traversal of the
  hierarchies, and the loading of STL files.
- `tests/` runs the library on concrete scenes.
