# raytracer

A modular raytracer whose integer and structural logic is proved with Verus.

- `src/` is the verified library:
  - `errors`, `plugins`, `camera`: command-line arguments, plugin library paths, the image size.
  - `rendering/tiles`: the 16×16 tiles that the renderer hands to its threads; every pixel
    lies in exactly one tile.
  - `rendering/image`: the PPM file written for an image.
  - `rendering/bvh`: building a bounding volume hierarchy and walking it. The geometric
    choices (boxes, splits, ray–box and ray–primitive tests) are asked of the caller
    through the `BvhGeometry` and `RayQuery` traits; the library proves that the order of
    primitives is a permutation, that the leaves partition it, that each node's box is the
    box of the primitives of its run, that each node is split exactly as the geometry chose, that every walk ends, and that the hit a walk
    returns is the nearest among the primitives behind the boxes it enters.
  - `primitives/obj`: the Wavefront OBJ reader (vertex lines, faces fanned into triangles).
  - `scene/preprocessor`: reading and writing RON text (through the `ron` crate), and
    expansion of reusable components in a scene description, with props, references,
    imports and cycle detection.
- `app/` is the program: file input and output, configuration, plugin loading, the floating-point
  geometry of cameras, lights, materials and primitives, and the threaded render loop.
- `tests/` exercises the library on concrete scenes, meshes and hierarchies.
