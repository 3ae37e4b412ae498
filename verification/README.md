# raytracer

A ray tracer with a desktop viewer. The library in `src/` holds the parts
whose behaviour can be stated exactly, each proved by Verus against its
contract; `app/` is the program around it.

## src/ (verified)

- `viewport`, `view_chunk`, `rgba`: how a view is cut into chunks, chunk and
  image pixel buffers.
- `partition`, `bvh`: the in-place partition and the bounding volume
  hierarchy built on it, with its depth-first candidate search.
- `text`, `int_text`, `float_text`: character-level text handling.
- `obj_format`, `obj_file`, `mtl_file`, `mesh_build`, `mesh_file`,
  `wavefront`: Wavefront OBJ and MTL parsing, mesh file sections and faces,
  and the plan of a mesh (triangles and textures) from parsed groups and
  materials.
- `color_map`: the pixels of a color map from the bytes of its image.
- `render_job`: the bookkeeping of a render job (chunks handed out, messages
  of the render threads, per-thread statistics).
- `format`, `seed`, `timer`: duration text, seeded random number generators,
  a repeating timer.

## app/ (not verified)

The window, the render threads, scenes, shapes, materials, lights and
textures, which compute in floating point.

## tests/

Tests of the library on concrete values.
