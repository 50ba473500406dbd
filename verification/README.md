# viewport_lib_io

Decoders for scientific datasets and animation sources, with their rules proved in Verus.

- `src/` is the verified library. Each decoder works on plain values: the text or bytes of
  a file, or the structure an HDF5/NetCDF reader found in it. Numbers stay as the texts or
  bit patterns the file holds, so every rule about which values go where is stated and
  proved without floating point.
  - `text`: character-level helpers (words, lines, decimal and float syntax).
  - `mesh`: cell shapes and their triangulation, grid cell walks.
  - `bvh`: BVH hierarchy and motion.
  - `ensight`, `ensight_geo`: EnSight Gold case files, ASCII and C-binary geometry and
    variable files.
  - `tecplot`: Tecplot ASCII files.
  - `exodus`, `cgns`, `netcdf`: the decisions of the Exodus II, CGNS and NetCDF readers
    (element blocks, zones, axes, time steps).
  - `gltf`, `gltf_skin`, `gltf_scene`, `gltf_mesh`: glTF image widening, skin joint
    ordering, document parsing, skeletons, the plan of the animation clips (which channels
    become tracks of which skeleton's clip), and the mesh instances of the scene graph
    (names, parents, skeleton bindings).
  - `texture`: BMP and EXR images decoded to 8-bit RGBA.
  - `lightmap`: the texel counts of a lightmap atlas.
  - `fbx`: FBX axis policy, rig reuse, bone ordering, polygon fans, sparse shape deltas.
- `app/` opens files, calls the outside readers (HDF5, NetCDF, glTF buffers, images), hands
  the library plain values, and turns number texts and keyframes into `f32` with `glam`.
- `tests/` runs the library on concrete inputs.
