# rmsh

A finite-element mesh toolkit: Gmsh MSH files (formats 2.2 and 4.1), the
topology of a mesh's surface and volume (geometric vertices, edges, faces and
regions), boundary extraction, render index buffers, and the integer parts of
meshing (bit-interleaved point codes, grid colouring, triangle recombination).

## Layout

- `src/` — the library, written in Verus. Its functions carry contracts
  that Verus proves; the ownership token of `hxt`, built on a standard
  atomic whose value no specification models, has none.
  - `mesh`, `element`, `topology`: the mesh model and its invariant (node IDs
    unique and in increasing order), element types and their local faces and
    edges, the geometric entities.
  - `text`, `msh_spec`, `msh`: decimal text and the MSH reader, proved equal
    to a specification of the format.
  - `msh_write`, `msh_write_v4`, `save`: the MSH writers and save names.
  - `msh_laws`, `msh_laws_v4`, `msh_laws_keep`, `text_laws`: reading back a
    written file gives the mesh back.
  - `boundary`, `extract`, `faces`, `components`, `classify`, `faces_laws`,
    `face_loop`: boundary faces, surface faces and edges, the classification of
    the surface into geometric faces, edges and vertices, regions of volume
    elements connected through shared faces, and what the classification
    guarantees.
  - `laplacian`, `merge`, `surface_loop`, `tetra`, `step`, `hxt`, `meshing`,
    `cad`: node adjacency and boundary nodes, merging meshes, boundary loops,
    the surface-to-volume pipeline's integer steps, STEP face lists, point-code
    bit interleaving and colouring, triangle recombination, B-Rep records.
- `tests/` — ordinary Rust tests of the library.
- `app/` — the unverified rest: file and thread I/O, floating-point geometry
  (normals, dihedral angles, 2-D Delaunay meshing, CAD shapes), and a copy of
  the mesh with numeric coordinates and serde support.
