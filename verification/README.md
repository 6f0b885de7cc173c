# duck_scene

The scene graph, geometry queries, tessellation bookkeeping and frame planning of a 3D
engine, with contracts proved by Verus.

- `src/data` holds the scene: resources kept alive by counted handles, the node tree, and
  the caches of world transforms, bounds and visibility. `SceneModel` is its mathematical
  model. `sound` is the invariant of scenes: each operation on a scene has a law that says
  when it keeps it. A resource that was got for changing is in the caller's hands;
  `replacing_laws.rs` says which changes in place keep the scene sound, and where the
  replaced handles go.
- `src/geom_query` picks: a bounding volume hierarchy, spatial indices over meshes, the
  walk over the scene, and the query for a convex volume.
- `src/renderer` decides what a frame draws: batches, their order, lights, and for each
  pass the attachments, pipelines and commands.
- `src/resource`, `src/camera.rs`, `src/light.rs`, `src/view.rs` are the values that a
  scene is made of; `src/cad` turns tessellated shapes into nodes.
- `tests` runs the library; `app` is the part around it that talks to the graphics
  device, takes locks, reads files and computes with floats.

Numbers with a fraction are carried as bit patterns (`Scalar`). Whatever computes with
them comes in as functions, gathered in small structs (`PickMath`, `FrameMath` and their
like); contracts hold for every choice of such functions that is definite, that is, gives
one result for one input.
