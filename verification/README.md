# mittens

The verified core of the Mittens engine, written in Verus.

`src/` is the library. Every function in it carries a contract that Verus
proves: the scene-graph world and its selectors, the editor grid registry and
its live visuals, draggable capture, trigger drags and grabs (press hit
selection, move sources, release clicks), skin binding bookkeeping and
deformation allocators, rest attachments and avatar hand nodes, combined-mesh
gathering and reconciliation (with its source fingerprint), implicit-surface
reconciliation and failure reporting, amplitude bookkeeping, humanoid bone
naming, explicit slot references, slot reports and camera-anchor choice, the joint retargeting basis
registry, planar transparency transactions, mesh bounds markers and the mesh-output
bounds registry, the
closed-surface check of extracted meshes, eye-tracking packet decoding and
per-frame merging, and VR frame-timing collection and report naming.

Floating-point values cross the library as their IEEE bit patterns or as the
outcome of a comparison the caller made (a model that moved, a release within
its click tolerance); the arithmetic itself lives in `app/`, which also holds
device and file I/O and the calls into marching cubes, audio capture and the
script runtime. Where a computation alternates between the two, the library
decides and returns what to do (a `CombineAction`, an `ImplicitAction`, a
`BasisRequest`, a `MoveSource`), and `app/` performs it and hands the outcome
back.

Not in the library, nor in `app/`:
- the part of the humanoid bone-map resolution that reads the authored map
  (which slots it names, by which reference) and the event handlers: the
  authored bone-map component is not part of this code base. The rest is in
  `src/`: the registry of maps, requests and generations and the plan of a
  resolution, slot patterns, name inference, explicit-reference resolution,
  arm topology, camera-anchor choice and report summaries;
- the collection of ray hits that the gesture tick reads (the event bus's
  side of that system);
- the float part of a drag move (ray/plane intersection, controller deltas).

The one trusted item is the wrapper around `String::push` in `src/text.rs`.

`tests/` exercises the library through its public API.
