# lottify

Lottify turns the meshes of a glTF scene into flat vector outlines, previews them,
and exports them as an SVG or, frame by frame, as a Lottie animation.

- `src/` is the verified library: the outlining of a mesh (corner outlines, the
  vertex map, the walks that close the outlines, batch after batch), the
  assembly of animation layers, the frame stepper, the cached mesh data, the
  export progress and the drawing order. Vertex coordinates enter it as the bit
  patterns of their `f32` values; the geometric tests on those values (which side
  of a line a point lies on, whether a triangle faces the viewer, the depth sort)
  are made before.
- `app/` is the Bevy program around it: loading the scene, the GPU read-back of
  vertex positions, the floating-point preparation of the faces, drawing with
  Vello, the egui panels, and writing SVG and Lottie JSON files.
- `tests/` runs the library on concrete meshes and states.
