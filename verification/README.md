# vjnode

The node-graph core of a real-time, audio-reactive GPU renderer, written
in Verus and proved against its contracts.

`src/` is the verified library:

- `model.rs`: the editable graph model (node kinds, nodes naming their
  inputs by id), lookups by id, and the topological sort.
- `order.rs`: what a topological order is, and the counting facts about
  input edges that the sort's proof rests on.
- `plan.rs`: turning a model into the ordered `add_node` calls that build
  the runtime graph, and the error texts.
- `graph.rs`: the runtime graph: slots in insertion order, wiring that
  only points backwards, resizing, and the order of execution.
- `audio.rs`: cutting the sample stream into analysis windows and sorting
  spectrum bins into bass, mid and treble.
- `state.rs`: the starter graph and the window sizes the surface accepts.
- `text.rs`: how node ids read as text.

`app/` is the program around it: window and GPU setup (winit, wgpu), the
egui overlay, audio capture (cpal) and the floating-point signal
processing (rustfft), and serde copies of the model types.
