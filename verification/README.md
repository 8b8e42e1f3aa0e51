# marpii_rmg

A resource managing graph for Vulkan, verified with Verus. Tasks declare the
images, buffers and samplers they use; the graph places each task on a queue
track that fits it, orders the tasks into frames, moves resource ownership
between queue families and keeps bindless descriptor handles for every
resource.

## Layout

- `src/` is the verified library.
  - `handle.rs`: bindless resource handles (index and descriptor type packed
    into a `u32`).
  - `bindless.rs`: descriptor set slot management and the bindless set.
  - `res_states.rs`, `resources.rs`, `temporary.rs`: the resource store, queue
    ownership states, and resources that are dropped after a time out.
  - `registry.rs`, `register.rs`, `task.rs`: what a task or pass requests, and
    how an image or buffer use becomes an access mask and a layout.
  - `track.rs`, `schedule.rs`, `executor.rs`, `transfer.rs`, `run.rs`,
    `recorder.rs`: tracks, the task schedule, import and release of
    ownership between tracks, and running a schedule frame by frame.
  - `rmg.rs`: the device features the graph needs.
  - `conv.rs`: texture format and usage conversions between wgpu and Vulkan.
  - `tasks.rs`: types shared with the bundled tasks.
  - `maps.rs`: the outside hash maps and slot maps the library keeps its
    state in, with the contracts their operations are used under.
- `tests/`: tests of the library.
- `app/`: copies of library types with the derives of outside crates
  (`bytemuck` layouts for shader-shared data, `thiserror` error types), with
  conversions both ways.
