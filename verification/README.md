# aerugo

The verified core of the Aerugo Wayland compositor, written in Verus.

- `src/` is the library. Every function in it carries a contract that Verus proves:
  - `forest`: the ordered forest that holds the scene graph, with its traversals;
  - `scene`: outputs, surface trees, surfaces and branches kept in a forest;
  - `shell`: toplevel bookkeeping across initial commits, unmaps and removals;
  - `transaction`: the dependency tracker that fails and finishes transactions;
  - `format`: the pixel format tables between DRM fourcc codes, `wl_shm` codes and Vulkan;
  - `vulkan`: API versions, errors, instance requests, the device allocator's checks and the
    renderer's memory accounting and format probing;
  - `cli`: the command line options as values.
- `tests/` runs the library on concrete values.
- `app/` is the program: argument parsing, logging, and the calls into the Vulkan runtime.
