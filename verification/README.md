# slmsttaa

The decision-making core of a small WebGPU rendering engine and of its
developer task runner, written in Verus and verified.

`src/` is the library. Each module states what it computes as `requires` /
`ensures` contracts over mathematical models, and the properties that span
several calls are stated and proved as `proof fn` laws:

| Module      | What it decides                                                        |
| ----------- | ---------------------------------------------------------------------- |
| `graph`     | render passes, their attachments, and the order a frame runs them in   |
| `draw`      | how instances batch into draws, which pass draws what, wireframe edges |
| `frame`     | what a frame does when acquiring its swapchain image fails            |
| `mesh`      | the index lists of primitive meshes                                    |
| `input`     | held keys and buttons, press edges, the ordered keyboard/text log      |
| `capture`   | capture mode's checkpoint schedule                                     |
| `png`       | a PNG writer using stored deflate blocks, CRC-32 and Adler-32          |
| `tasks`     | cargo arguments, the static server's routing, capture scripts          |
| `harness`   | the screenshot harness's verbs, and the Win32 message values           |
| `backend`   | backend and limits overrides, query-string settings                    |
| `ui`        | widget ids and drag capture                                            |
| `clipboard` | the remembered clipboard text                                          |
| `text`      | character-level parsing and formatting shared by the above             |

`app/` is the program around it: the task runner's processes, sockets and
files, and the X11 and Win32 desktops. On the engine side it holds pieces
only: the floating-point parts (camera, clock, vertex positions, instance
layout), the conversion of `winit` keys and of `wgpu`'s surface status, the
backend and limit settings as `wgpu` values, and the `arboard` clipboard.

The engine itself is not here. The renderer (device and pipeline setup, frame
recording), the text overlay, the `winit` event loop, and with them the
`Application` trait and `run` entry point, are built on the project's UI
crate, whose source this repository does not include. Their decisions (pass
order, draw batching, the frame's surface handling, input state, capture
scheduling) are in `src/`; the GPU and window code around them is not.

`tests/` runs the library on concrete values.
