# pm_cuda

The CUDA backend of a language-model engine: tensor operations, a reverse-mode
autograd tape and a per-operation profiler. What is decided on the host is
decided by a verified Rust library; what a device computes is described in it.

- `src/` plans. Every operation becomes a *program*: a list of buffer
  allocations, kernel launches, matrix products and host steps, with the exact
  arguments of each. The contracts say which value every buffer holds once the
  program has run, which shapes are refused and why, and what is recorded on
  the tape. The backward walk is planned in the same way.
  - shapes, launches and programs: `shape`, `launch`, `program`, `kernels`,
    `reduce`, `gemm`, `conv`, `ssd`
  - operations on tensors: `tensor`, `device`, `broadcast`, `matrix`, `rows`,
    `convolve`, `ops`, `compound`, `backend`, `param`
  - differentiation: `tape`, `grad`, `rules`, `vjp`, `parts`, `walk`, `reach`,
    `walkable`, `backward`
  - what host steps and kernels compute, over any arithmetic: `host`,
    `hostconv`, `hosttask`, `index`, `scatter`, `lanes`, `depthwise`, `activate`,
    `norm`, `scan`, `lane`, `block`
  - what a program's buffers hold as numbers, kernel by kernel: `meaning`; that
    a program can be run, leaves every other buffer alone and makes what its
    plan says: `running`
  - profiling: `profiler`, `report`
  - properties across modules: `laws`; of the scan: `recurrence`; of the numbers
    that tensors hold: `values`, `paths`, `convolution`; of gradients as adjoints:
    `adjoint`, `grouped`
- `app/` runs programs on a device through `cudarc`, and holds what depends on
  the process: environment switches, clocks, files.
- `extras/kernels.cu` holds the kernels that the launches name. They compute
  what `meaning` says of each, in the same order of operations, but nothing
  checks that: the CUDA code lies outside the verified library.
- `tests/` runs whole training steps on a simulated device and compares
  gradients with difference quotients.
