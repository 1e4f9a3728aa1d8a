# arclib_numerics

A numerics graph library: tensors flow through a graph of nodes (state,
constants, boundary conditions, equations compiled to kernels, device
migration, export and probes), and a lattice-Boltzmann domain supplies the
kernels and boundary rules.

The library in `src/` is verified with Verus. It holds what the graph
decides: tensor shapes and NumPy-style broadcasting, the execution order of a
graph, shape inference and lowering of equation nodes, what each node takes
from and stores in a step's values, checkpoint bookkeeping, and the integer
side of the lattice (velocity sets, Zou-He wall rules, probe and image
geometry). Tensors appear there as references: a handle, a shape and a
device.

`app/` is the runtime around it: the `f32` elements behind the handles, the
copies between main memory and the GPU, the C kernels, and the evaluators,
exporters and probes that compute with floating point or write files.

`tests/` exercises the library from outside.
