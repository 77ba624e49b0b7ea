# lau-morse-theory

Morse theory for manifolds and agent state spaces: critical points and their
indices, handlebody decompositions, Morse-Smale complexes and their boundary
matrices over Z/2Z, persistence diagrams and Reeb graphs, and the weak and
strong Morse inequalities.

## Layout

- `src/` is the library, written in Verus. Every function there carries a
  contract that Verus proves. A critical point is held by the dimension of
  its ambient space, its Morse index, its critical value on an integer scale
  and the dimension of the kernel of its Hessian. The `law_*` proof
  functions state properties that span several operations (Euler
  characteristics agree across handles, cells and index counts; cancelling
  handle pairs keeps the Euler characteristic; persistence bars pair adjacent
  indices; and so on).
- `app/` is ordinary Rust around the library: real positions, Hessians and
  their eigenvalues, gradient integration, distances, and serde records. It
  hands the library plain values and takes plain values back.
- `tests/` runs the library on concrete inputs.
