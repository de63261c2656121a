# wind_tunnel — a numerical wind tunnel with a verified core

A small finite-volume code: an ASCII mask of fluid (`.`) and solid (`#`) cells becomes
an unstructured mesh of quadrangles and chamfered triangles, on which a passive tracer is
carried around an obstacle; results are written as VTK and PNG files.

The library (`src/`) is the discrete part of that code, written in Verus and proved
against its contracts:

| Module | What it holds |
|---|---|
| `mask` | reading and validating a mask (widths, characters, one connected fluid domain), refining it, cutting out columns |
| `mesh` | cells with their chamfered corners and numbered vertices, pairing of edges into faces |
| `surface` | why a mask's cells always pair cleanly: no edge is shared by three cells |
| `topology` | boundary classification, cell → faces rows, vertex graph of the inner faces, obstacle clearance check |
| `rows` | compressed rows of faces listed under the owners they name |
| `decomposition` | vertical bands for a distributed run, who owns, sends and receives which cells, packing and unpacking of values |
| `vtk` | the integer sections of a VTK legacy file |
| `stopping` | the caps that stop a run |
| `steps` | the course's step tooling: finding, filling and reopening the marked blocks of the sources |
| `design`, `error`, `text` | identifiers and faces, error messages, text helpers |

The program (`app/`) holds what is floating-point or talks to the outside world: the
geometry of the cells and faces, flows, flux schemes, the solver and its time loop, the
PNG and VTK writers, command-line handling, and the file side of the step tooling.

`tests/` exercises the library on concrete masks and texts.

The distributed driver (halo exchange over MPI, global reductions, its time loop) is not
part of this crate: it needs a system MPI library. What it relies on — the bands, who owns,
sends and receives which cells, packing and unpacking, and the laws that the exchange
delivers each owner's value — is in `decomposition`.
