# jacobi

Jacobi stencil solvers on rectangular integer domains.

- `src/` is the verified library:
  - `index_math`: the model of a domain (a sequence of half-open `i64`
    ranges), its points, its size, the row-major numbering of its points,
    the odometer step that walks them, and the slabs a domain is cut into,
    with the lemmas that tie them together.
  - `domain`: `Domain` (construction, intersection, splitting into slabs,
    row-major positions, sizes, inclusion, equality).
  - `domain_iter`: `Domain_Iter`, the row-major traversal of a domain.
  - `grid2d`: grids of values over a domain, subgrids, grids cut into slabs
    and copied back together.
  - `grid3d`: cubic grids and the serial seven-point integer sweep.
- `app/` is the command-line program: option parsing, threads, timing,
  printing, and the floating-point sweeps (`jacobi 1d|2d|3d -T steps -N size
  [-C threads]`).
- `tests/` exercises the library on concrete values.
