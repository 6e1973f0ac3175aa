# cloth_sim

A mass-spring cloth shown in a window. The library under `src/` holds the
grid bookkeeping of the simulation, each function with a contract that Verus
proves:

- `grid`: the row-major layout of the particle grid (flattening rows into
  one buffer, cutting a buffer back into rows, the flat position of a cell,
  the share of particles per worker), with the laws that flattening and
  cutting undo each other.
- `cloth`: a fresh `n` by `m` cloth: its two anchored top corners and its
  springs, which are exactly the edges of the grid, each once.
- `render`: the 16-bit line list that draws every spring between its two
  endpoints in the vertex list.
- `picking`: the particle with the smallest distance key (the first one in
  row-major order on a tie), and the particle held between a press and a
  release of the mouse button.

`app/` is the program: the floating-point particles and the time steps that
move them (serially, or split between rayon workers), the window, input
events and drawing with winit, glium and nalgebra.
