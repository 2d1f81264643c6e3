# lattice_boltzmann

A D2Q9 lattice-Boltzmann fluid toy, split in two.

- `src/` is the verified library, generic over the scalar type of the nodes:
  - `consts`: grid and screen sizes, and `cursor_cell`, which maps a screen
    point to the lattice cell under it;
  - `direction`: the numbering of the nine directions and their opposites;
  - `node`: `Node<F>`, one lattice site;
  - `lattice`: `Lattice<F>`, its shape invariant `wf`, `build_lattice`, and
    `update_nodes`, which replaces every node by a function of it;
  - `streaming`: the streaming step, which moves every microscopic velocity
    one node along its direction (bouncing back at the walls), done in place,
    and its proof;
  - `laws`: where streaming moves each value, and the conservation of the
    values of each direction pair.
- `app/` is the program: the `f32` physics of each node (densities,
  velocities, equilibrium, collision, clamping), the window, the mouse and the
  images, built on the library with `F = f32`.
