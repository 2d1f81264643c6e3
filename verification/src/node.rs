use vstd::prelude::*;

verus! {

/// One lattice site, over a scalar type `F` (the simulation uses `f32`).
#[derive(Clone, Copy)]
pub struct Node<F> {
    /// Microscopic velocities, one per direction.
    pub micro_vel: [F; 9],
    /// Macroscopic velocity, as its two components.
    pub macro_vel: [F; 2],
    /// Particle distribution, one per direction.
    pub micro_den: [F; 9],
    /// Macroscopic density.
    pub macro_den: F,
    /// Equilibrium distribution, one per direction.
    pub eq_dist: [F; 9],
}

impl<F> Node<F> {
    /// Every field but the microscopic velocities is the same in both nodes.
    pub open spec fn same_except_vel(&self, other: &Node<F>) -> bool {
        &&& self.macro_vel == other.macro_vel
        &&& self.micro_den == other.micro_den
        &&& self.macro_den == other.macro_den
        &&& self.eq_dist == other.eq_dist
    }
}

} // verus!
