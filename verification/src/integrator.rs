use vstd::prelude::*;

verus! {

/// The numerical scheme used to advance a Hamiltonian system by one step.
#[derive(Debug, Clone, Copy, PartialEq, Eq, Structural)]
pub enum IntegrationMethod {
    /// Forward Euler (non-symplectic baseline).
    Euler,
    /// Velocity Verlet (symplectic, 2nd order).
    Verlet,
    /// Störmer-Verlet / leapfrog (symplectic, 2nd order).
    StormerVerlet,
}

} // verus!
