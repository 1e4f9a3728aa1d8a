use vstd::prelude::*;

verus! {

/// The kinds of boundary condition.
#[derive(Clone, Copy, Debug, PartialEq, Eq, Structural)]
pub enum BCType {
    Dirichlet,
    Neumann,
    Robin,
    Periodic,
}

/// A boundary condition and its algorithmic parameters. The penalty factor
/// of a Robin condition is kept as the bits of its `f32` value.
#[derive(Clone, Copy, Debug, PartialEq, Eq, Structural)]
pub struct BoundaryCondition {
    pub bc_type: BCType,
    pub penalty_factor_bits: Option<u32>,
}

impl BoundaryCondition {
    /// A Dirichlet condition, without a penalty factor.
    pub fn dirichlet() -> (r: BoundaryCondition)
        ensures
            r.bc_type == BCType::Dirichlet,
            r.penalty_factor_bits is None,
    {
        BoundaryCondition { bc_type: BCType::Dirichlet, penalty_factor_bits: None }
    }
}

} // verus!
