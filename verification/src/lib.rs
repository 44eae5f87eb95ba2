//! NTRU-style encryption over the group algebras of finite groups.
//!
//! Classical NTRU works in `Z[x] / (x^N - 1)`, which is the group algebra
//! `Z[C_N]`. This crate replaces the cyclic group by an explicit finite group
//! and runs the same left-sided NTRU-style construction over `Z[G]`.
pub mod algebra;
pub mod arith;
pub mod cyclic;
pub mod dihedral;
pub mod error;
pub mod fermat;
pub mod fft;
pub mod folding;
pub mod group;
pub mod linalg;
pub mod perm;
pub mod prime;
pub mod rng;
pub mod scheme;
pub mod stats;
pub mod text;

pub use arith::{add_mod, center_lift, center_lift_vector, gcd, inv_mod, mul_mod, pow_mod, signed_to_mod, sub_mod};
pub use cyclic::{cyclic_convolution_mod, cyclic_involution, cyclic_inverse_mod, dihedral_inverse_via_cyclic};
pub use error::NtruError;
pub use group::{FiniteGroup, GroupKind};
pub use linalg::solve_modular_linear_system;
pub use prime::is_prime;
pub use rng::Lcg;
pub use scheme::{
    verify_cyclic_group_algebra_model, GroupAlgebraNtru, PrivateKey, TrialResult, TrialSummary,
};
pub use stats::{Backend, BackendStats, CounterMap};
