//! Structural core of a nonlinear optimization toolkit: sparsity patterns
//! and their transposes, graph colorings for compressed finite differences,
//! fill-reducing orderings and the symbolic analysis of a sparse `LDL^T`
//! factorization, with the vocabulary of options, outcomes and errors that
//! the solvers share.
use vstd::prelude::*;

pub mod coloring;
mod counting;
pub mod detect;
pub mod error;
pub mod fd;
pub mod frontend;
pub mod filter;
pub mod kkt;
pub mod ldlt;
pub mod names;
pub mod options;
pub mod ordering;
pub mod perm;
pub mod problem;
pub mod qp;
pub mod result;
mod sort;
pub mod sparsity;
pub mod sqp;
mod text;

pub use coloring::{distance1_coloring, star_coloring, verify_coloring, Coloring};
pub use detect::Detected;
pub use error::{EvalError, SolveError};
pub use fd::{parallel_is_safe, FiniteDifferences};
pub use frontend::{
    check_derivatives_from_flag, exit_flags, lower_triangle, parse_algorithm, parse_barrier, parse_check_derivatives, parse_constraint_type,
    parse_finite_diff, parse_pivot_signs, parse_quadratic_build, parse_quadratic_rows, parse_saddle_step, parse_scale_variables,
    parse_scaling, parse_zero_step, quadratic_rows_from_flag, scale_variables_from_flag,
};
pub use filter::Acceptance;
pub use kkt::{transpose_with_map, KktSystem, ValueMap};
pub use ldlt::{Inertia, LdltError, Symbolic};
pub use options::{
    Algorithm, BarrierUpdate, DerivativeCheck, FdType, HessianMode, PivotSigns, QuadraticBuild, QuadraticRows,
    RegularizationMode, SaddleStep, ScalingMode, VariableScaling, ZeroStep,
};
pub use options::effective_max_iterations;
pub use ordering::{compute_ordering, invert, PivotOrder};
pub use problem::{Capabilities, EvalCounters, NlpDims};
pub use result::{ExitFlag, Limit, Timings};
pub use sparsity::{ColoringKind, Sparsity, SparsityView};
