//! Structural core of a plan-based differentiation library: validated
//! wiring of numerical operators, deterministic execution order, conservative
//! dependency tracking, sparse Jacobian structure with column coloring,
//! permutation bookkeeping and the checked sizes of dense solves.

pub mod deps;
pub mod error;
pub mod linalg;
pub mod operator;
pub mod order;
pub mod perm;
pub mod plan;
pub mod reach;
pub mod sizes;
pub mod solve;
pub mod sparse;

pub use error::{check_len, Error};
pub use linalg::{check_lstsq_shapes, check_square_system, LinalgError};
pub use operator::Shape;
pub use order::execution_order;
pub use perm::Perm;
pub use plan::{BuilderView, NodeId, Plan, PlanBuilder, PlanNode, PlanView, Source};
pub use sizes::{check_batch, check_len_product, checked_entries};
pub use solve::{implicit_shape, DenseSolve};
pub use sparse::{color_columns, Sparsity};
