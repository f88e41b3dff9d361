//! Exact input-output analysis for a multi-sector economy.
//!
//! The engine derives technical and allocation coefficient matrices from a
//! transactions table, inverts the Leontief and Ghosh matrices, and builds
//! linkage, multiplier, extraction and field-of-influence analyses on top of
//! those inverses. All arithmetic is exact rational arithmetic, so every
//! result carries a machine-checked contract relating it to the mathematical
//! definition of the statistic it implements.

mod error;
mod extraction;
mod ghosh;
mod influence;
mod leontief;
mod linkages;
mod matrix;
mod multipliers;
mod parallel;
mod rational;
mod solve;

pub use error::FioError;
pub use extraction::compute_extraction_backward;
pub use extraction::compute_extraction_forward;
pub use extraction::compute_extraction_total;
pub use ghosh::compute_allocation_coeff;
pub use ghosh::compute_ghosh_inverse;
pub use influence::compute_field_influence;
pub use leontief::compute_leontief_inverse;
pub use leontief::compute_tech_coeff;
pub use linkages::compute_leontief_inverse_average;
pub use linkages::compute_row_average;
pub use linkages::compute_col_average;
pub use linkages::compute_sensitivity_dispersion;
pub use linkages::compute_power_dispersion;
pub use linkages::compute_power_dispersion_cv_squared;
pub use linkages::compute_sensitivity_dispersion_cv_squared;
pub use matrix::Matrix;
pub use multipliers::compute_multiplier_output;
pub use multipliers::compute_multiplier_output_direct;
pub use multipliers::compute_multiplier_output_indirect;
pub use multipliers::compute_requirements_value_added;
pub use multipliers::compute_generator_value_added;
pub use multipliers::compute_multiplier_value_added;
pub use multipliers::compute_multiplier_value_added_indirect;
pub use multipliers::lemma_output_multiplier_decomposition;
pub use matrix::vec_sum;
pub use parallel::PoolState;
pub use parallel::PoolStatus;
pub use parallel::get_parallelism_settings;
pub use parallel::set_max_threads;
pub use rational::Rat;
pub use solve::mat_inverse;
