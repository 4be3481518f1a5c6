//! A dependency-resolution engine for conda-style packages.
//!
//! A [`Pool`] interns strings, version-build pairs and dependency
//! expressions into small identifiers and owns the repositories of package
//! records. Requests are collected in a [`Queue`]. A [`Solver`] looks for a
//! consistent set of packages that carries the requests out, and a
//! [`Transaction`] says what has to be done, and in which order, to turn the
//! installed packages into that set.
//!
//! Names, versions and match specifications are parsed by
//! `rattler_conda_types`; the module [`conda_types`] states what the library
//! takes from it without proof. Everything else is proved: that interning is
//! idempotent, that the solver returns a consistent installation whenever
//! there is one and fails only where there is none, that a transaction
//! misses no package and handles a package after the packages it requires,
//! and that all of this depends on nothing but the packages and the
//! requests.

pub mod conda_types;
pub mod create_env;
pub mod determinism;
pub mod directories;
pub mod error;
pub mod match_spec;
pub mod order;
pub mod package_record;
pub mod paths_json;
pub mod pool;
pub mod queue;
pub mod record;
pub mod repo;
pub mod search;
pub mod solver;
pub mod transaction;
pub mod version_order;

pub use match_spec::MatchSpec;
pub use pool::{Intern, Pool, Verbosity};
pub use queue::Queue;
pub use record::PackageRecord;
pub use repo::Repo;
pub use solver::{Solver, SOLVER_INSTALL, SOLVER_SOLVABLE_PROVIDES, SOLVER_UPDATE};
pub use transaction::{InstallOperation, Transaction};
