//! Verified core of a Muskingum-Cunge river network router.
pub mod batch;
pub mod channel;
pub mod convergence;
pub mod layout;
pub mod node_run;
pub mod schedule_laws;
pub mod scheduler;
pub mod weights;
