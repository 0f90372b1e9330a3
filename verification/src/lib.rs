//! Exact solver for the asymmetric traveling-salesperson problem on small
//! instances, using the Held-Karp dynamic program over bitmask-encoded
//! subsets of nodes.
//!
//! `matrix` holds the distance table with its "0 means no edge" decoding;
//! `solver` holds the dynamic program, in a sequential form (`travel`) and
//! in a level-batched form suited to parallel evaluation (`par_travel`);
//! `laws` states and proves what the answers mean: the returned path is a
//! Hamiltonian cycle priced at the returned cost, that cost is minimal,
//! and an answer exists exactly when some tour has all its edges present.

pub mod laws;
pub mod matrix;
pub mod solver;

pub use matrix::DistanceMatrix;
pub use solver::par_travel;
pub use solver::set_to_num;
pub use solver::travel;
