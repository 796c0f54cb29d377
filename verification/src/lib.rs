//! Search for solvent blends that best match the solubility profile of a set
//! of target compounds.
//!
//! Every substance is described by a three-dimensional solubility coordinate.
//! Coordinates are held in fixed point: an `i64` counts units of `1/SCALE` of
//! a solubility parameter, and all distances are reported in the same unit.
//! The library enumerates every pair of solvents, measures how close the
//! continuum of achievable blends of the pair comes to each compound, keeps
//! the best pairs per compound, ranks pairs by how many compounds chose them,
//! and inverts the winning distances back into mixing ratios.

pub mod codec;
pub mod geom;
pub mod math;
pub mod search;
pub mod solver;
pub mod topk;

pub use codec::cantor;
pub use codec::inv_cantor;
pub use geom::Drug;
pub use geom::Solvent;
pub use geom::SolventMix;
pub use geom::Vec3;
pub use geom::distance;
pub use geom::line_segment;
pub use geom::mixture;
pub use geom::standard_dist;
pub use search::FinalSolution;
pub use search::PairStat;
pub use search::SearchError;
pub use search::TopN;
pub use search::aggregate;
pub use search::count_pairs;
pub use search::rank_stats;
pub use search::search_all;
pub use search::search_compound;
pub use search::validate_tables;
pub use solver::SolveError;
pub use solver::mix_solver;
pub use topk::Solution;
pub use topk::TopK;
