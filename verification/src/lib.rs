//! Object-centric process mining over OCEL 2.0 event logs, verified.
pub mod keysort;
pub mod text;
pub mod count;
pub mod log;
pub mod trace;
pub mod variants;
pub mod noise;
pub mod model;
pub mod inductive;
pub mod replay;
pub mod closure;
pub mod powl;
pub mod powl_replay;
pub mod alpha;
pub mod petri;
pub mod net_replay;
pub mod precision;
pub mod spread;
pub mod dfg;
pub mod oc_dfg;
pub mod metrics;
pub mod stats;
pub mod cases;
pub mod heuristics;
pub mod partial_order;
pub mod cuts;
pub mod miner;
pub mod powl_miner;
