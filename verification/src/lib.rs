//! RAHN: deterministic, content-addressed network state with verified
//! transitions, canonical encoding, semantic diff, verification and merge.
pub mod text;
pub mod seqs;
pub mod sorted_map;
pub mod model;
pub mod transition;
pub mod canonical;
pub mod identity;
pub mod diff;
pub mod graph;
pub mod describe;
pub mod constitution;
pub mod invariants;
pub mod merge;
pub mod obs;
pub mod causal;
pub mod sim;
pub mod exec;
pub mod commit;
pub mod history;
pub mod args;
pub mod dist;
pub mod rebuild;
pub mod cli;
pub mod store;
pub mod render;
pub mod flow;
pub mod constitution_text;
