//! The table of hash rows that commits to a set of codewords, and the claims proved of it.
pub mod air;
pub mod air_session;
pub mod batch;
pub mod binding;
pub mod builder;
pub mod claims;
pub mod coefficients;
pub mod commit;
pub mod completeness;
pub mod constraints;
pub mod degree;
pub mod detection;
pub mod digests;
pub mod encoding;
pub mod exchange;
pub mod extraction;
pub mod final_check;
pub mod hash_table;
pub mod hom;
pub mod honest;
pub mod layout;
pub mod linear_session;
pub mod links;
pub mod order;
pub mod parity;
pub mod positions;
pub mod protocol;
pub mod prover;
pub mod raw_poly;
pub mod recovery;
pub mod refusal;
pub mod rounds;
pub mod run;
pub mod satisfaction;
pub mod schedule;
pub mod shape;
pub mod soundness;
pub mod sparse;
pub mod totals;
pub mod weights;
pub mod wiring;
