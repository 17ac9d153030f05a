//! Succinct proofs that a committed integer program was executed.
pub mod acceptance;
pub mod batch_openings;
pub mod batch_soundness;
pub mod channel;
pub mod circuit;
pub mod claims;
pub mod compiler;
pub mod convinced;
pub mod determined;
pub mod execution;
pub mod field;
pub mod gates;
pub mod group;
pub mod inference;
pub mod instruction;
pub mod interpolation;
pub mod kzg;
pub mod logup;
pub mod matrices;
pub mod matrix_soundness;
pub mod merkle_tree;
pub mod multiplicities;
pub mod opened;
pub mod openings;
pub mod oracle;
pub mod poly;
pub mod preprocess;
pub mod products;
pub mod program;
pub mod program_laws;
pub mod prover;
pub mod radix2group;
pub mod randomized;
pub mod reading;
pub mod refusal;
pub mod registration;
pub mod replay;
pub mod shapes;
pub mod soundness;
pub mod sparse;
pub mod sparse_laws;
pub mod sparse_prover;
pub mod sparse_soundness;
pub mod sparse_verifier;
pub mod speaker;
pub mod sumcheck;
pub mod sums;
pub mod text;
pub mod transforms;
pub mod units;
pub mod util;
pub mod verify;
