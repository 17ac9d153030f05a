//! Certificates that a committed circuit is the compilation of a program.
pub mod accepted;
pub mod agreement;
pub mod args;
pub mod args_laws;
pub mod args_soundness;
pub mod binding;
pub mod bound;
pub mod bound_linear;
pub mod bound_reads;
pub mod cells;
pub mod certificate;
pub mod checked;
pub mod columns;
pub mod compiled;
pub mod compiled_laws;
pub mod conforming;
pub mod encode;
pub mod equal_laws;
pub mod expansion_laws;
pub mod family;
pub mod family_entries;
pub mod family_laws;
pub mod found;
pub mod instr_families;
pub mod kept;
pub mod matrix_laws;
pub mod opened_claims;
pub mod profile_laws;
pub mod registrar;
pub mod relation;
pub mod row_counts;
pub mod shown;
pub mod slacks;
pub mod tallies;
pub mod wellformed;
pub mod witness;
pub mod zero_laws;

pub use encode::{Deltas, Opcode, ProgramEncoding, RuleViolation, check_compilation};
pub use registrar::{Registrar, RegistrationError, RegistrationKey};
pub use witness::{ProgramCommits, ProgramWitness, RegistrationProfile};
