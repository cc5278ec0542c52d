//! GUARD-to-mask compiler: parses GUARD safety constraints, solves them as a
//! ternary constraint satisfaction problem, compiles them to FLUX bytecode and
//! lays the solution out as GDSII via patterns.

pub mod compiler;
pub mod domain;
pub mod number;
pub mod numeral;
pub mod op;
pub mod parser;
pub mod scan;
pub mod solver;
pub mod text;
pub mod types;
pub mod via_gen;

pub use compiler::{compile, CompiledProgram};
pub use number::Number;
pub use parser::{extract_constraints, parse_guard, Check, Constraint, GuardItem, ParseError, Priority};
pub use solver::{solve, verify_all_binary};
pub use types::{
    format_gdsii_summary, generate_gdsii, Assignment, CSPConstraint, GDSIIOutput, NameMap,
    TernaryWeight, ViaPattern, CSP,
};
pub use via_gen::{generate_gdsii_file, generate_patterns, generate_patterns_with_size};
