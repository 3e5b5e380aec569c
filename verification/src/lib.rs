//! Σ terms and the LLVM-IR front door that lifts pure f64 functions into them.
pub mod denote;
pub mod emit;
pub mod extract;
pub mod fmt;
pub mod fold;
pub mod gp;
pub mod inplace;
pub mod harness;
pub mod jit;
pub mod lex;
pub mod lift;
pub mod locate;
pub mod memo;
pub mod mutate;
pub mod names;
pub mod optimize;
pub mod pipeline;
pub mod rules;
pub mod scopes;
pub mod sigma;
pub mod syntax;
pub mod term;
pub mod text;
pub mod trial;
