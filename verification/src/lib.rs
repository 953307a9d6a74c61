//! A toolchain for a minimal tape-based esoteric language: a front end that
//! turns source text into a resolved instruction stream, an execution engine
//! for that stream, and code generators that lower it into assembly text for
//! two target machines.

pub mod aarch32_linux;
pub mod arch;
pub mod compiler;
pub mod interpreter;
pub mod parser;
pub mod text;
pub mod x86_64_linux;
