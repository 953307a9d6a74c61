//! The closed set of supported target architectures, their externally
//! visible names, and the single dispatch point from a target tag to its
//! code generator.

use crate::parser::Token;
use crate::text::str_eq;
use vstd::prelude::*;

verus! {

/// A supported target machine.
#[derive(Debug, Clone, Copy, PartialEq, Eq, Structural)]
pub enum Target {
    Aarch32Linux,
    X86_64Linux,
}

/// The externally visible name of each target.
pub open spec fn target_name(t: Target) -> Seq<char> {
    match t {
        Target::Aarch32Linux => "aarch32-linux"@,
        Target::X86_64Linux => "x86_64-linux"@,
    }
}

impl Target {
    /// The name this target is selected by.
    pub fn name(&self) -> (r: &'static str)
        ensures
            r@ == target_name(*self),
    {
        match self {
            Target::Aarch32Linux => "aarch32-linux",
            Target::X86_64Linux => "x86_64-linux",
        }
    }

    /// Looks a target up by its name; `None` exactly when the name is not a
    /// recognized architecture.
    pub fn from_name(name: &str) -> (r: Option<Target>)
        ensures
            match r {
                Some(t) => name@ == target_name(t),
                None => forall|t: Target| name@ != target_name(t),
            },
    {
        if str_eq(name, "aarch32-linux") {
            Some(Target::Aarch32Linux)
        } else if str_eq(name, "x86_64-linux") {
            Some(Target::X86_64Linux)
        } else {
            assert forall|t: Target| name@ != target_name(t) by {}
            None
        }
    }

    /// The single dispatch point: hands the stream to this target's code
    /// generator.
    pub fn codegen(&self, program: &Vec<Token>, memory: usize) -> (out: String)
        ensures
            match *self {
                Target::Aarch32Linux => out@ == crate::aarch32_linux::asm_text(
                    program@,
                    memory as int,
                ),
                Target::X86_64Linux => out@ == crate::x86_64_linux::asm_text(
                    program@,
                    memory as int,
                ),
            },
    {
        match self {
            Target::Aarch32Linux => crate::aarch32_linux::codegen(program, memory),
            Target::X86_64Linux => crate::x86_64_linux::codegen(program, memory),
        }
    }
}

} // verus!
