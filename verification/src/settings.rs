//! How the compiler is set up, and what a source of Raven code offers.
use vstd::prelude::*;

use crate::text::{lowercase, str_eq, unicode_lowercase};
use crate::tokens::Token;

verus! {

/// Arguments used when configuring the compiler
#[derive(Clone, Debug, Default)]
pub struct CompilerArguments {
    /// Which compiler to use, defaults to LLVM
    pub compiler: String,
    /// Target method to return as the main method, usually main::main or (name)::test
    pub target: String,
    /// The temp folder to use while compiling
    pub temp_folder: String,
}

/// Settings used in configuring the runner
#[derive(Clone, Debug)]
pub struct RunnerSettings {
    /// Arguments for the compiler
    pub compiler_arguments: CompilerArguments,
}

/// Whether a compiler name, once lowercased, names a compiler this runner knows.
pub open spec fn known_compiler(compiler: Seq<char>) -> bool {
    unicode_lowercase(compiler) == "llvm"@
}

impl RunnerSettings {
    /// Whether to include references: LLVM, the one compiler known, requires them
    pub fn include_references(&self) -> (r: bool)
        requires
            known_compiler(self.compiler_arguments.compiler@),
        ensures
            r,
    {
        let name = lowercase(self.compiler_arguments.compiler.as_str());
        str_eq(name.as_str(), "llvm")
    }

    /// Whether to include references, or `None` for a compiler that is not known
    pub fn checked_include_references(&self) -> (r: Option<bool>)
        ensures
            r == (if known_compiler(self.compiler_arguments.compiler@) {
                Some(true)
            } else {
                None::<bool>
            }),
    {
        let name = lowercase(self.compiler_arguments.compiler.as_str());
        if str_eq(name.as_str(), "llvm") {
            Some(self.include_references())
        } else {
            None
        }
    }
}

/// A readable source of Raven code
pub trait Readable: Send {
    /// Reads the readable to a list of tokens
    fn read(&self) -> Vec<Token>;

    /// Gets the file's contents
    fn contents(&self) -> String;

    /// Gets the path of the readable
    fn path(&self) -> String;

    /// A hash that identifies the readable
    fn hash(&self) -> u64;
}

} // verus!
