//! The configuration of one compilation.

use vstd::prelude::*;

verus! {

/// What a compilation is asked to do, as given on the command line.
#[derive(Debug, Clone)]
pub struct Cli {
    /// Path to the file with the source code.
    pub source: Option<String>,
    /// Path to the output file.
    pub output: Option<String>,
    /// Target to compile for.
    pub target: Option<String>,
    /// Features to enable, or `native` for those of this machine.
    pub features: Option<String>,
    /// Run the program instead of writing an artifact.
    pub run: bool,
    /// The kind of artifact to write.
    pub emit: Emit,
    /// Run the optimization passes.
    pub optimize: bool,
}

/// The kind of artifact that a compilation writes.
#[derive(Debug, Clone, Copy, PartialEq, Eq, Hash, Default, Structural)]
pub enum Emit {
    /// Relocatable object code.
    #[default]
    Object,
    /// The intermediate representation as text.
    LLVMIr,
    /// Assembly text.
    Assembly,
}

/// What becomes of a compiled program.
#[derive(Debug, Clone, Copy, PartialEq, Eq, Structural)]
pub enum Delivery {
    /// It is executed in this process.
    Run,
    /// It is written out as an artifact of the given kind.
    Write(Emit),
}

impl Emit {
    /// The file name extension of an artifact of this kind.
    pub open spec fn extension_spec(self) -> Seq<char> {
        match self {
            Emit::Object => "o"@,
            Emit::LLVMIr => "ll"@,
            Emit::Assembly => "as"@,
        }
    }

    /// The file name extension of an artifact of this kind.
    pub fn extension(&self) -> (extension: &'static str)
        ensures
            extension@ == self.extension_spec(),
    {
        match self {
            Emit::Object => "o",
            Emit::LLVMIr => "ll",
            Emit::Assembly => "as",
        }
    }
}

impl Cli {
    /// What becomes of the compiled program: it is run where that is asked
    /// for, whatever kind of artifact is named, and written out otherwise.
    pub open spec fn delivery_spec(&self) -> Delivery {
        if self.run {
            Delivery::Run
        } else {
            Delivery::Write(self.emit)
        }
    }

    /// What becomes of the compiled program.
    pub fn delivery(&self) -> (delivery: Delivery)
        ensures
            delivery == self.delivery_spec(),
    {
        if self.run {
            Delivery::Run
        } else {
            Delivery::Write(self.emit)
        }
    }
}

} // verus!
