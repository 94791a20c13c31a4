//! The sink's decisions: the name of the output file, and what the user is
//! told once the file was written or could not be. Creating and writing
//! the file is left to the caller.

use crate::types::OutputFormat;
use vstd::prelude::*;
use vstd::string::*;

verus! {

/// The step at which writing the output failed.
#[derive(Debug, Clone, Copy, PartialEq, Eq, Structural)]
pub enum WriteStage {
    Create,
    Write,
}

/// Why the output could not be written.
#[derive(Debug, Clone)]
pub struct WriteFailure {
    pub stage: WriteStage,
    pub cause: String,
}

/// The extension of the output file for `format`.
pub open spec fn extension_text(format: OutputFormat) -> Seq<char> {
    match format {
        OutputFormat::Json => "json"@,
        OutputFormat::Text => "txt"@,
        OutputFormat::Xml => "xml"@,
        OutputFormat::Yaml => "yaml"@,
        OutputFormat::Csv => "csv"@,
    }
}

/// The name of the output file for `format`.
pub open spec fn output_name(format: OutputFormat) -> Seq<char> {
    "crunched."@ + extension_text(format)
}

/// The message for an output that could not be written.
pub open spec fn write_error_message(failure: WriteFailure) -> Seq<char> {
    match failure.stage {
        WriteStage::Create => "Failed to create output file: "@ + failure.cause@,
        WriteStage::Write => "Failed to write output: "@ + failure.cause@,
    }
}

/// Names the output file and reports on writing it.
pub struct OutputWriter;

impl OutputWriter {
    /// A writer. It holds nothing.
    pub fn new() -> (r: OutputWriter) {
        OutputWriter
    }

    /// The name of the file that holds a document in `format`: `crunched`,
    /// a dot and the format's extension.
    pub fn file_name(&self, format: &OutputFormat) -> (r: String)
        ensures
            r@ == output_name(*format),
    {
        String::from_str("crunched.").concat(format.extension())
    }

    /// Concludes the writing of the output, which the caller has carried
    /// out on the file that `file_name` gives: where it went through, the
    /// name of that file; else an error that says which step failed and
    /// why.
    pub fn write(&self, format: &OutputFormat, outcome: Result<(), WriteFailure>) -> (r: Result<
        String,
        String,
    >)
        ensures
            match outcome {
                Ok(_) => r is Ok && r->Ok_0@ == output_name(*format),
                Err(failure) => r is Err && r->Err_0@ == write_error_message(failure),
            },
    {
        match outcome {
            Ok(_) => Ok(self.file_name(format)),
            Err(failure) => {
                let start = match failure.stage {
                    WriteStage::Create => "Failed to create output file: ",
                    WriteStage::Write => "Failed to write output: ",
                };
                Err(String::from_str(start).concat(failure.cause.as_str()))
            },
        }
    }
}

} // verus!
