//! The command line: a path and a format selector.

use crate::types::{resolve_alias, unknown_format_message, OutputFormat};
use vstd::prelude::*;
use vstd::string::*;

verus! {

/// What the command line asks for.
pub struct Args {
    pub path: String,
    pub format: OutputFormat,
}

impl Args {
    /// Reads the arguments of a run, the program's name first: the path is
    /// the second, the format selector the third. Fewer than three are an
    /// error, and so is a selector that names no format.
    pub fn parse(args: &[String]) -> (r: Result<Args, String>)
        ensures
            args@.len() < 3 ==> r is Err && r->Err_0@ == "Missing required arguments"@,
            args@.len() >= 3 ==> match resolve_alias(args@[2]@) {
                Some(format) => r is Ok && r->Ok_0.path@ == args@[1]@ && r->Ok_0.format == format,
                None => r is Err && r->Err_0@ == unknown_format_message(args@[2]@),
            },
    {
        if args.len() < 3 {
            return Err(String::from_str("Missing required arguments"));
        }
        match OutputFormat::from_str(args[2].as_str()) {
            Ok(format) => Ok(Args { path: args[1].clone(), format }),
            Err(message) => Err(message),
        }
    }
}

} // verus!
