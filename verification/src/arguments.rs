//! The arguments of the command.

use crate::errors::CLOSING_QUOTE;
use crate::errors::DONE_INTO;
use crate::errors::DONE_START;
use crate::errors::ERR_NO_ARGS;
use crate::errors::ERR_ONE_ARG;
use crate::errors::ERR_WRITE;
use crate::helpers::fmt_abs_path;
use crate::helpers::PathInfo;
use vstd::prelude::*;

verus! {

/// A type for storing and acting upon command line arguments for the `plinject`
/// command.
pub struct Arguments {
    pub plist: String,
    pub xml: String,
    pub output: Option<String>,
}

impl Arguments {
    /// The arguments that `args` holds. The first entry of `args` is the
    /// command's own name; the destination and the source follow it, and after
    /// them the optional output.
    pub open spec fn holds(&self, args: Seq<String>) -> bool {
        &&& args.len() >= 3
        &&& self.plist@ == args[1]@
        &&& self.xml@ == args[2]@
        &&& match self.output {
            Some(output) => args.len() >= 4 && output@ == args[3]@,
            None => args.len() == 3,
        }
    }

    /// The path that the result is written to: the output where one was given,
    /// else the destination itself.
    pub open spec fn output_path(&self) -> Seq<char> {
        match self.output {
            Some(output) => output@,
            None => self.plist@,
        }
    }

    /// Tries to create a new `Arguments` from the arguments of the process,
    /// the command's own name first, or returns an error message if the
    /// arguments are invalid.
    pub fn from_args(args: &Vec<String>) -> (parsed: Result<Self, String>)
        ensures
            match parsed {
                Ok(arguments) => arguments.holds(args@),
                Err(message) => {
                    &&& args.len() < 3
                    &&& message@ == if args.len() < 2 {
                        ERR_NO_ARGS@
                    } else {
                        ERR_ONE_ARG@
                    }
                },
            },
    {
        if args.len() < 2 {
            return Err(String::from_str(ERR_NO_ARGS));
        }
        if args.len() < 3 {
            return Err(String::from_str(ERR_ONE_ARG));
        }
        Ok(
            Self {
                plist: args[1].clone(),
                xml: args[2].clone(),
                output: if args.len() > 3 {
                    Some(args[3].clone())
                } else {
                    None
                },
            },
        )
    }

    /// Returns the appropriate output path from the current arguments.
    pub fn get_output_path(&self) -> (path: &str)
        ensures
            path@ == self.output_path(),
    {
        match &self.output {
            Some(output) => output.as_str(),
            None => self.plist.as_str(),
        }
    }

    /// Builds the error message for a result that could not be written to the
    /// output path.
    pub fn write_failure(details: &str) -> (message: String)
        ensures
            message@ == ERR_WRITE@ + details@ + CLOSING_QUOTE@,
    {
        let mut message = String::from_str(ERR_WRITE);
        message.append(details);
        message.append(CLOSING_QUOTE);
        message
    }

    /// Builds the success message with the appropriate paths: that of the
    /// injected file and that of the output.
    pub fn success_message(xml: &PathInfo, output: &PathInfo) -> (message: String)
        ensures
            message@ == DONE_START@ + xml.abs_text() + DONE_INTO@ + output.abs_text()
                + CLOSING_QUOTE@,
    {
        let mut message = String::from_str(DONE_START);
        message.append(fmt_abs_path(xml).as_str());
        message.append(DONE_INTO);
        message.append(fmt_abs_path(output).as_str());
        message.append(CLOSING_QUOTE);
        message
    }
}

} // verus!
