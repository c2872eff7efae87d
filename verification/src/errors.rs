//! The texts that the command shows.

use vstd::prelude::*;

verus! {

/// A hint suggesting how to use the command.
pub const USAGE: &'static str =
    "Usage:
  $ plinject [destination .plist file] [source .xml file to inject] [optional output .plist file]

Note: the destination .plist file is overwritten if no output file is provided";

/// Two example usages of the command.
pub const EXAMPLES: &'static str =
    "Examples:
  $ plinject Example.app/Contents/Info.plist injection.xml
  $ plinject source.plist injection.xml output.plist";

/// Info message if a `DOCTYPE` tag is located.
pub const DOCTYPE_INFO: &'static str =
    "Info: located `DOCTYPE` tag in source .plist; copying it to the output";

/// Error message to show if no arguments are provided.
pub const ERR_NO_ARGS: &'static str =
    "Error: received 0 arguments, expected at least 2
Help: a destination and source path are required";

/// Error message to show if only one argument is provided.
pub const ERR_ONE_ARG: &'static str =
    "Error: received 1 argument, expected at least 2
Help: both a destination and source path are required";

/// Error message to show if a file was not able to be located.
pub const ERR_FILE_NOT_FOUND: &'static str = "Error: failed to locate file";

/// Error message to show if a file is invalid (e.g. a directory).
pub const ERR_UNKNOWN_FILE: &'static str = "Error: invalid file provided";

/// Error message to show if the expected `.plist` file has an incorrect
/// extension.
pub const ERR_NOT_PLIST_FILE: &'static str = "Error: first argument is not a .plist file";

/// Error message to show if the expected `.xml` file has an incorrect extension.
pub const ERR_NOT_XML_FILE: &'static str = "Error: second argument is not a .xml file";

/// How the message starts when a token of the source document could not be
/// written.
pub const ERR_COPY_SOURCE: &'static str =
    "Error: failed to copy XML from source file\nDetails: \"";

/// How the message starts when a token of the injected fragment could not be
/// written.
pub const ERR_COPY_INJECTION: &'static str =
    "Error: failed to copy from injection file\nDetails: \"";

/// How the message starts when the declaration line could not be written.
pub const ERR_COPY_DOCTYPE: &'static str =
    "Error: failed to inject DOCTYPE property\nDetails: \"";

/// How the message starts when the result could not be written to its file.
pub const ERR_WRITE: &'static str = "Error: failed to write file\nDetails: \"";

/// What closes the quoted part at the end of a message.
pub const CLOSING_QUOTE: &'static str = "\"";

/// How the success message starts, before the path of the injected file.
pub const DONE_START: &'static str = "Done: injected contents of \"";

/// What stands in the success message between its two paths.
pub const DONE_INTO: &'static str = "\" into \"";

} // verus!
