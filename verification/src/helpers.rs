//! Messages, paths and the search for the declaration line.

use crate::errors::ERR_FILE_NOT_FOUND;
use crate::errors::ERR_NOT_PLIST_FILE;
use crate::errors::ERR_NOT_XML_FILE;
use crate::errors::ERR_UNKNOWN_FILE;
use crate::errors::EXAMPLES;
use crate::errors::USAGE;
use crate::lines::find_line;
use crate::lines::first_containing;
use crate::lines::lines;
use vstd::prelude::*;
use vstd::string::StringSliceAdditionalSpecFns;
use vstd::utf8::*;

verus! {

/// The expected XML file extension.
pub const XML_EXT: &'static str = "xml";

/// The expected property list file extension.
pub const PLIST_EXT: &'static str = "plist";

/// The name of the `which` executable.
pub const WHICH_EXECUTABLE_NAME: &'static str = "which";

/// The name of the `xmlformat` executable.
pub const XMLFORMAT_EXECUTABLE_NAME: &'static str = "xmlformat";

/// The option that makes `xmlformat` write its result over the file it read.
pub const XMLFORMAT_OVERWRITE: &'static str = "--overwrite";

/// What stands for a path that cannot be shown.
pub const UNKNOWN_PATH_STR: &'static str = "[unknown path]";

/// What separates the parts of a failure message.
pub const BLANK_LINE: &'static str = "\n\n";

/// The `DOCTYPE` tag which is expected in `.plist` files.
pub const DOCTYPE_TAG: &'static str = "DOCTYPE";

/// The declaration of a document: the first of its lines that contains the
/// `DOCTYPE` tag.
pub open spec fn doctype_line(text: Seq<u8>) -> Option<Seq<u8>> {
    first_containing(lines(text), DOCTYPE_TAG.spec_bytes())
}

/// Whether two texts hold the same characters.
pub fn same_text(left: &str, right: &str) -> (same: bool)
    ensures
        same == (left@ == right@),
{
    let a = left.as_bytes();
    let b = right.as_bytes();
    proof {
        encode_utf8_decode_utf8(left@);
        encode_utf8_decode_utf8(right@);
    }
    if a.len() != b.len() {
        return false;
    }
    let mut i: usize = 0;
    while i < a.len()
        invariant
            i <= a.len(),
            a.len() == b.len(),
            a@ == encode_utf8(left@),
            b@ == encode_utf8(right@),
            forall|j: int| 0 <= j < i ==> a@[j] == b@[j],
        decreases a.len() - i,
    {
        if a[i] != b[i] {
            assert(a@[i as int] != b@[i as int]);
            return false;
        }
        i += 1;
    }
    assert(a@ =~= b@);
    true
}

/// In well-formed text a character starts directly after each one-byte
/// character.
proof fn lemma_boundary_after_ascii(bytes: Seq<u8>, at: int)
    requires
        valid_utf8(bytes),
        0 <= at < bytes.len(),
        is_leading_byte_width_1(bytes[at]),
    ensures
        is_char_boundary(bytes, at + 1),
    decreases bytes.len(),
{
    reveal_with_fuel(is_char_boundary, 2);
    is_char_boundary_iff_not_is_continuation_byte(bytes, at);
    if at >= length_of_first_scalar(bytes) {
        let rest = pop_first_scalar(bytes);
        let shift = length_of_first_scalar(bytes);
        assert(rest[at - shift] == bytes[at]);
        lemma_boundary_after_ascii(rest, at - shift);
    }
}

/// Attempts to find a line containing the [`DOCTYPE_TAG`] within the provided
/// text, or returns `None` if not found.
pub fn get_doctype_str(text: &str) -> (line: Option<String>)
    ensures
        match line {
            Some(found) => doctype_line(text.spec_bytes()) == Some(encode_utf8(found@)),
            None => doctype_line(text.spec_bytes()) is None,
        },
{
    let bytes = text.as_bytes();
    match find_line(bytes, DOCTYPE_TAG.as_bytes()) {
        None => None,
        Some((start, stop)) => {
            proof {
                encode_utf8_valid_utf8(text@);
                if stop < bytes@.len() {
                    is_char_boundary_iff_not_is_continuation_byte(bytes@, stop as int);
                } else {
                    is_char_boundary_start_end_of_seq(bytes@);
                }
            }
            let (head, _) = text.split_at(stop);
            proof {
                valid_utf8_split(bytes@, stop as int);
                let part = head.spec_bytes();
                if start == 0 || start == stop {
                    is_char_boundary_start_end_of_seq(part);
                } else {
                    lemma_boundary_after_ascii(part, start - 1);
                }
            }
            let (_, found) = head.split_at(start);
            assert(found.spec_bytes() =~= bytes@.subrange(start as int, stop as int));
            Some(found.to_owned())
        },
    }
}

/// Options for formatting error messages sent to the `stderr` stream on
/// failure.
#[derive(Clone, Copy, Debug)]
pub enum FailureFmt {
    /// Only a provided error is printed.
    ErrorOnly,
    /// The provided error and a usage hint is printed.
    WithUsage,
    /// The provided error and an example is printed.
    WithExample,
    /// The provided error and both a usage hint and example is printed.
    WithUsageAndExample,
}

/// The message shown for `error` under `format_type`.
pub open spec fn failure_text(error: Seq<char>, format_type: FailureFmt) -> Seq<char> {
    match format_type {
        FailureFmt::ErrorOnly => error,
        FailureFmt::WithUsage => error + BLANK_LINE@ + USAGE@,
        FailureFmt::WithExample => error + BLANK_LINE@ + EXAMPLES@,
        FailureFmt::WithUsageAndExample => error + BLANK_LINE@ + USAGE@ + BLANK_LINE@ + EXAMPLES@,
    }
}

/// Builds the formatted error message that goes to the `stderr` stream on
/// failure.
pub fn failure(error: &str, format_type: FailureFmt) -> (message: String)
    ensures
        message@ == failure_text(error@, format_type),
{
    let mut s = String::from_str(error);
    match format_type {
        FailureFmt::ErrorOnly => {},
        FailureFmt::WithUsage => {
            s.append(BLANK_LINE);
            s.append(USAGE);
        },
        FailureFmt::WithExample => {
            s.append(BLANK_LINE);
            s.append(EXAMPLES);
        },
        FailureFmt::WithUsageAndExample => {
            s.append(BLANK_LINE);
            s.append(USAGE);
            s.append(BLANK_LINE);
            s.append(EXAMPLES);
        },
    }
    s
}

/// What the file system says of a path.
pub struct PathInfo {
    /// The path as it was given.
    pub path: String,
    /// Whether something is known to exist at the path.
    pub exists: bool,
    /// Whether that is a regular file.
    pub is_file: bool,
    /// The extension of the path's file name, without the dot.
    pub extension: Option<String>,
    /// The absolute form of the path, where there is one.
    pub absolute: Option<String>,
}

impl PathInfo {
    /// How the path is shown in absolute form: as it was given while nothing
    /// exists there, else as the absolute path, or as unknown where there is
    /// none.
    pub open spec fn abs_text(&self) -> Seq<char> {
        if !self.exists {
            self.path@
        } else {
            match self.absolute {
                Some(absolute) => absolute@,
                None => UNKNOWN_PATH_STR@,
            }
        }
    }

    /// How the path is shown in relative form: as it was given, or as unknown
    /// while nothing exists there.
    pub open spec fn rel_text(&self) -> Seq<char> {
        if self.exists {
            self.path@
        } else {
            UNKNOWN_PATH_STR@
        }
    }

    /// The path's extension is `file_ext`.
    pub open spec fn has_extension(&self, file_ext: Seq<char>) -> bool {
        match self.extension {
            Some(extension) => extension@ == file_ext,
            None => false,
        }
    }

    /// Why the path cannot serve as a file with the extension `file_ext`, if it
    /// cannot: nothing is there, what is there is no regular file, or the
    /// extension is another, which `ext_err` says.
    pub open spec fn rejection(&self, file_ext: Seq<char>, ext_err: Seq<char>) -> Option<Seq<char>> {
        if !self.exists {
            Some(ERR_FILE_NOT_FOUND@ + " \""@ + self.abs_text() + "\""@)
        } else if !self.is_file {
            Some(ERR_UNKNOWN_FILE@ + ": \""@ + self.abs_text() + "\""@)
        } else if !self.has_extension(file_ext) {
            Some(ext_err)
        } else {
            None
        }
    }
}

/// Attempts to format a path into an absolute path as a `String`. If this
/// can't be achieved, `"[unknown path]"` is returned.
pub fn fmt_abs_path(path: &PathInfo) -> (text: String)
    ensures
        text@ == path.abs_text(),
{
    if !path.exists {
        return path.path.clone();
    }
    match &path.absolute {
        Some(absolute) => absolute.clone(),
        None => String::from_str(UNKNOWN_PATH_STR),
    }
}

/// Attempts to format a path into a relative path as a `String`. If this
/// can't be achieved, `"[unknown path]"` is returned.
pub fn fmt_rel_path(path: &PathInfo) -> (text: String)
    ensures
        text@ == path.rel_text(),
{
    if !path.exists {
        return String::from_str(UNKNOWN_PATH_STR);
    }
    path.path.clone()
}

/// Tells whether the path can be opened as a `.plist` file, and gives the
/// error message if it cannot.
pub fn into_plist(path: &PathInfo) -> (outcome: Result<(), String>)
    ensures
        match outcome {
            Ok(_) => path.rejection(PLIST_EXT@, ERR_NOT_PLIST_FILE@) is None,
            Err(message) => path.rejection(PLIST_EXT@, ERR_NOT_PLIST_FILE@) == Some(message@),
        },
{
    into_file(path, PLIST_EXT, ERR_NOT_PLIST_FILE)
}

/// Tells whether the path can be opened as a `.xml` file, and gives the error
/// message if it cannot.
pub fn into_xml(path: &PathInfo) -> (outcome: Result<(), String>)
    ensures
        match outcome {
            Ok(_) => path.rejection(XML_EXT@, ERR_NOT_XML_FILE@) is None,
            Err(message) => path.rejection(XML_EXT@, ERR_NOT_XML_FILE@) == Some(message@),
        },
{
    into_file(path, XML_EXT, ERR_NOT_XML_FILE)
}

/// Inner implementation for [`into_plist()`] and [`into_xml()`].
fn into_file(path: &PathInfo, file_ext: &str, ext_err: &str) -> (outcome: Result<(), String>)
    ensures
        match outcome {
            Ok(_) => path.rejection(file_ext@, ext_err@) is None,
            Err(message) => path.rejection(file_ext@, ext_err@) == Some(message@),
        },
{
    if !path.exists {
        let mut message = String::from_str(ERR_FILE_NOT_FOUND);
        message.append(" \"");
        message.append(fmt_abs_path(path).as_str());
        message.append("\"");
        return Err(message);
    }
    if !path.is_file {
        let mut message = String::from_str(ERR_UNKNOWN_FILE);
        message.append(": \"");
        message.append(fmt_abs_path(path).as_str());
        message.append("\"");
        return Err(message);
    }
    match &path.extension {
        None => Err(String::from_str(ext_err)),
        Some(extension) => {
            if same_text(extension.as_str(), file_ext) {
                Ok(())
            } else {
                Err(String::from_str(ext_err))
            }
        },
    }
}

/// One run of an outside program: its name and the arguments it gets.
pub struct Invocation {
    pub program: String,
    pub arguments: Vec<String>,
}

/// How far an attempt to format a file has come.
#[derive(Clone, Copy, Debug)]
pub enum FormatState {
    /// Nothing has been run yet.
    Start,
    /// The formatting tool is being looked for.
    Locating,
    /// The formatting tool is being run.
    Formatting,
}

/// What to do next in an attempt to format a file.
pub enum FormatAction {
    /// Run a program and come back with its success.
    Run(Invocation),
    /// Stop: the file was formatted, or it was not.
    Finish(bool),
}

impl FormatAction {
    /// This action runs `program` with `arguments`.
    pub open spec fn runs(&self, program: Seq<char>, arguments: Seq<Seq<char>>) -> bool {
        match self {
            FormatAction::Run(invocation) => {
                &&& invocation.program@ == program
                &&& invocation.arguments@.len() == arguments.len()
                &&& forall|i: int|
                    0 <= i < arguments.len() ==> (#[trigger] invocation.arguments@[i])@
                        == arguments[i]
            },
            FormatAction::Finish(_) => false,
        }
    }
}

/// One step of an attempt to format the file at `target_path` using the
/// `xmlformat` tool. The attempt starts in [`FormatState::Start`]; each step
/// takes the state that the step before gave and whether the program that it
/// had run succeeded, and gives the next state and what to do. First the tool
/// is looked for with `which`; where it is found it is run on the absolute
/// path; the attempt has succeeded where that run has.
pub fn try_format(state: FormatState, succeeded: bool, target_path: &PathInfo) -> (next: (
    FormatState,
    FormatAction,
))
    ensures
        match state {
            FormatState::Start => {
                &&& next.0 is Locating
                &&& next.1.runs(WHICH_EXECUTABLE_NAME@, seq![XMLFORMAT_EXECUTABLE_NAME@])
            },
            FormatState::Locating => if succeeded {
                &&& next.0 is Formatting
                &&& next.1.runs(
                    XMLFORMAT_EXECUTABLE_NAME@,
                    seq![XMLFORMAT_OVERWRITE@, target_path.abs_text()],
                )
            } else {
                &&& next.0 is Locating
                &&& next.1 == FormatAction::Finish(false)
            },
            FormatState::Formatting => {
                &&& next.0 is Formatting
                &&& next.1 == FormatAction::Finish(succeeded)
            },
        },
{
    match state {
        FormatState::Start => {
            let mut arguments: Vec<String> = Vec::new();
            arguments.push(String::from_str(XMLFORMAT_EXECUTABLE_NAME));
            (
                FormatState::Locating,
                FormatAction::Run(
                    Invocation { program: String::from_str(WHICH_EXECUTABLE_NAME), arguments },
                ),
            )
        },
        FormatState::Locating => {
            if !succeeded {
                return (FormatState::Locating, FormatAction::Finish(false));
            }
            let abs_path = fmt_abs_path(target_path);
            let mut arguments: Vec<String> = Vec::new();
            arguments.push(String::from_str(XMLFORMAT_OVERWRITE));
            arguments.push(abs_path);
            (
                FormatState::Formatting,
                FormatAction::Run(
                    Invocation { program: String::from_str(XMLFORMAT_EXECUTABLE_NAME), arguments },
                ),
            )
        },
        FormatState::Formatting => (FormatState::Formatting, FormatAction::Finish(succeeded)),
    }
}

} // verus!
