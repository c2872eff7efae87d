//! Splices a fragment of markup into a property-list document.
//!
//! The source document is read token by token and written out again through
//! a serializer that indents it. On the way two things are put in: directly
//! after the start of the document the declaration line of the source, which
//! the reader drops and which is therefore taken over from the source text as
//! it is; and directly before the first closing tag of a `dict` element the
//! tokens of the fragment. All of it happens in a buffer in memory, so that a
//! failure leaves no half-written file behind.
//!
//! The modules:
//!
//! - [`reader`] and [`writer`] hold the tokens and what is stated of the `xml`
//!   crate, which parses and serializes;
//! - [`plan`] says which steps an injection consists of, and [`laws`] proves
//!   what holds of every plan;
//! - [`injector`] carries the steps out;
//! - [`lines`] and [`helpers`] find the declaration line, check the files and
//!   build the messages, [`arguments`] reads the command line, and [`errors`]
//!   holds the texts.

pub mod arguments;
pub mod errors;
pub mod helpers;
pub mod injector;
pub mod laws;
pub mod lines;
pub mod plan;
pub mod reader;
pub mod writer;
