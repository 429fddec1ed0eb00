//! The faults that can end a prompt cycle.

use vstd::prelude::*;

verus! {

/// A fault of the line editor: the terminal could not be read or written, or
/// the typed bytes were not valid UTF-8.
#[derive(Clone, Copy, Debug, PartialEq, Eq)]
pub enum Error {
    IoError,
    Utf8Error,
}

} // verus!
