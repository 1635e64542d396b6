use vstd::prelude::*;

verus! {

/// What a fallible codec operation can report: a token that fails its type's
/// validation rules, or untrusted input whose length, offset or length word
/// does not fit the buffer.
#[derive(Debug, PartialEq, Eq)]
pub enum Error {
    TypeCheckFail { ty_name: String, token: String },
    Overrun,
}

} // verus!
