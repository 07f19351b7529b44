//! The library's error: a message.
use vstd::prelude::*;

verus! {

/// `anyhow::Error`, carried through until its message is taken.
#[verifier::external_type_specification]
#[verifier::external_body]
pub struct ExAnyhowError(anyhow::Error);

/// An error, told by its message.
#[derive(Debug)]
pub struct ToolError {
    pub message: String,
}

impl ToolError {
    /// The error with the given message.
    pub fn new(message: String) -> (r: ToolError)
        ensures
            r.message@ == message@,
    {
        ToolError { message }
    }
}

/// The texts of an `anyhow::Error` and of its causes, outermost first.
pub uninterp spec fn chain_texts(e: anyhow::Error) -> Seq<Seq<char>>;

/// Each text behind the one before, a colon and a space between them.
pub open spec fn joined(parts: Seq<Seq<char>>) -> Seq<char>
    decreases parts.len(),
{
    if parts.len() == 0 {
        seq![]
    } else if parts.len() == 1 {
        parts[0]
    } else {
        joined(parts.drop_last()) + ": "@ + parts.last()
    }
}

/// Prints an `anyhow::Error` with the alternate form of its `Display`: the text of the error,
/// then that of each cause behind a colon and a space. The texts themselves belong to the
/// errors in the chain and are left to the name [`chain_texts`].
#[verifier::external_body]
fn print_chain(e: &anyhow::Error) -> (r: String)
    ensures
        r@ == joined(chain_texts(*e)),
{
    format!("{e:#}")
}

/// Turns an `anyhow::Error` into the library's error; the message tells the whole chain.
pub fn anyhow_to_err(e: anyhow::Error) -> (r: ToolError)
    ensures
        r.message@ == joined(chain_texts(e)),
{
    ToolError::new(print_chain(&e))
}

/// The message of a chain starts with that of the outermost error, and each further cause
/// follows behind a colon and a space.
pub proof fn law_joined(parts: Seq<Seq<char>>, cause: Seq<char>)
    ensures
        joined(seq![cause]) == cause,
        parts.len() > 0 ==> joined(parts.push(cause)) == joined(parts) + ": "@ + cause,
{
    assert(parts.push(cause).drop_last() == parts);
}

} // verus!
