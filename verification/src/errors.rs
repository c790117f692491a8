//! Verdicts other than acceptance.

use vstd::prelude::*;

verus! {

/// Why a judgement did not come out.
#[derive(Debug)]
pub enum TcError {
    /// The input is wrong.
    Reject(String),
    /// The checker gives up without a verdict.
    Decline(String),
    /// The input has a shape that should not arise.
    Other(String),
}

/// The mathematical reading of a [`TcError`].
pub enum Fault {
    Reject(Seq<char>),
    Decline(Seq<char>),
    Other(Seq<char>),
}

pub type R<T> = Result<T, TcError>;

impl View for TcError {
    type V = Fault;

    open spec fn view(&self) -> Fault {
        match self {
            TcError::Reject(m) => Fault::Reject(m@),
            TcError::Decline(m) => Fault::Decline(m@),
            TcError::Other(m) => Fault::Other(m@),
        }
    }
}

/// The mathematical reading of a fallible result.
pub open spec fn res<T: DeepView>(r: R<T>) -> Result<T::V, Fault> {
    match r {
        Ok(v) => Ok(v.deep_view()),
        Err(e) => Err(e@),
    }
}

/// Refuses the input for the given reason.
pub fn reject<T>(msg: &str) -> (r: R<T>)
    ensures
        r matches Err(e) && e@ == Fault::Reject(msg@),
{
    Err(TcError::Reject(msg.to_owned()))
}

/// Gives up for the given reason.
pub fn decline<T>(msg: &str) -> (r: R<T>)
    ensures
        r matches Err(e) && e@ == Fault::Decline(msg@),
{
    Err(TcError::Decline(msg.to_owned()))
}

/// Reports a malformed input for the given reason.
pub fn other<T>(msg: &str) -> (r: R<T>)
    ensures
        r matches Err(e) && e@ == Fault::Other(msg@),
{
    Err(TcError::Other(msg.to_owned()))
}

} // verus!
