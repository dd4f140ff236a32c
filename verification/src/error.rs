use vstd::prelude::*;

verus! {

/// An error raised by any stage of the interpreter pipeline. The message is
/// the user-visible description of the failure.
#[derive(Debug)]
pub struct InterpretError {
    pub message: String,
}

impl InterpretError {
    /// Build an error from a fixed message.
    pub fn msg(m: &str) -> (r: InterpretError)
        ensures
            r.message@ == m@,
    {
        InterpretError { message: m.to_owned() }
    }

    /// Build an error from an already-assembled message.
    pub fn from_string(m: String) -> (r: InterpretError)
        ensures
            r.message@ == m@,
    {
        InterpretError { message: m }
    }

    /// The user-visible description of this error.
    pub fn message(&self) -> (r: &str)
        ensures
            r@ == self.message@,
    {
        self.message.as_str()
    }
}

pub type InterpreteResult<T> = Result<T, InterpretError>;

pub type InterpreTestResult = InterpreteResult<()>;

} // verus!
