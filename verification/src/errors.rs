use vstd::prelude::*;

verus! {

/// Errors raised by the navigation core. I/O and terminal failures are the
/// caller's concern; the core itself only ever reports resolution failures.
#[derive(Debug)]
pub enum AppError {
    /// A dynamically built message.
    Str(String),
    /// A fixed message.
    StatStr(&'static str),
}

impl AppError {
    /// The error text, for callers that need to show it.
    pub fn message(&self) -> (r: String)
        ensures
            r@ == self.text(),
    {
        match self {
            AppError::Str(s) => s.clone(),
            AppError::StatStr(s) => String::from_str(s),
        }
    }

    /// What `message` returns for each variant.
    pub open spec fn text(&self) -> Seq<char> {
        match self {
            AppError::Str(s) => s@,
            AppError::StatStr(s) => s@,
        }
    }
}

} // verus!
