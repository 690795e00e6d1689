use vstd::prelude::*;

verus! {

/// What went wrong: an outside failure (reading, parsing, spawning), an import
/// that cannot be resolved, or a task that cannot be built or found.
pub enum Error {
    Std(String),
    Import(String),
    Command(String),
}

impl Error {
    /// The message with its tag, `[Import] ...`, `[Command] ...` or `[Std] ...`.
    pub fn message(&self) -> (r: String)
        ensures
            r@ == match self {
                Error::Std(s) => seq!['[', 'S', 't', 'd', ']', ' '] + s@,
                Error::Import(s) => seq!['[', 'I', 'm', 'p', 'o', 'r', 't', ']', ' '] + s@,
                Error::Command(s) => seq!['[', 'C', 'o', 'm', 'm', 'a', 'n', 'd', ']', ' '] + s@,
            },
    {
        proof {
            reveal_strlit("[Std] ");
            reveal_strlit("[Import] ");
            reveal_strlit("[Command] ");
        }
        let (mut out, s) = match self {
            Error::Std(s) => (String::from_str("[Std] "), s),
            Error::Import(s) => (String::from_str("[Import] "), s),
            Error::Command(s) => (String::from_str("[Command] "), s),
        };
        out.append(s.as_str());
        out
    }
}

} // verus!
