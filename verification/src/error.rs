use vstd::prelude::*;

verus! {

/// An error returned when a regex pattern fails to compile.
///
/// The error message describes what went wrong (e.g. unclosed group, invalid
/// repetition range). [`Error::to_string`] gives it as a `String`.
#[derive(Clone, Debug)]
pub enum Error {
    Syntax(String),
}

impl View for Error {
    type V = Seq<char>;

    /// The model of an error is its message.
    open spec fn view(&self) -> Seq<char> {
        match self {
            Error::Syntax(m) => m@,
        }
    }
}

impl Error {
    /// Creates a new `Error` with the given message.
    pub fn new(message: &str) -> (r: Self)
        ensures
            r@ == message@,
    {
        Error::Syntax(message.to_owned())
    }

    /// The error message.
    pub fn to_string(&self) -> (r: String)
        ensures
            r@ == self@,
    {
        match self {
            Error::Syntax(m) => m.clone(),
        }
    }
}

impl PartialEq for Error {
    fn eq(&self, other: &Self) -> (r: bool) {
        match (self, other) {
            (Error::Syntax(a), Error::Syntax(b)) => a.eq(b),
        }
    }
}

impl vstd::std_specs::cmp::PartialEqSpecImpl for Error {
    open spec fn obeys_eq_spec() -> bool {
        true
    }

    open spec fn eq_spec(&self, other: &Self) -> bool {
        self@ == other@
    }
}

impl Eq for Error {}

} // verus!
