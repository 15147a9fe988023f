//! The outcome of a handler, as an enum of its own.
use vstd::prelude::*;

verus! {

/// What a handler reports back: success or failure, each with a text.
#[must_use]
#[derive(Clone, Debug, PartialEq)]
pub enum Feedback {
    /// The action failed; a nested evaluation is aborted with this message.
    Error(String),
    /// The action succeeded with this output.
    Okay(String),
}

impl View for Feedback {
    type V = Result<Seq<char>, Seq<char>>;

    open spec fn view(&self) -> Result<Seq<char>, Seq<char>> {
        match *self {
            Feedback::Okay(output) => Ok(output@),
            Feedback::Error(message) => Err(message@),
        }
    }
}

impl Default for Feedback {
    fn default() -> (r: Self)
        ensures
            r@ == Ok::<Seq<char>, Seq<char>>(Seq::empty()),
    {
        Feedback::Okay(String::new())
    }
}

impl Feedback {
    /// Moves the output out of a successful feedback.
    pub fn unwrap(self) -> (s: String)
        requires
            self is Okay,
        ensures
            self == Feedback::Okay(s),
    {
        match self {
            Feedback::Okay(string) => string,
            Feedback::Error(err) => err,
        }
    }
}

} // verus!
