//! A candidate of a poll.

use std::rc::Rc;
use vstd::prelude::*;

verus! {

/// A candidate, known by name. Two candidates are the same when their names are.
pub struct Candidate {
    pub name: String,
}

impl View for Candidate {
    type V = Seq<char>;

    /// A candidate is modelled by the characters of its name.
    open spec fn view(&self) -> Seq<char> {
        self.name@
    }
}

impl Candidate {
    /// Creates the candidate called `name`.
    pub fn new(name: &str) -> (candidate: Candidate)
        ensures
            candidate@ == name@,
    {
        Candidate { name: name.to_owned() }
    }
}

impl Clone for Candidate {
    /// A candidate of the same name.
    fn clone(&self) -> (copy: Candidate)
        ensures
            copy@ == self@,
    {
        Candidate { name: self.name.clone() }
    }
}

impl PartialEq for Candidate {
    /// Whether the two have the same name.
    fn eq(&self, other: &Candidate) -> (same: bool) {
        self.name == other.name
    }
}

impl vstd::std_specs::cmp::PartialEqSpecImpl for Candidate {
    open spec fn obeys_eq_spec() -> bool {
        true
    }

    open spec fn eq_spec(&self, other: &Candidate) -> bool {
        self@ == other@
    }
}

/// `Rc::clone`: a second handle to the same candidate. The contract claims only
/// that the new handle points at the value the given one points at.
#[verifier::external_body]
pub(crate) fn share(candidate: &Rc<Candidate>) -> (handle: Rc<Candidate>)
    ensures
        handle == *candidate,
{
    Rc::clone(candidate)
}

} // verus!
