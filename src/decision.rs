use vstd::prelude::*;

verus! {

/// The four-valued outcome of a policy check.
#[allow(non_camel_case_types)]
#[derive(Debug, Clone, Copy, PartialEq, Eq, Structural)]
pub enum Decision {
    ALLOW,
    DISALLOWED_DESTINATION,
    SOURCE_UNKNOWN,
    MALFORMED_MESSAGE,
}

/// The byte that stands for a decision on the wire.
pub open spec fn decision_code(d: Decision) -> u8 {
    match d {
        Decision::ALLOW => 0,
        Decision::DISALLOWED_DESTINATION => 1,
        Decision::SOURCE_UNKNOWN => 2,
        Decision::MALFORMED_MESSAGE => 3,
    }
}

impl Decision {
    pub fn code(&self) -> (r: u8)
        ensures
            r == decision_code(*self),
    {
        match self {
            Decision::ALLOW => 0,
            Decision::DISALLOWED_DESTINATION => 1,
            Decision::SOURCE_UNKNOWN => 2,
            Decision::MALFORMED_MESSAGE => 3,
        }
    }

    /// The decision a wire byte stands for, if any.
    pub fn from_code(c: u8) -> (r: Option<Decision>)
        ensures
            match r {
                Some(d) => decision_code(d) == c,
                None => forall|d: Decision| decision_code(d) != c,
            },
    {
        if c == 0 {
            Some(Decision::ALLOW)
        } else if c == 1 {
            Some(Decision::DISALLOWED_DESTINATION)
        } else if c == 2 {
            Some(Decision::SOURCE_UNKNOWN)
        } else if c == 3 {
            Some(Decision::MALFORMED_MESSAGE)
        } else {
            None
        }
    }
}

} // verus!
