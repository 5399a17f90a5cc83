//! How a controller reports failure, which decides the retry policy:
//! a transient failure is retried, a permanent one drops the mutation.

use vstd::prelude::*;

verus! {

#[derive(Debug)]
pub enum ControllerError {
    Transient { reason: String },
    Permanent { reason: String },
}

impl ControllerError {
    pub fn transient(reason: &str) -> (r: ControllerError)
        ensures
            r matches ControllerError::Transient { reason: x } && x@ == reason@,
    {
        ControllerError::Transient { reason: reason.to_owned() }
    }

    pub fn permanent(reason: &str) -> (r: ControllerError)
        ensures
            r matches ControllerError::Permanent { reason: x } && x@ == reason@,
    {
        ControllerError::Permanent { reason: reason.to_owned() }
    }

    pub fn is_transient(&self) -> (r: bool)
        ensures
            r == (self is Transient),
    {
        match self {
            ControllerError::Transient { .. } => true,
            ControllerError::Permanent { .. } => false,
        }
    }

    /// The failure's reason.
    pub fn reason(&self) -> (r: &str)
        ensures
            r@ == match self {
                ControllerError::Transient { reason } => reason@,
                ControllerError::Permanent { reason } => reason@,
            },
    {
        match self {
            ControllerError::Transient { reason } => reason.as_str(),
            ControllerError::Permanent { reason } => reason.as_str(),
        }
    }
}

} // verus!
