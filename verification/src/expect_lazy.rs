//! Taking a value out of what is known to hold one.

use vstd::prelude::*;

verus! {

/// Values that hold another value, or that hold an error.
pub trait ExpectFmt: Sized {
    type Unwrapped;

    /// The value that is held, if one is.
    spec fn held(self) -> Option<Self::Unwrapped>;

    /// The value that is held. `msg` says what the caller expects, and no caller
    /// may expect what does not hold.
    fn expect_fmt(self, msg: &str) -> (value: Self::Unwrapped)
        requires
            self.held() is Some,
        ensures
            self.held() == Some(value),
    ;
}

impl<Value, Error> ExpectFmt for Result<Value, Error> {
    type Unwrapped = Value;

    open spec fn held(self) -> Option<Value> {
        match self {
            Ok(value) => Some(value),
            Err(_) => None,
        }
    }

    fn expect_fmt(self, msg: &str) -> (value: Value) {
        match self {
            Ok(value) => value,
            Err(_) => vstd::pervasive::unreached(),
        }
    }
}

/// What a task leaves behind: its value, or what it came to grief with.
pub trait ExpectUnwind: Sized {
    type Unwrapped;

    /// The value that is left behind, if the task did not come to grief.
    spec fn left(self) -> Option<Self::Unwrapped>;

    /// The value that is left behind, of a task that did not come to grief.
    fn expect_unwind(self) -> (value: Self::Unwrapped)
        requires
            self.left() is Some,
        ensures
            self.left() == Some(value),
    ;
}

impl<Value, Payload> ExpectUnwind for Result<Value, Payload> {
    type Unwrapped = Value;

    open spec fn left(self) -> Option<Value> {
        match self {
            Ok(value) => Some(value),
            Err(_) => None,
        }
    }

    fn expect_unwind(self) -> (value: Value) {
        match self {
            Ok(value) => value,
            Err(_) => vstd::pervasive::unreached(),
        }
    }
}

impl<Payload> ExpectUnwind for Option<Payload> {
    type Unwrapped = ();

    open spec fn left(self) -> Option<()> {
        match self {
            Some(_) => None,
            None => Some(()),
        }
    }

    fn expect_unwind(self) -> (value: ()) {
    }
}

} // verus!
