//! Small option-to-result helper shared by callers of the library.

use vstd::prelude::*;

verus! {

/// Error standing for a missing value.
#[derive(Clone, Copy, Debug, PartialEq, Eq, Structural)]
pub struct NoneError;

/// Conversion of an optional value into a `Result` with [`NoneError`].
pub trait OptionIntoResult<T>: Sized {
    /// Whether a value is present.
    spec fn spec_is_present(&self) -> bool;

    /// The present value.
    spec fn spec_value(&self) -> T;

    /// Turns a present value into `Ok` and absence into a boxed [`NoneError`].
    fn into_result(self) -> (r: Result<T, Box<NoneError>>)
        ensures
            r is Ok <==> self.spec_is_present(),
            r matches Ok(v) ==> v == self.spec_value(),
    ;
}

impl<T> OptionIntoResult<T> for Option<T> {
    open spec fn spec_is_present(&self) -> bool {
        self is Some
    }

    open spec fn spec_value(&self) -> T {
        self->0
    }

    fn into_result(self) -> (r: Result<T, Box<NoneError>>) {
        match self {
            Option::Some(v) => Result::Ok(v),
            Option::None => Result::Err(Box::new(NoneError)),
        }
    }
}

} // verus!
