use vstd::prelude::*;

use crate::error::MessageError;

verus! {

/// An opaque signature over a thinking block, kept byte for byte.
#[derive(Debug, PartialEq, Eq, Hash)]
pub struct Signature(String);

impl View for Signature {
    type V = Seq<char>;

    closed spec fn view(&self) -> Seq<char> {
        self.0@
    }
}

impl Clone for Signature {
    fn clone(&self) -> (r: Self)
        ensures
            r == *self,
    {
        proof {
            use_type_invariant(self);
        }
        Signature(self.0.clone())
    }
}

impl Signature {
    #[verifier::type_invariant]
    closed spec fn not_empty(self) -> bool {
        self.0@.len() > 0
    }

    /// Refused with `Blank { field: "signature" }` exactly when the value is
    /// empty; any other value is kept verbatim.
    pub fn new(value: &str) -> (r: Result<Signature, MessageError>)
        ensures
            match r {
                Ok(id) => value@.len() > 0 && id@ == value@,
                Err(e) => value@.len() == 0 && e == (MessageError::Blank { field: "signature" }),
            },
    {
        if value.is_empty() {
            return Err(MessageError::Blank { field: "signature" });
        }
        Ok(Signature(value.to_owned()))
    }

    /// Same as `new`, taking the string by value.
    pub fn from_string(value: String) -> (r: Result<Signature, MessageError>)
        ensures
            match r {
                Ok(id) => value@.len() > 0 && id@ == value@,
                Err(e) => value@.len() == 0 && e == (MessageError::Blank { field: "signature" }),
            },
    {
        if value.as_str().is_empty() {
            return Err(MessageError::Blank { field: "signature" });
        }
        Ok(Signature(value))
    }

    pub fn as_str(&self) -> (r: &str)
        ensures
            r@ == self@,
            r@.len() > 0,
    {
        proof {
            use_type_invariant(self);
        }
        self.0.as_str()
    }

    pub fn to_string(&self) -> (r: String)
        ensures
            r@ == self@,
    {
        self.0.clone()
    }

    /// Equality of the two values, character for character.
    pub fn same(&self, other: &Signature) -> (r: bool)
        ensures
            r == (self@ == other@),
    {
        self.0 == other.0
    }
}

} // verus!
