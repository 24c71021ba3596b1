//! References as they appear in the command language: an alias, or an
//! identifier in its textual form.

use vstd::prelude::*;
use crate::alias::{is_alias_text, Alias};
use crate::chars::chars_of;
use crate::errors::SweaterError;
use crate::ids::{id_text_value, is_id_text, ObjectId};

verus! {

/// A reference written in a command: an alias, or an identifier.
#[derive(PartialEq, Eq, Debug)]
pub enum Reference {
    Alias(Alias),
    ObjectId(ObjectId),
}

impl Clone for Reference {
    fn clone(&self) -> (r: Self)
        ensures
            r == *self,
    {
        match self {
            Reference::Alias(a) => Reference::Alias(a.clone()),
            Reference::ObjectId(o) => Reference::ObjectId(*o),
        }
    }
}

impl Reference {
    /// Reads a reference from one token. Any token shaped like an alias is
    /// an alias; otherwise the token must be the textual form of an
    /// identifier.
    pub fn new(input: &str) -> (r: Result<Self, SweaterError>)
        ensures
            is_alias_text(input@) ==> (r matches Ok(Reference::Alias(a)) && a@ == input@),
            !is_alias_text(input@) && is_id_text(input@) ==> (r matches Ok(Reference::ObjectId(o))
                && o.value as int == id_text_value(input@)),
            !is_alias_text(input@) && !is_id_text(input@) ==> r == Err::<Reference, SweaterError>(
                SweaterError::InvalidSyntax,
            ),
    {
        let alias = Alias(input.to_owned());
        if alias.validated().is_ok() {
            return Ok(Reference::Alias(alias));
        }
        let cs = chars_of(input);
        match ObjectId::from_text_chars(&cs) {
            Some(oid) => Ok(Reference::ObjectId(oid)),
            None => Err(SweaterError::InvalidSyntax),
        }
    }

    /// Whether the reference is well-formed.
    pub open spec fn is_valid(&self) -> bool {
        match self {
            Reference::Alias(a) => a.is_valid(),
            Reference::ObjectId(_) => true,
        }
    }

    /// Checks well-formedness, returning the reference itself on success.
    pub fn validated(&self) -> (r: Result<&Self, SweaterError>)
        ensures
            r is Ok <==> self.is_valid(),
            r is Ok ==> r->Ok_0 == self,
            r is Err ==> r->Err_0 == SweaterError::InvalidSyntax,
    {
        match self {
            Reference::Alias(a) => {
                match a.validated() {
                    Ok(_) => Ok(self),
                    Err(e) => Err(e),
                }
            },
            Reference::ObjectId(_) => Ok(self),
        }
    }
}

} // verus!
