//! Symbolic aliases: non-empty strings without whitespace, optionally carried
//! by a thesis and unique across live theses.

use vstd::prelude::*;
use crate::chars::{is_whitespace, whitespace_char};
use crate::errors::SweaterError;

verus! {

/// Whether a character sequence is a well-formed alias: non-empty, and free
/// of whitespace.
pub open spec fn is_alias_text(s: Seq<char>) -> bool {
    s.len() > 0 && (forall|i: int| 0 <= i < s.len() ==> !is_whitespace(#[trigger] s[i]))
}

#[derive(PartialEq, Eq, Debug)]
pub struct Alias(pub String);

impl View for Alias {
    type V = Seq<char>;

    open spec fn view(&self) -> Seq<char> {
        self.0@
    }
}

impl Clone for Alias {
    fn clone(&self) -> (r: Self)
        ensures
            r == *self,
    {
        Alias(self.0.clone())
    }
}

impl Alias {
    /// Whether this alias is well-formed.
    pub open spec fn is_valid(&self) -> bool {
        is_alias_text(self.0@)
    }

    /// Checks well-formedness, returning the alias itself on success.
    pub fn validated(&self) -> (r: Result<&Self, SweaterError>)
        ensures
            r is Ok <==> self.is_valid(),
            r is Ok ==> r->Ok_0 == self,
            r is Err ==> r->Err_0 == SweaterError::InvalidSyntax,
    {
        let n = self.0.as_str().unicode_len();
        if n == 0 {
            return Err(SweaterError::InvalidSyntax);
        }
        let mut i: usize = 0;
        while i < n
            invariant
                n == self.0@.len(),
                i <= n,
                forall|k: int| 0 <= k < i ==> !is_whitespace(#[trigger] self.0@[k]),
            decreases n - i,
        {
            if whitespace_char(self.0.as_str().get_char(i)) {
                return Err(SweaterError::InvalidSyntax);
            }
            i = i + 1;
        }
        Ok(self)
    }
}

} // verus!
