//! Tags: words attached to a thesis. A thesis carries its tags as a set:
//! order is irrelevant and duplicates are never stored.

use vstd::prelude::*;
use crate::chars::{is_word, word_char};
use crate::errors::SweaterError;

verus! {

/// Whether a character sequence is a well-formed tag: one or more word
/// characters.
pub open spec fn is_tag_text(s: Seq<char>) -> bool {
    s.len() > 0 && (forall|i: int| 0 <= i < s.len() ==> is_word(#[trigger] s[i]))
}

/// The character sequences of a tag vector.
pub open spec fn tag_views(tags: Seq<Tag>) -> Seq<Seq<char>> {
    tags.map_values(|t: Tag| t.0@)
}

#[derive(PartialEq, Eq, Debug)]
pub struct Tag(pub String);

impl View for Tag {
    type V = Seq<char>;

    open spec fn view(&self) -> Seq<char> {
        self.0@
    }
}

impl Clone for Tag {
    fn clone(&self) -> (r: Self)
        ensures
            r == *self,
    {
        Tag(self.0.clone())
    }
}

impl Tag {
    /// Whether this tag is well-formed.
    pub open spec fn is_valid(&self) -> bool {
        is_tag_text(self.0@)
    }

    /// Checks well-formedness.
    pub fn validate(&self) -> (r: Result<(), SweaterError>)
        ensures
            r is Ok <==> self.is_valid(),
            r is Err ==> r->Err_0 == SweaterError::InvalidSyntax,
    {
        let n = self.0.as_str().unicode_len();
        if n == 0 {
            return Err(SweaterError::InvalidSyntax);
        }
        let mut i: usize = 0;
        while i < n
            invariant
                n == self.0@.len(),
                i <= n,
                forall|k: int| 0 <= k < i ==> is_word(#[trigger] self.0@[k]),
            decreases n - i,
        {
            if !word_char(self.0.as_str().get_char(i)) {
                return Err(SweaterError::InvalidSyntax);
            }
            i = i + 1;
        }
        Ok(())
    }
}

} // verus!
