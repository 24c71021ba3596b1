//! Typed relations between two theses, and their kinds.

use vstd::prelude::*;
use crate::chars::{is_whitespace, is_word, whitespace_char, word_char};
use crate::errors::SweaterError;
use crate::ids::ObjectId;

verus! {

/// Whether a character sequence is a well-formed relation kind: one or more
/// word or whitespace characters. Membership in the configured supported set
/// is a separate check made at insertion.
pub open spec fn is_kind_text(s: Seq<char>) -> bool {
    s.len() > 0 && (forall|i: int|
        0 <= i < s.len() ==> is_word(#[trigger] s[i]) || is_whitespace(s[i]))
}

#[derive(PartialEq, Eq, Debug)]
pub struct RelationKind(pub String);

impl View for RelationKind {
    type V = Seq<char>;

    open spec fn view(&self) -> Seq<char> {
        self.0@
    }
}

impl Clone for RelationKind {
    fn clone(&self) -> (r: Self)
        ensures
            r == *self,
    {
        RelationKind(self.0.clone())
    }
}

impl RelationKind {
    /// Whether this kind is well-formed.
    pub open spec fn is_valid(&self) -> bool {
        is_kind_text(self.0@)
    }

    /// Checks well-formedness.
    pub fn validate(&self) -> (r: Result<(), SweaterError>)
        ensures
            r is Ok <==> self.is_valid(),
            r is Err ==> r->Err_0 == SweaterError::InvalidSyntax,
    {
        let n = self.0.as_str().unicode_len();
        if n == 0 {
            return Err(SweaterError::InvalidSyntax);
        }
        let mut i: usize = 0;
        while i < n
            invariant
                n == self.0@.len(),
                i <= n,
                forall|k: int|
                    0 <= k < i ==> is_word(#[trigger] self.0@[k]) || is_whitespace(self.0@[k]),
            decreases n - i,
        {
            let c = self.0.as_str().get_char(i);
            if !word_char(c) && !whitespace_char(c) {
                return Err(SweaterError::InvalidSyntax);
            }
            i = i + 1;
        }
        Ok(())
    }
}

/// A directed, typed edge between two theses.
#[derive(PartialEq, Eq, Debug)]
pub struct Relation {
    pub from: ObjectId,
    pub to: ObjectId,
    pub kind: RelationKind,
}

/// The ghost shape of a relation: endpoint identifier values and the kind's
/// characters.
pub struct RelationModel {
    pub from: u128,
    pub to: u128,
    pub kind: Seq<char>,
}

impl View for Relation {
    type V = RelationModel;

    open spec fn view(&self) -> RelationModel {
        RelationModel { from: self.from.value, to: self.to.value, kind: self.kind.0@ }
    }
}

impl Clone for Relation {
    fn clone(&self) -> (r: Self)
        ensures
            r == *self,
    {
        Relation { from: self.from, to: self.to, kind: self.kind.clone() }
    }
}

impl Relation {
    /// Whether this relation is well-formed: its kind is.
    pub open spec fn is_valid(&self) -> bool {
        self.kind.is_valid()
    }

    /// Checks well-formedness.
    pub fn validate(&self) -> (r: Result<(), SweaterError>)
        ensures
            r is Ok <==> self.is_valid(),
            r is Err ==> r->Err_0 == SweaterError::InvalidSyntax,
    {
        self.kind.validate()
    }
}

} // verus!
