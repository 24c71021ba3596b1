//! Theses: content plus an optional alias and a set of tags. The identity is
//! derived from the content alone, so alias and tag changes never move a
//! thesis.

use vstd::prelude::*;
use crate::alias::{is_alias_text, Alias};
use crate::content::{content_id, Content, ContentModel};
use crate::errors::SweaterError;
use crate::ids::ObjectId;
use crate::tag::{is_tag_text, Tag};

verus! {

/// The ghost shape of a thesis.
pub struct ThesisModel {
    pub alias: Option<Seq<char>>,
    pub content: ContentModel,
    pub tags: Seq<Seq<char>>,
}

impl ThesisModel {
    /// The identity of the thesis: a function of the content alone.
    pub open spec fn id(self) -> u128 {
        content_id(self.content)
    }

    /// Whether the alias (when present), the content, and every tag are
    /// well-formed.
    pub open spec fn is_valid(self) -> bool {
        &&& (self.alias is Some ==> is_alias_text(self.alias->0))
        &&& self.content.is_valid()
        &&& forall|i: int| 0 <= i < self.tags.len() ==> is_tag_text(#[trigger] self.tags[i])
    }

    /// The identifiers this thesis points at: a text's references, or a
    /// relation's two endpoints.
    pub open spec fn references(self) -> Seq<u128> {
        match self.content {
            ContentModel::Text(t) => t.refs,
            ContentModel::Relation(r) => seq![r.from, r.to],
        }
    }

    /// Whether this thesis points at `id`.
    pub open spec fn references_id(self, id: u128) -> bool {
        self.references().contains(id)
    }
}

/// A stored assertion: its content, an optional alias, and its tags.
#[derive(PartialEq, Eq, Debug)]
pub struct Thesis {
    pub alias: Option<Alias>,
    pub content: Content,
    pub tags: Vec<Tag>,
}

impl View for Thesis {
    type V = ThesisModel;

    open spec fn view(&self) -> ThesisModel {
        ThesisModel {
            alias: match self.alias {
                Some(a) => Some(a.0@),
                None => None,
            },
            content: self.content@,
            tags: self.tags@.map_values(|t: Tag| t.0@),
        }
    }
}

impl Clone for Thesis {
    fn clone(&self) -> (r: Self)
        ensures
            r@ == self@,
    {
        let alias = match &self.alias {
            Some(a) => Some(a.clone()),
            None => None,
        };
        let tags = self.tags.clone();
        let r = Thesis { alias, content: self.content.clone(), tags };
        proof {
            assert forall|i: int| 0 <= i < self.tags@.len() implies #[trigger] r.tags@[i]
                == self.tags@[i] by {}
            assert(r.tags@ =~= self.tags@);
            assert(r@ =~= self@);
        }
        r
    }
}

impl Thesis {
    /// The identity of this thesis: the hash of its content's canonical
    /// encoding. Alias and tags play no part in it.
    pub fn id(&self) -> (r: ObjectId)
        ensures
            r.value == self@.id(),
    {
        self.content.id()
    }

    /// Checks that the alias (when present), the content and every tag are
    /// well-formed, returning the thesis itself on success.
    pub fn validated(&self) -> (r: Result<&Self, SweaterError>)
        ensures
            r is Ok <==> self@.is_valid(),
            r is Ok ==> r->Ok_0 == self,
            r is Err ==> r->Err_0 == SweaterError::InvalidSyntax,
    {
        if let Some(alias) = &self.alias {
            if let Err(e) = alias.validated() {
                return Err(e);
            }
        }
        if let Err(e) = self.content.validated() {
            return Err(e);
        }
        let mut i: usize = 0;
        while i < self.tags.len()
            invariant
                i <= self.tags@.len(),
                forall|k: int| 0 <= k < i ==> is_tag_text(#[trigger] self@.tags[k]),
        decreases self.tags@.len() - i,
        {
            match self.tags[i].validate() {
                Ok(_) => {
                    proof {
                        assert(self@.tags[i as int] == self.tags@[i as int].0@);
                    }
                },
                Err(e) => {
                    proof {
                        assert(self@.tags[i as int] == self.tags@[i as int].0@);
                    }
                    return Err(e);
                },
            }
            i = i + 1;
        }
        Ok(self)
    }

    /// The identifiers this thesis points at: a text's references, or a
    /// relation's two endpoints.
    pub fn references(&self) -> (r: Vec<ObjectId>)
        ensures
            r@.map_values(|o: ObjectId| o.value) == self@.references(),
    {
        match &self.content {
            Content::Text(t) => {
                let r = t.references.clone();
                proof {
                    assert(r@ =~= t.references@);
                    assert(r@.map_values(|o: ObjectId| o.value) =~= self@.references());
                }
                r
            },
            Content::Relation(rel) => {
                let r = vec![rel.from, rel.to];
                proof {
                    assert(r@.map_values(|o: ObjectId| o.value) =~= self@.references());
                }
                r
            },
        }
    }
}

} // verus!
