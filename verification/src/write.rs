//! The write transaction: insertion with referential-integrity checks,
//! tagging, alias management, and cascade removal.
//!
//! Every operation says exactly which store it leaves behind and which error
//! it returns on which input, and preserves the store's well-formedness.

use vstd::prelude::*;
use vstd::pervasive::VecAdditionalExecFns;
use crate::alias::{is_alias_text, Alias};
use crate::commands::{Command, CommandModel};
use crate::cascade::{
    core_closed, in_core, lemma_core_base, lemma_core_complete, lemma_core_step,
    lemma_survivors_wf, removed_by_cascade, survivors, survivors_upto,
};
use crate::content::{Content, ContentModel};
use crate::errors::SweaterError;
use crate::ids::ObjectId;
use crate::store::{
    alias_lookup, contains_id, index_of_id, lemma_alias_lookup, lemma_index_of_id, referencers,
    spec_get, store_wf, tags_unique, Store,
};
use crate::sweater::{Sweater, SweaterConfig};
use crate::tag::{is_tag_text, tag_views, Tag};
use crate::thesis::{Thesis, ThesisModel};

verus! {

/// Tags with later duplicates dropped: each tag keeps its first occurrence.
pub open spec fn dedup_tags(tags: Seq<Seq<char>>) -> Seq<Seq<char>>
    decreases tags.len(),
{
    if tags.len() == 0 {
        Seq::empty()
    } else {
        let front = dedup_tags(tags.drop_last());
        if front.contains(tags.last()) {
            front
        } else {
            front.push(tags.last())
        }
    }
}

/// Deduplication keeps exactly the tags that were there, without duplicates.
pub proof fn lemma_dedup_tags(tags: Seq<Seq<char>>)
    ensures
        tags_unique(dedup_tags(tags)),
        forall|t: Seq<char>| dedup_tags(tags).contains(t) <==> tags.contains(t),
    decreases tags.len(),
{
    if tags.len() > 0 {
        lemma_dedup_tags(tags.drop_last());
        let front = dedup_tags(tags.drop_last());
        assert forall|t: Seq<char>| dedup_tags(tags).contains(t) implies tags.contains(t) by {
            if front.contains(t) {
                assert(tags.drop_last().contains(t));
                let i = choose|i: int|
                    0 <= i < tags.drop_last().len() && tags.drop_last()[i] == t;
                assert(tags[i] == t);
            } else {
                assert(tags[tags.len() - 1] == t);
            }
        }
        assert forall|t: Seq<char>| tags.contains(t) implies dedup_tags(tags).contains(t) by {
            let i = choose|i: int| 0 <= i < tags.len() && tags[i] == t;
            if i < tags.len() - 1 {
                assert(tags.drop_last()[i] == t);
                assert(tags.drop_last().contains(t));
                assert(front.contains(t));
                if !front.contains(tags.last()) {
                    let k = choose|k: int| 0 <= k < front.len() && front[k] == t;
                    assert(dedup_tags(tags)[k] == t);
                }
            } else {
                assert(tags.last() == t);
                if !front.contains(tags.last()) {
                    assert(dedup_tags(tags).last() == t);
                }
            }
        }
    }
}

/// Why an insertion is refused, or nothing when it succeeds. The checks run
/// in this order: syntactic validity, identity collision, relation kind
/// membership, relation endpoint existence, alias availability.
pub open spec fn insert_check(
    m: Seq<ThesisModel>,
    t: ThesisModel,
    kinds: Seq<Seq<char>>,
) -> Option<SweaterError> {
    if !t.is_valid() {
        Some(SweaterError::InvalidSyntax)
    } else if contains_id(m, t.id()) {
        Some(SweaterError::Duplicate)
    } else if t.content matches ContentModel::Relation(r) && !kinds.contains(r.kind) {
        Some(SweaterError::UnsupportedKind)
    } else if t.content matches ContentModel::Relation(r) && !(contains_id(m, r.from)
        && contains_id(m, r.to)) {
        Some(SweaterError::DanglingReference)
    } else if t.alias matches Some(name) && alias_lookup(m, name) is Some {
        Some(SweaterError::AliasInUse)
    } else {
        None
    }
}

/// The thesis as it is stored: the same but for tag deduplication.
pub open spec fn inserted_model(t: ThesisModel) -> ThesisModel {
    ThesisModel { alias: t.alias, content: t.content, tags: dedup_tags(t.tags) }
}

/// Why tagging is refused, or nothing when it succeeds.
pub open spec fn tag_check(m: Seq<ThesisModel>, id: u128, tag: Seq<char>) -> Option<SweaterError> {
    if !is_tag_text(tag) {
        Some(SweaterError::InvalidSyntax)
    } else if !contains_id(m, id) {
        Some(SweaterError::UnknownThesis)
    } else {
        None
    }
}

/// The store after tagging: the tag is appended to the named thesis's tags
/// only when absent.
pub open spec fn spec_tag(m: Seq<ThesisModel>, id: u128, tag: Seq<char>) -> Seq<ThesisModel> {
    let i = index_of_id(m, id);
    if i < 0 {
        m
    } else {
        let t = m[i];
        if t.tags.contains(tag) {
            m
        } else {
            m.update(i, ThesisModel { alias: t.alias, content: t.content, tags: t.tags.push(tag) })
        }
    }
}

/// A tag sequence with the first occurrence of `tag` removed.
pub open spec fn remove_first(tags: Seq<Seq<char>>, tag: Seq<char>) -> Seq<Seq<char>>
    decreases tags.len(),
{
    if tags.len() == 0 {
        Seq::empty()
    } else if tags[0] == tag {
        tags.drop_first()
    } else {
        seq![tags[0]] + remove_first(tags.drop_first(), tag)
    }
}

/// The store after untagging: the first occurrence of the tag leaves the
/// named thesis's tags; nothing changes when it is absent.
pub open spec fn spec_untag(m: Seq<ThesisModel>, id: u128, tag: Seq<char>) -> Seq<ThesisModel> {
    let i = index_of_id(m, id);
    if i < 0 {
        m
    } else {
        let t = m[i];
        m.update(
            i,
            ThesisModel { alias: t.alias, content: t.content, tags: remove_first(t.tags, tag) },
        )
    }
}

/// Why an alias change is refused, or nothing when it succeeds. Alias
/// uniqueness is enforced: the alias must not be held by another live
/// thesis.
pub open spec fn set_alias_check(
    m: Seq<ThesisModel>,
    id: u128,
    name: Seq<char>,
) -> Option<SweaterError> {
    if !is_alias_text(name) {
        Some(SweaterError::InvalidSyntax)
    } else if !contains_id(m, id) {
        Some(SweaterError::UnknownThesis)
    } else if alias_lookup(m, name) matches Some(other) && other != id {
        Some(SweaterError::AliasInUse)
    } else {
        None
    }
}

/// The store after an alias change.
pub open spec fn spec_set_alias(m: Seq<ThesisModel>, id: u128, name: Seq<char>) -> Seq<
    ThesisModel,
> {
    let i = index_of_id(m, id);
    if i < 0 {
        m
    } else {
        let t = m[i];
        m.update(i, ThesisModel { alias: Some(name), content: t.content, tags: t.tags })
    }
}

/// The store and outcome after attaching each tag in turn to the named
/// thesis, stopping at the first refusal.
pub open spec fn spec_tags_fold(m: Seq<ThesisModel>, id: u128, tags: Seq<Seq<char>>) -> (
    Seq<ThesisModel>,
    Option<SweaterError>,
)
    decreases tags.len(),
{
    if tags.len() == 0 {
        (m, None)
    } else {
        match tag_check(m, id, tags[0]) {
            Some(e) => (m, Some(e)),
            None => spec_tags_fold(spec_tag(m, id, tags[0]), id, tags.drop_first()),
        }
    }
}

/// The store and outcome after detaching each tag in turn from the named
/// thesis, stopping at the first refusal.
pub open spec fn spec_untags_fold(m: Seq<ThesisModel>, id: u128, tags: Seq<Seq<char>>) -> (
    Seq<ThesisModel>,
    Option<SweaterError>,
)
    decreases tags.len(),
{
    if tags.len() == 0 {
        (m, None)
    } else if !contains_id(m, id) {
        (m, Some(SweaterError::UnknownThesis))
    } else {
        spec_untags_fold(spec_untag(m, id, tags[0]), id, tags.drop_first())
    }
}

/// An exclusive write transaction over the store.
pub struct WriteTransaction {
    pub store: Store,
    pub sweater_config: SweaterConfig,
}

impl WriteTransaction {
    /// Well-formedness: the store is.
    pub open spec fn wf(&self) -> bool {
        self.store.wf()
    }

    /// The stored thesis with the given identity, when there is one.
    /// Writes made earlier in this transaction are visible.
    pub fn get_thesis(&self, thesis_id: &ObjectId) -> (r: Option<Thesis>)
        ensures
            match spec_get(self.store@, thesis_id.value) {
                Some(t) => r is Some && r->0@ == t,
                None => r is None,
            },
    {
        self.store.get_thesis(thesis_id)
    }

    /// The identity of the thesis holding the given alias, when one does.
    pub fn get_thesis_id_by_alias(&self, alias: &Alias) -> (r: Option<ObjectId>)
        ensures
            match r {
                Some(id) => alias_lookup(self.store@, alias@) == Some(id.value),
                None => alias_lookup(self.store@, alias@) is None,
            },
    {
        self.store.get_thesis_id_by_alias(alias)
    }

    /// The alias of the thesis with the given identity, when the thesis is
    /// stored and has one.
    pub fn get_alias_by_thesis_id(&self, thesis_id: &ObjectId) -> (r: Option<Alias>)
        ensures
            match spec_get(self.store@, thesis_id.value) {
                Some(t) => match r {
                    Some(a) => t.alias == Some(a@),
                    None => t.alias is None,
                },
                None => r is None,
            },
    {
        self.store.get_alias_by_thesis_id(thesis_id)
    }

    /// The identities of all theses that reference the given identity.
    pub fn where_referenced(&self, thesis_id: &ObjectId) -> (r: Vec<ObjectId>)
        ensures
            r@.map_values(|o: ObjectId| o.value) == referencers(self.store@, thesis_id.value),
    {
        self.store.where_referenced(thesis_id)
    }

    /// All stored theses, in store order.
    pub fn iter_theses(&self) -> (r: Vec<Thesis>)
        ensures
            r@.map_values(|t: Thesis| t@) == self.store@,
    {
        self.store.iter_theses()
    }

    /// Ends the transaction, giving the sweater back.
    pub fn commit(self) -> (r: Sweater)
        ensures
            r.store@ == self.store@,
            r.config@ == self.sweater_config@,
    {
        Sweater { store: self.store, config: self.sweater_config }
    }

    /// Whether the configured supported kinds hold the given kind.
    fn kind_supported(&self, kind: &crate::relation::RelationKind) -> (r: bool)
        ensures
            r == self.sweater_config@.contains(kind.0@),
    {
        let kinds = &self.sweater_config.supported_relations_kinds;
        let n = kinds.len();
        let mut i: usize = 0;
        while i < n
            invariant
                n == kinds@.len(),
                self.sweater_config@ == kinds@.map_values(|k: crate::relation::RelationKind| k.0@),
                i <= n,
                forall|k: int| 0 <= k < i ==> (#[trigger] kinds@[k]).0@ != kind.0@,
            decreases n - i,
        {
            if kinds[i].0 == kind.0 {
                proof {
                    assert(self.sweater_config@[i as int] == kind.0@);
                }
                return true;
            }
            i = i + 1;
        }
        proof {
            if self.sweater_config@.contains(kind.0@) {
                let k = choose|k: int|
                    0 <= k < self.sweater_config@.len() && self.sweater_config@[k] == kind.0@;
                assert(self.sweater_config@[k] == kinds@[k].0@);
            }
        }
        false
    }

    /// Inserts a thesis. Refuses, in this order: an invalid value, a
    /// duplicate identity, an unsupported relation kind, a relation endpoint
    /// that is not stored, an alias held by another live thesis. On success
    /// the thesis is appended with its tags deduplicated.
    pub fn insert_thesis(&mut self, thesis: Thesis) -> (r: Result<(), SweaterError>)
        requires
            old(self).wf(),
        ensures
            final(self).wf(),
            final(self).sweater_config@ == old(self).sweater_config@,
            match insert_check(old(self).store@, thesis@, old(self).sweater_config@) {
                Some(e) => r == Err::<(), SweaterError>(e) && final(self).store@ == old(
                    self,
                ).store@,
                None => r is Ok && final(self).store@ == old(self).store@.push(
                    inserted_model(thesis@),
                ),
            },
    {
        if let Err(e) = thesis.validated() {
            return Err(e);
        }
        let id = thesis.id();
        if let Some(_) = self.store.find_index(&id) {
            proof {
                lemma_index_of_id(self.store@, id.value);
            }
            return Err(SweaterError::Duplicate);
        }
        if let Content::Relation(rel) = &thesis.content {
            if !self.kind_supported(&rel.kind) {
                proof {
                    assert(thesis@.content matches ContentModel::Relation(r) && r.kind
                        == rel.kind.0@);
                }
                return Err(SweaterError::UnsupportedKind);
            }
            let from_there = self.store.find_index(&rel.from).is_some();
            let to_there = self.store.find_index(&rel.to).is_some();
            if !from_there || !to_there {
                proof {
                    lemma_index_of_id(self.store@, rel.from.value);
                    lemma_index_of_id(self.store@, rel.to.value);
                }
                return Err(SweaterError::DanglingReference);
            }
            proof {
                lemma_index_of_id(self.store@, rel.from.value);
                lemma_index_of_id(self.store@, rel.to.value);
            }
        }
        if let Some(alias) = &thesis.alias {
            if let Some(_) = self.store.get_thesis_id_by_alias(alias) {
                return Err(SweaterError::AliasInUse);
            }
        }
        // Deduplicate the tags, keeping first occurrences.
        let mut tags: Vec<Tag> = Vec::new();
        let mut i: usize = 0;
        while i < thesis.tags.len()
            invariant
                i <= thesis.tags@.len(),
                tags@.map_values(|t: Tag| t.0@) == dedup_tags(
                    thesis@.tags.subrange(0, i as int),
                ),
            decreases thesis.tags@.len() - i,
        {
            proof {
                assert(thesis@.tags.subrange(0, i + 1).drop_last() =~= thesis@.tags.subrange(
                    0,
                    i as int,
                ));
                assert(thesis@.tags.subrange(0, i + 1).last() == thesis@.tags[i as int]);
                assert(thesis@.tags[i as int] == thesis.tags@[i as int].0@);
            }
            if !tags_contain(&tags, &thesis.tags[i]) {
                tags.push(thesis.tags[i].clone());
                proof {
                    assert(tags@.map_values(|t: Tag| t.0@) =~= dedup_tags(
                        thesis@.tags.subrange(0, i + 1),
                    ));
                }
            } else {
                proof {
                    assert(tags@.map_values(|t: Tag| t.0@) =~= dedup_tags(
                        thesis@.tags.subrange(0, i + 1),
                    ));
                }
            }
            i = i + 1;
        }
        proof {
            assert(thesis@.tags.subrange(0, thesis.tags@.len() as int) =~= thesis@.tags);
        }
        let alias = match &thesis.alias {
            Some(a) => Some(a.clone()),
            None => None,
        };
        let stored = Thesis { alias, content: thesis.content, tags };
        proof {
            assert(stored@ == inserted_model(thesis@));
        }
        self.store.theses.push(stored);
        proof {
            assert(self.store@ =~= old(self).store@.push(inserted_model(thesis@)));
            lemma_insert_preserves_wf(old(self).store@, thesis@, old(self).sweater_config@);
        }
        Ok(())
    }

    /// Removes the named thesis and cascades: every relation touching a
    /// removed thesis is removed, and every text thesis referencing a
    /// removed thesis is removed in turn, transitively. Removing an absent
    /// identity changes nothing. Cycles among references terminate: the
    /// cascade's core is computed to a fixed point over the store, each
    /// thesis joining it at most once.
    pub fn remove_thesis(&mut self, thesis_id: &ObjectId)
        requires
            old(self).wf(),
        ensures
            final(self).wf(),
            final(self).sweater_config@ == old(self).sweater_config@,
            final(self).store@ == survivors(old(self).store@, thesis_id.value),
    {
        let ghost m = self.store@;
        let ghost x = thesis_id.value;
        let mut core: Vec<ObjectId> = Vec::new();
        core.push(*thesis_id);
        proof {
            lemma_core_base(m, x);
            assert(id_values(core@) =~= seq![x]);
            assert(id_values(core@)[0] == x);
            assert(id_values(core@).contains(x));
        }
        let mut changed = true;
        while changed
            invariant
                self.store@ == m,
                self.sweater_config@ == old(self).sweater_config@,
                id_values(core@).no_duplicates(),
                id_values(core@).contains(x),
                core@.len() <= m.len() + 1,
                forall|k: int|
                    0 <= k < core@.len() ==> in_core(m, x, #[trigger] id_values(core@)[k]),
                forall|k: int|
                    0 <= k < core@.len() ==> #[trigger] id_values(core@)[k] == x || contains_id(
                        m,
                        id_values(core@)[k],
                    ),
                !changed ==> core_closed(m, id_values(core@)),
            decreases m.len() + 1 - core@.len(), (if changed {
                1int
            } else {
                0int
            }),
        {
            let ghost core_at_start = core@;
            let mut added = false;
            let n = self.store.theses.len();
            let mut i: usize = 0;
            while i < n
                invariant
                    self.store@ == m,
                    n == m.len(),
                    i <= n,
                    id_values(core@).no_duplicates(),
                    id_values(core@).contains(x),
                    forall|k: int|
                        0 <= k < core@.len() ==> in_core(m, x, #[trigger] id_values(core@)[k]),
                    forall|k: int|
                        0 <= k < core@.len() ==> #[trigger] id_values(core@)[k] == x
                            || contains_id(m, id_values(core@)[k]),
                    !added ==> core@ == core_at_start,
                    added ==> core@.len() > core_at_start.len(),
                    core@.len() >= core_at_start.len(),
                    !added ==> forall|j: int|
                        0 <= j < i && (#[trigger] m[j]).content is Text && (exists|y: u128|
                            #[trigger] m[j].references_id(y) && id_values(core@).contains(y))
                            ==> id_values(core@).contains(m[j].id()),
                decreases n - i,
            {
                let is_text = match &self.store.theses[i].content {
                    Content::Text(_) => true,
                    Content::Relation(_) => false,
                };
                proof {
                    assert(self.store@[i as int] == self.store.theses@[i as int]@);
                    assert(is_text == (m[i as int].content is Text));
                }
                let tid = self.store.theses[i].id();
                if is_text && !ids_contain(&core, &tid) {
                    if references_any(&self.store.theses[i], &core) {
                        let ghost pre = core@;
                        core.push(tid);
                        added = true;
                        proof {
                            assert(tid.value == m[i as int].id());
                            assert(id_values(core@) =~= id_values(pre).push(tid.value));
                            assert forall|k: int| 0 <= k < core@.len() implies in_core(
                                m,
                                x,
                                #[trigger] id_values(core@)[k],
                            ) by {
                                if k < pre.len() {
                                    assert(id_values(core@)[k] == id_values(pre)[k]);
                                } else {
                                    let y = choose|y: u128|
                                        #[trigger] m[i as int].references_id(y) && id_values(
                                            pre,
                                        ).contains(y);
                                    let w = choose|w: int|
                                        0 <= w < id_values(pre).len() && #[trigger] id_values(
                                            pre,
                                        )[w] == y;
                                    lemma_core_step(m, x, i as int, y);
                                }
                            }
                            assert forall|k: int| 0 <= k < core@.len()
                                implies #[trigger] id_values(core@)[k] == x || contains_id(
                                m,
                                id_values(core@)[k],
                            ) by {
                                if k < pre.len() {
                                    assert(id_values(core@)[k] == id_values(pre)[k]);
                                } else {
                                    assert(id_values(core@)[k] == m[i as int].id());
                                    assert(contains_id(m, m[i as int].id()));
                                }
                            }
                            assert(!id_values(pre).contains(tid.value));
                            assert(id_values(core@).no_duplicates()) by {
                                let s = id_values(core@);
                                assert forall|a: int, b: int|
                                    0 <= a < s.len() && 0 <= b < s.len() && a != b implies s[a]
                                    != s[b] by {
                                    let lo = if a < b {
                                        a
                                    } else {
                                        b
                                    };
                                    let hi = if a < b {
                                        b
                                    } else {
                                        a
                                    };
                                    if hi == s.len() - 1 {
                                        assert(s[lo] == id_values(pre)[lo]);
                                        assert(id_values(pre).contains(id_values(pre)[lo]));
                                    } else {
                                        assert(s[lo] == id_values(pre)[lo]);
                                        assert(s[hi] == id_values(pre)[hi]);
                                    }
                                }
                            }
                            assert(id_values(core@)[0] == id_values(pre)[0]);
                            assert(id_values(core@).contains(x)) by {
                                let w = choose|w: int|
                                    0 <= w < id_values(pre).len() && #[trigger] id_values(
                                        pre,
                                    )[w] == x;
                                assert(id_values(core@)[w] == x);
                            }
                        }
                    }
                }
                i = i + 1;
            }
            proof {
                if !added {
                    assert forall|j: int, k: int|
                        0 <= j < m.len() && 0 <= k < id_values(core@).len() && (#[trigger] m[
                        j]).content is Text && m[j].references_id(#[trigger] id_values(core@)[k])
                        implies id_values(core@).contains(m[j].id()) by {
                        assert(m[j].references_id(id_values(core@)[k]) && id_values(
                            core@,
                        ).contains(id_values(core@)[k]));
                    }
                    assert(core_closed(m, id_values(core@)));
                }
                lemma_core_bound(id_values(core@), m, x);
                assert(id_values(core@).len() == core@.len());
            }
            changed = added;
        }
        // The core now holds exactly the cascade's core.
        proof {
            assert forall|v: u128| id_values(core@).contains(v) implies in_core(m, x, v) by {
                let k = choose|k: int|
                    0 <= k < id_values(core@).len() && #[trigger] id_values(core@)[k] == v;
            }
            assert forall|v: u128| in_core(m, x, v) implies id_values(core@).contains(v) by {
                let k = choose|k: nat| crate::cascade::core_upto(m, x, v, k);
                lemma_core_complete(m, x, id_values(core@), v, k);
            }
        }
        // Keep exactly the theses the cascade does not remove.
        let mut kept: Vec<Thesis> = Vec::new();
        let n = self.store.theses.len();
        let mut i: usize = 0;
        while i < n
            invariant
                self.store@ == m,
                n == m.len(),
                i <= n,
                forall|v: u128| #[trigger] id_values(core@).contains(v) <==> in_core(m, x, v),
                kept@.map_values(|t: Thesis| t@) == survivors_upto(m, x, i as int),
            decreases n - i,
        {
            let tid = self.store.theses[i].id();
            let mut removed = ids_contain(&core, &tid);
            match &self.store.theses[i].content {
                Content::Relation(r) => {
                    if ids_contain(&core, &r.from) || ids_contain(&core, &r.to) {
                        removed = true;
                    }
                },
                Content::Text(_) => {},
            }
            proof {
                assert(self.store@[i as int] == self.store.theses@[i as int]@);
                assert(removed == removed_by_cascade(m, x, m[i as int]));
            }
            if !removed {
                kept.push(self.store.theses[i].clone());
                proof {
                    assert(kept@.map_values(|t: Thesis| t@) =~= survivors_upto(m, x, i + 1));
                }
            } else {
                proof {
                    assert(kept@.map_values(|t: Thesis| t@) =~= survivors_upto(m, x, i + 1));
                }
            }
            i = i + 1;
        }
        self.store.theses = kept;
        proof {
            assert(self.store@ == survivors(m, x));
            lemma_survivors_wf(m, x, m.len() as int);
        }
    }

    /// Runs one command of the batch language against the store, by the
    /// operation it names.
    #[verifier::loop_isolation(false)]
    pub fn execute_command(&mut self, command: &Command) -> (r: Result<(), SweaterError>)
        requires
            old(self).wf(),
        ensures
            final(self).wf(),
            final(self).sweater_config@ == old(self).sweater_config@,
            match command@ {
                CommandModel::AddThesis(t) => match insert_check(
                    old(self).store@,
                    t,
                    old(self).sweater_config@,
                ) {
                    Some(e) => r == Err::<(), SweaterError>(e) && final(self).store@ == old(
                        self,
                    ).store@,
                    None => r is Ok && final(self).store@ == old(self).store@.push(
                        inserted_model(t),
                    ),
                },
                CommandModel::RemoveThesis(id) => r is Ok && final(self).store@ == survivors(
                    old(self).store@,
                    id,
                ),
                CommandModel::AddTags(id, tags) => {
                    let folded = spec_tags_fold(old(self).store@, id, tags);
                    final(self).store@ == folded.0 && (match folded.1 {
                        Some(e) => r == Err::<(), SweaterError>(e),
                        None => r is Ok,
                    })
                },
                CommandModel::RemoveTags(id, tags) => {
                    let folded = spec_untags_fold(old(self).store@, id, tags);
                    final(self).store@ == folded.0 && (match folded.1 {
                        Some(e) => r == Err::<(), SweaterError>(e),
                        None => r is Ok,
                    })
                },
                CommandModel::SetAlias(id, a) => match set_alias_check(old(self).store@, id, a) {
                    Some(e) => r == Err::<(), SweaterError>(e) && final(self).store@ == old(
                        self,
                    ).store@,
                    None => r is Ok && final(self).store@ == spec_set_alias(
                        old(self).store@,
                        id,
                        a,
                    ),
                },
            },
    {
        match command {
            Command::AddThesis(thesis) => self.insert_thesis(thesis.clone()),
            Command::RemoveThesis(thesis_id) => {
                self.remove_thesis(thesis_id);
                Ok(())
            },
            Command::AddTags(thesis_id, tags) => {
                let ghost m0 = self.store@;
                let ghost tagsv = tags@.map_values(|t: Tag| t.0@);
                let n = tags.len();
                let mut k: usize = 0;
                proof {
                    assert(tagsv.skip(0) =~= tagsv);
                }
                while k < n
                    invariant
                        n == tags@.len(),
                        k <= n,
                        tagsv == tags@.map_values(|t: Tag| t.0@),
                        self.wf(),
                        self.sweater_config@ == old(self).sweater_config@,
                        spec_tags_fold(m0, thesis_id.value, tagsv) == spec_tags_fold(
                            self.store@,
                            thesis_id.value,
                            tagsv.skip(k as int),
                        ),
                    decreases n - k,
                {
                    proof {
                        assert(tagsv.skip(k as int)[0] == tagsv[k as int]);
                        assert(tagsv[k as int] == tags@[k as int].0@);
                        assert(tagsv.skip(k as int).drop_first() =~= tagsv.skip(k + 1));
                    }
                    match self.tag_thesis(thesis_id, tags[k].clone()) {
                        Ok(_) => {},
                        Err(e) => {
                            return Err(e);
                        },
                    }
                    k = k + 1;
                }
                proof {
                    assert(tagsv.skip(n as int).len() == 0);
                }
                Ok(())
            },
            Command::RemoveTags(thesis_id, tags) => {
                let ghost m0 = self.store@;
                let ghost tagsv = tags@.map_values(|t: Tag| t.0@);
                let n = tags.len();
                let mut k: usize = 0;
                proof {
                    assert(tagsv.skip(0) =~= tagsv);
                }
                while k < n
                    invariant
                        n == tags@.len(),
                        k <= n,
                        tagsv == tags@.map_values(|t: Tag| t.0@),
                        self.wf(),
                        self.sweater_config@ == old(self).sweater_config@,
                        spec_untags_fold(m0, thesis_id.value, tagsv) == spec_untags_fold(
                            self.store@,
                            thesis_id.value,
                            tagsv.skip(k as int),
                        ),
                    decreases n - k,
                {
                    proof {
                        assert(tagsv.skip(k as int)[0] == tagsv[k as int]);
                        assert(tagsv[k as int] == tags@[k as int].0@);
                        assert(tagsv.skip(k as int).drop_first() =~= tagsv.skip(k + 1));
                    }
                    match self.untag_thesis(thesis_id, &tags[k]) {
                        Ok(_) => {},
                        Err(e) => {
                            return Err(e);
                        },
                    }
                    k = k + 1;
                }
                proof {
                    assert(tagsv.skip(n as int).len() == 0);
                }
                Ok(())
            },
            Command::SetAlias(thesis_id, new_alias) => {
                self.set_alias(*thesis_id, new_alias.clone())
            },
        }
    }

    /// Attaches a tag to the named thesis. Idempotent: the tag is appended
    /// only when the thesis does not already carry it.
    pub fn tag_thesis(&mut self, thesis_id: &ObjectId, tag: Tag) -> (r: Result<(), SweaterError>)
        requires
            old(self).wf(),
        ensures
            final(self).wf(),
            final(self).sweater_config@ == old(self).sweater_config@,
            match tag_check(old(self).store@, thesis_id.value, tag@) {
                Some(e) => r == Err::<(), SweaterError>(e) && final(self).store@ == old(
                    self,
                ).store@,
                None => r is Ok && final(self).store@ == spec_tag(
                    old(self).store@,
                    thesis_id.value,
                    tag@,
                ),
            },
    {
        if let Err(e) = tag.validate() {
            return Err(e);
        }
        let i = match self.store.find_index(thesis_id) {
            Some(i) => i,
            None => {
                return Err(SweaterError::UnknownThesis);
            },
        };
        proof {
            lemma_index_of_id(self.store@, thesis_id.value);
            assert(self.store@[i as int] == self.store.theses@[i as int]@);
        }
        if tags_contain(&self.store.theses[i].tags, &tag) {
            proof {
                assert(tag_views(self.store.theses@[i as int].tags@) =~= self.store@[
                    i as int].tags);
                assert(self.store@[i as int].tags.contains(tag@));
                assert(spec_tag(self.store@, thesis_id.value, tag@) == self.store@);
            }
            return Ok(());
        }
        let mut updated = self.store.theses[i].clone();
        updated.tags.push(tag);
        let ghost m = self.store@;
        let ghost t_old = self.store@[i as int];
        let ghost t_new = updated@;
        self.store.theses.set(i, updated);
        proof {
            assert(tag_views(old(self).store.theses@[i as int].tags@) =~= t_old.tags);
            assert(!t_old.tags.contains(tag@));
            assert(t_new.tags =~= t_old.tags.push(tag@));
            assert(t_new == ThesisModel {
                alias: t_old.alias,
                content: t_old.content,
                tags: t_old.tags.push(tag@),
            });
            assert(self.store@ =~= m.update(i as int, t_new));
            assert(self.store@ == spec_tag(old(self).store@, thesis_id.value, tag@));
            assert forall|k: int| 0 <= k < t_new.tags.len()
                implies crate::tag::is_tag_text(#[trigger] t_new.tags[k]) by {
                if k < t_old.tags.len() {
                    assert(t_old.is_valid());
                }
            }
            assert forall|a: int, b: int| 0 <= a < b < t_new.tags.len() implies t_new.tags[a]
                != t_new.tags[b] by {
                if b == t_new.tags.len() - 1 {
                    assert(t_old.tags.contains(t_old.tags[a])) by {
                        assert(t_old.tags[a] == t_old.tags[a]);
                    }
                }
            }
            lemma_update_preserves_wf(m, i as int, t_new);
        }
        Ok(())
    }

    /// Detaches a tag from the named thesis: the first occurrence leaves its
    /// tags, and a tag it does not carry changes nothing.
    pub fn untag_thesis(&mut self, thesis_id: &ObjectId, tag: &Tag) -> (r: Result<
        (),
        SweaterError,
    >)
        requires
            old(self).wf(),
        ensures
            final(self).wf(),
            final(self).sweater_config@ == old(self).sweater_config@,
            if contains_id(old(self).store@, thesis_id.value) {
                r is Ok && final(self).store@ == spec_untag(
                    old(self).store@,
                    thesis_id.value,
                    tag@,
                )
            } else {
                r == Err::<(), SweaterError>(SweaterError::UnknownThesis) && final(self).store@
                    == old(self).store@
            },
    {
        let i = match self.store.find_index(thesis_id) {
            Some(i) => i,
            None => {
                return Err(SweaterError::UnknownThesis);
            },
        };
        proof {
            lemma_index_of_id(self.store@, thesis_id.value);
            assert(self.store@[i as int] == self.store.theses@[i as int]@);
        }
        let ghost m = self.store@;
        let ghost t_old = self.store@[i as int];
        // Find the first occurrence of the tag.
        let tags_ref = &self.store.theses[i].tags;
        let n = tags_ref.len();
        let mut j: usize = 0;
        let mut found = false;
        while j < n && !found
            invariant
                n == tags_ref@.len(),
                j <= n,
                tags_ref@.map_values(|t: Tag| t.0@) == t_old.tags,
                !found ==> forall|k: int| 0 <= k < j ==> #[trigger] t_old.tags[k] != tag@,
                found ==> j < n && t_old.tags[j as int] == tag@ && (forall|k: int|
                    0 <= k < j ==> #[trigger] t_old.tags[k] != tag@),
            decreases n - j + (if found {
                0int
            } else {
                1int
            }),
        {
            if tags_ref[j].0 == tag.0 {
                found = true;
                proof {
                    assert(t_old.tags[j as int] == tags_ref@[j as int].0@);
                }
            } else {
                proof {
                    assert(t_old.tags[j as int] == tags_ref@[j as int].0@);
                }
                j = j + 1;
            }
        }
        if !found {
            proof {
                assert forall|k: int| 0 <= k < t_old.tags.len() implies t_old.tags[k] != tag@ by {}
                assert(!t_old.tags.contains(tag@));
                lemma_remove_first_absent(t_old.tags, tag@);
                assert(ThesisModel {
                    alias: t_old.alias,
                    content: t_old.content,
                    tags: remove_first(t_old.tags, tag@),
                } == t_old);
                assert(spec_untag(m, thesis_id.value, tag@) =~= m);
            }
            return Ok(());
        }
        let mut updated = self.store.theses[i].clone();
        updated.tags.remove(j);
        let ghost t_new = updated@;
        self.store.theses.set(i, updated);
        proof {
            lemma_remove_first_at(t_old.tags, tag@, j as int);
            assert(t_new.tags =~= t_old.tags.remove(j as int));
            assert(t_new == ThesisModel {
                alias: t_old.alias,
                content: t_old.content,
                tags: remove_first(t_old.tags, tag@),
            });
            assert(self.store@ =~= m.update(i as int, t_new));
            assert(self.store@ == spec_untag(old(self).store@, thesis_id.value, tag@));
            lemma_remove_first_subset(t_old.tags, tag@);
            assert forall|k: int| 0 <= k < t_new.tags.len()
                implies crate::tag::is_tag_text(#[trigger] t_new.tags[k]) by {
                assert(t_new.tags.contains(t_new.tags[k]));
                assert(t_old.tags.contains(t_new.tags[k]));
                let w = choose|w: int| 0 <= w < t_old.tags.len() && t_old.tags[w] == t_new.tags[k];
                assert(t_old.is_valid());
            }
            lemma_update_preserves_wf(m, i as int, t_new);
        }
        Ok(())
    }

    /// Replaces the named thesis's alias. Alias uniqueness is enforced: an
    /// alias held by another live thesis is refused with `AliasInUse`.
    pub fn set_alias(&mut self, thesis_id: ObjectId, new_alias: Alias) -> (r: Result<
        (),
        SweaterError,
    >)
        requires
            old(self).wf(),
        ensures
            final(self).wf(),
            final(self).sweater_config@ == old(self).sweater_config@,
            match set_alias_check(old(self).store@, thesis_id.value, new_alias@) {
                Some(e) => r == Err::<(), SweaterError>(e) && final(self).store@ == old(
                    self,
                ).store@,
                None => r is Ok && final(self).store@ == spec_set_alias(
                    old(self).store@,
                    thesis_id.value,
                    new_alias@,
                ),
            },
    {
        if let Err(e) = new_alias.validated() {
            return Err(e);
        }
        let i = match self.store.find_index(&thesis_id) {
            Some(i) => i,
            None => {
                return Err(SweaterError::UnknownThesis);
            },
        };
        proof {
            lemma_index_of_id(self.store@, thesis_id.value);
            assert(self.store@[i as int] == self.store.theses@[i as int]@);
        }
        if let Some(other) = self.store.get_thesis_id_by_alias(&new_alias) {
            if other.value != thesis_id.value {
                return Err(SweaterError::AliasInUse);
            }
        }
        let ghost m = self.store@;
        let ghost t_old = self.store@[i as int];
        let mut updated = self.store.theses[i].clone();
        updated.alias = Some(new_alias);
        let ghost t_new = updated@;
        self.store.theses.set(i, updated);
        proof {
            assert(t_new == ThesisModel {
                alias: Some(new_alias@),
                content: t_old.content,
                tags: t_old.tags,
            });
            assert(self.store@ =~= m.update(i as int, t_new));
            assert(self.store@ == spec_set_alias(old(self).store@, thesis_id.value, new_alias@));
            lemma_set_alias_preserves_wf(m, i as int, thesis_id.value, new_alias@);
        }
        Ok(())
    }
}

/// The identifier values of an identifier vector.
pub open spec fn id_values(s: Seq<ObjectId>) -> Seq<u128> {
    s.map_values(|o: ObjectId| o.value)
}

/// Whether the identifiers hold the given value.
fn ids_contain(ids: &Vec<ObjectId>, id: &ObjectId) -> (r: bool)
    ensures
        r == id_values(ids@).contains(id.value),
{
    let n = ids.len();
    let mut i: usize = 0;
    while i < n
        invariant
            n == ids@.len(),
            i <= n,
            forall|k: int| 0 <= k < i ==> #[trigger] id_values(ids@)[k] != id.value,
        decreases n - i,
    {
        if ids[i].value == id.value {
            proof {
                assert(id_values(ids@)[i as int] == id.value);
            }
            return true;
        }
        proof {
            assert(id_values(ids@)[i as int] == ids@[i as int].value);
        }
        i = i + 1;
    }
    proof {
        if id_values(ids@).contains(id.value) {
            let k = choose|k: int|
                0 <= k < ids@.len() && #[trigger] id_values(ids@)[k] == id.value;
        }
    }
    false
}

/// Whether the thesis references one of the given identifiers.
fn references_any(t: &Thesis, ids: &Vec<ObjectId>) -> (r: bool)
    ensures
        r == exists|y: u128| #[trigger] t@.references_id(y) && id_values(ids@).contains(y),
{
    let refs = t.references();
    let n = refs.len();
    let mut k: usize = 0;
    while k < n
        invariant
            n == refs@.len(),
            k <= n,
            refs@.map_values(|o: ObjectId| o.value) == t@.references(),
            forall|j: int|
                0 <= j < k ==> !id_values(ids@).contains(#[trigger] t@.references()[j]),
        decreases n - k,
    {
        if ids_contain(ids, &refs[k]) {
            proof {
                assert(t@.references()[k as int] == refs@[k as int].value);
                assert(t@.references().contains(refs@[k as int].value));
                assert(t@.references_id(refs@[k as int].value));
            }
            return true;
        }
        proof {
            assert(t@.references()[k as int] == refs@[k as int].value);
        }
        k = k + 1;
    }
    proof {
        if exists|y: u128| #[trigger] t@.references_id(y) && id_values(ids@).contains(y) {
            let y = choose|y: u128| #[trigger] t@.references_id(y) && id_values(ids@).contains(y);
            let j = choose|j: int| 0 <= j < t@.references().len() && t@.references()[j] == y;
        }
    }
    false
}

/// Distinct identifiers drawn from the store and one extra value are no
/// more than the store's size plus one.
proof fn lemma_core_bound(vals: Seq<u128>, m: Seq<ThesisModel>, x: u128)
    requires
        vals.no_duplicates(),
        forall|k: int| 0 <= k < vals.len() ==> #[trigger] vals[k] == x || contains_id(m, vals[k]),
    ensures
        vals.len() <= m.len() + 1,
{
    broadcast use vstd::set::group_set_axioms;
    broadcast use vstd::seq_lib::seq_to_set_is_finite;

    let ids = m.map_values(|t: ThesisModel| t.id());
    vals.unique_seq_to_set();
    ids.lemma_cardinality_of_set();
    assert forall|v: u128| vals.to_set().contains(v) implies ids.to_set().insert(x).contains(
        v,
    ) by {
        if v != x {
            let k = choose|k: int| 0 <= k < vals.len() && vals[k] == v;
            assert(vals[k] == x || contains_id(m, vals[k]));
            let i = choose|i: int| 0 <= i < m.len() && (#[trigger] m[i]).id() == v;
            assert(ids[i] == v);
            assert(ids.contains(v));
        }
    }
    assert(vals.to_set().subset_of(ids.to_set().insert(x)));
    vstd::set_lib::lemma_len_subset(vals.to_set(), ids.to_set().insert(x));
}

/// A permitted alias change keeps the store well-formed: the alias is valid
/// and is held by no other live thesis.
proof fn lemma_set_alias_preserves_wf(m: Seq<ThesisModel>, i: int, id: u128, name: Seq<char>)
    requires
        store_wf(m),
        0 <= i < m.len(),
        m[i].id() == id,
        is_alias_text(name),
        set_alias_check(m, id, name) is None,
    ensures
        store_wf(
            m.update(i, ThesisModel { alias: Some(name), content: m[i].content, tags: m[i].tags }),
        ),
{
    let t2 = ThesisModel { alias: Some(name), content: m[i].content, tags: m[i].tags };
    let n = m.update(i, t2);
    lemma_alias_lookup(m, name);
    lemma_index_of_id(m, id);
    assert forall|a: int, b: int| 0 <= a < b < n.len() implies (#[trigger] n[a]).id()
        != (#[trigger] n[b]).id() by {
        assert(m[a].id() == n[a].id());
        assert(m[b].id() == n[b].id());
    }
    assert forall|a: int, b: int|
        0 <= a < b < n.len() && (#[trigger] n[a]).alias is Some && (#[trigger] n[b]).alias is Some
        implies n[a].alias != n[b].alias by {
        if a != i && b != i {
            assert(m[a].alias == n[a].alias);
            assert(m[b].alias == n[b].alias);
        } else {
            let o: int = if a == i {
                b
            } else {
                a
            };
            assert(m[o].alias == n[o].alias);
            if m[o].alias == Some(name) {
                match alias_lookup(m, name) {
                    Some(other) => {
                        // The first holder is the thesis itself, so by alias
                        // uniqueness of the old store no other thesis holds
                        // the name.
                        let w = choose|w: int|
                            0 <= w < m.len() && (#[trigger] m[w]).alias == Some(name) && m[w].id()
                                == other;
                        assert(other == id);
                        assert(m[w].id() == m[i].id());
                        assert(w == i);
                    },
                    None => {},
                }
            }
        }
    }
}

/// Two snapshots with the same identities in the same places index alike.
proof fn lemma_index_of_same_ids(a: Seq<ThesisModel>, b: Seq<ThesisModel>, id: u128)
    requires
        a.len() == b.len(),
        forall|k: int| 0 <= k < a.len() ==> (#[trigger] a[k]).id() == (#[trigger] b[k]).id(),
    ensures
        index_of_id(a, id) == index_of_id(b, id),
    decreases a.len(),
{
    if a.len() > 0 {
        assert(a[0].id() == b[0].id());
        lemma_index_of_same_ids(a.drop_first(), b.drop_first(), id);
        assert forall|k: int| 0 <= k < a.drop_first().len() implies (#[trigger] a.drop_first()[
            k]).id() == (#[trigger] b.drop_first()[k]).id() by {
            assert(a.drop_first()[k] == a[k + 1]);
            assert(b.drop_first()[k] == b[k + 1]);
        }
    }
}

/// Law: tagging a thesis twice with one tag has the same effect as tagging
/// it once.
pub proof fn lemma_tag_idempotent(m: Seq<ThesisModel>, id: u128, tag: Seq<char>)
    ensures
        spec_tag(spec_tag(m, id, tag), id, tag) == spec_tag(m, id, tag),
{
    let m1 = spec_tag(m, id, tag);
    let i = index_of_id(m, id);
    lemma_index_of_id(m, id);
    if i >= 0 {
        if !m[i].tags.contains(tag) {
            assert forall|k: int| 0 <= k < m.len() implies (#[trigger] m[k]).id()
                == (#[trigger] m1[k]).id() by {}
            lemma_index_of_same_ids(m, m1, id);
            assert(m1[i].tags.last() == tag);
            assert(m1[i].tags.contains(tag));
            assert(spec_tag(m1, id, tag) == m1);
        }
    }
}

/// A tag sequence without `tag` is left alone by removing it.
proof fn lemma_remove_first_absent(tags: Seq<Seq<char>>, tag: Seq<char>)
    requires
        !tags.contains(tag),
    ensures
        remove_first(tags, tag) == tags,
    decreases tags.len(),
{
    if tags.len() > 0 {
        assert(tags[0] != tag);
        assert forall|k: int| 0 <= k < tags.drop_first().len() implies tags.drop_first()[k]
            != tag by {
            assert(tags.drop_first()[k] == tags[k + 1]);
        }
        assert(!tags.drop_first().contains(tag));
        lemma_remove_first_absent(tags.drop_first(), tag);
        assert(remove_first(tags, tag) =~= tags);
    }
}

/// Law: untagging a thesis with a tag it does not carry leaves the store
/// unchanged.
pub proof fn lemma_untag_absent(m: Seq<ThesisModel>, id: u128, tag: Seq<char>)
    requires
        index_of_id(m, id) < 0 || !m[index_of_id(m, id)].tags.contains(tag),
    ensures
        spec_untag(m, id, tag) == m,
{
    let i = index_of_id(m, id);
    if i >= 0 {
        lemma_index_of_id(m, id);
        lemma_remove_first_absent(m[i].tags, tag);
        assert(ThesisModel {
            alias: m[i].alias,
            content: m[i].content,
            tags: remove_first(m[i].tags, tag),
        } == m[i]);
        assert(spec_untag(m, id, tag) =~= m);
    }
}

/// Removing the first occurrence, named by its index, removes that index.
proof fn lemma_remove_first_at(tags: Seq<Seq<char>>, tag: Seq<char>, j: int)
    requires
        0 <= j < tags.len(),
        tags[j] == tag,
        forall|k: int| 0 <= k < j ==> tags[k] != tag,
    ensures
        remove_first(tags, tag) == tags.remove(j),
    decreases j,
{
    if j == 0 {
        assert(remove_first(tags, tag) == tags.drop_first());
        assert(tags.drop_first() =~= tags.remove(0));
    } else {
        assert(tags[0] != tag);
        assert(tags.drop_first()[j - 1] == tags[j]);
        assert forall|k: int| 0 <= k < j - 1 implies tags.drop_first()[k] != tag by {
            assert(tags.drop_first()[k] == tags[k + 1]);
        }
        lemma_remove_first_at(tags.drop_first(), tag, j - 1);
        assert(seq![tags[0]] + tags.drop_first().remove(j - 1) =~= tags.remove(j));
    }
}

/// Removing a tag keeps the remaining tags a subset of the old ones.
proof fn lemma_remove_first_subset(tags: Seq<Seq<char>>, tag: Seq<char>)
    ensures
        forall|t: Seq<char>| remove_first(tags, tag).contains(t) ==> tags.contains(t),
        tags_unique(tags) ==> tags_unique(remove_first(tags, tag)),
{
    if tags.contains(tag) {
        lemma_first_occurrence(tags, tag);
        let jj = choose|j: int|
            0 <= j < tags.len() && tags[j] == tag && (forall|k: int| 0 <= k < j ==> tags[k] != tag);
        lemma_remove_first_at(tags, tag, jj);
        assert forall|t: Seq<char>| remove_first(tags, tag).contains(t) implies tags.contains(
            t,
        ) by {
            let k = choose|k: int|
                0 <= k < tags.remove(jj).len() && tags.remove(jj)[k] == t;
            if k < jj {
                assert(tags[k] == t);
            } else {
                assert(tags[k + 1] == t);
            }
        }
        if tags_unique(tags) {
            assert forall|a: int, b: int| 0 <= a < b < tags.remove(jj).len() implies tags.remove(
                jj,
            )[a] != tags.remove(jj)[b] by {
                let a2: int = if a < jj {
                    a
                } else {
                    a + 1
                };
                let b2: int = if b < jj {
                    b
                } else {
                    b + 1
                };
                assert(tags.remove(jj)[a] == tags[a2]);
                assert(tags.remove(jj)[b] == tags[b2]);
            }
        }
    } else {
        lemma_remove_first_absent(tags, tag);
    }
}

/// A sequence containing a value has a first occurrence of it.
proof fn lemma_first_occurrence(tags: Seq<Seq<char>>, tag: Seq<char>)
    requires
        tags.contains(tag),
    ensures
        exists|j: int|
            0 <= j < tags.len() && tags[j] == tag && (forall|k: int| 0 <= k < j ==> tags[k] != tag),
    decreases tags.len(),
{
    if tags[0] == tag {
        assert(0 <= 0 < tags.len() && tags[0] == tag && (forall|k: int|
            0 <= k < 0 ==> tags[k] != tag));
    } else {
        let i = choose|i: int| 0 <= i < tags.len() && tags[i] == tag;
        assert(tags.drop_first()[i - 1] == tag);
        assert(tags.drop_first().contains(tag));
        lemma_first_occurrence(tags.drop_first(), tag);
        let j = choose|j: int|
            0 <= j < tags.drop_first().len() && tags.drop_first()[j] == tag && (forall|k: int|
                0 <= k < j ==> tags.drop_first()[k] != tag);
        assert(tags[j + 1] == tag);
        assert forall|k: int| 0 <= k < j + 1 implies tags[k] != tag by {
            if k > 0 {
                assert(tags.drop_first()[k - 1] == tags[k]);
            }
        }
    }
}

/// An update that keeps a thesis's identity and alias, stays valid and keeps
/// its tags a set, keeps the store well-formed.
proof fn lemma_update_preserves_wf(m: Seq<ThesisModel>, i: int, t2: ThesisModel)
    requires
        store_wf(m),
        0 <= i < m.len(),
        t2.id() == m[i].id(),
        t2.alias == m[i].alias,
        t2.is_valid(),
        tags_unique(t2.tags),
    ensures
        store_wf(m.update(i, t2)),
{
    let n = m.update(i, t2);
    assert forall|a: int, b: int| 0 <= a < b < n.len() implies (#[trigger] n[a]).id()
        != (#[trigger] n[b]).id() by {
        assert(m[a].id() == n[a].id());
        assert(m[b].id() == n[b].id());
    }
    assert forall|a: int, b: int|
        0 <= a < b < n.len() && (#[trigger] n[a]).alias is Some && (#[trigger] n[b]).alias is Some
        implies n[a].alias != n[b].alias by {
        assert(m[a].alias == n[a].alias);
        assert(m[b].alias == n[b].alias);
    }
}

/// Whether the tags hold the given tag.
fn tags_contain(tags: &Vec<Tag>, tag: &Tag) -> (r: bool)
    ensures
        r == tag_views(tags@).contains(tag.0@),
{
    let n = tags.len();
    let mut i: usize = 0;
    while i < n
        invariant
            n == tags@.len(),
            i <= n,
            forall|k: int| 0 <= k < i ==> #[trigger] tag_views(tags@)[k] != tag.0@,
        decreases n - i,
    {
        if tags[i].0 == tag.0 {
            proof {
                assert(tag_views(tags@)[i as int] == tag.0@);
            }
            return true;
        }
        proof {
            assert(tag_views(tags@)[i as int] == tags@[i as int].0@);
        }
        i = i + 1;
    }
    proof {
        if tag_views(tags@).contains(tag.0@) {
            let k = choose|k: int| 0 <= k < tags@.len() && #[trigger] tag_views(tags@)[k] == tag.0@;
        }
    }
    false
}

/// A successful insertion keeps the store well-formed.
proof fn lemma_insert_preserves_wf(m: Seq<ThesisModel>, t: ThesisModel, kinds: Seq<Seq<char>>)
    requires
        store_wf(m),
        insert_check(m, t, kinds) is None,
    ensures
        store_wf(m.push(inserted_model(t))),
{
    let n = m.push(inserted_model(t));
    lemma_dedup_tags(t.tags);
    assert(inserted_model(t).id() == t.id());
    assert forall|i: int, j: int| 0 <= i < j < n.len() implies (#[trigger] n[i]).id()
        != (#[trigger] n[j]).id() by {
        if j == n.len() - 1 {
            assert(n[j] == inserted_model(t));
            if n[i].id() == t.id() {
                assert(m[i] == n[i]);
                assert(contains_id(m, t.id()));
            }
        }
    }
    assert forall|i: int| 0 <= i < n.len() implies (#[trigger] n[i]).is_valid() by {
        if i == n.len() - 1 {
            assert(t.is_valid());
            assert forall|k: int| 0 <= k < inserted_model(t).tags.len()
                implies crate::tag::is_tag_text(#[trigger] inserted_model(t).tags[k]) by {
                assert(dedup_tags(t.tags).contains(dedup_tags(t.tags)[k]));
                assert(t.tags.contains(dedup_tags(t.tags)[k]));
                let j = choose|j: int|
                    0 <= j < t.tags.len() && t.tags[j] == dedup_tags(t.tags)[k];
            }
        } else {
            assert(m[i] == n[i]);
        }
    }
    assert forall|i: int| 0 <= i < n.len() implies tags_unique((#[trigger] n[i]).tags) by {
        if i < n.len() - 1 {
            assert(m[i] == n[i]);
        }
    }
    if t.alias is Some {
        lemma_alias_lookup(m, t.alias->0);
    }
    assert forall|i: int, j: int|
        0 <= i < j < n.len() && (#[trigger] n[i]).alias is Some && (#[trigger] n[j]).alias is Some
        implies n[i].alias != n[j].alias by {
        if j == n.len() - 1 {
            assert(m[i] == n[i]);
        }
    }
}

} // verus!
