//! The store facade: configuration, lifecycle, and scoped transactions.
//!
//! Ownership stands in for locking: taking the sweater by value into a write
//! transaction is the exclusive write lock, and borrowing it into a read
//! transaction is the shared read lock. Committing the write transaction
//! returns the sweater.

use vstd::prelude::*;
use crate::alias::Alias;
use crate::ids::ObjectId;
use crate::relation::RelationKind;
use crate::store::{alias_lookup, referencers, spec_get, Store};
use crate::thesis::{Thesis, ThesisModel};
use crate::write::WriteTransaction;

verus! {

/// Configuration: the set of relation kinds that insertion accepts.
pub struct SweaterConfig {
    pub supported_relations_kinds: Vec<RelationKind>,
}

impl View for SweaterConfig {
    type V = Seq<Seq<char>>;

    open spec fn view(&self) -> Seq<Seq<char>> {
        self.supported_relations_kinds@.map_values(|k: RelationKind| k.0@)
    }
}

impl Clone for SweaterConfig {
    fn clone(&self) -> (r: Self)
        ensures
            r@ == self@,
    {
        let r = SweaterConfig {
            supported_relations_kinds: self.supported_relations_kinds.clone(),
        };
        proof {
            assert forall|i: int| 0 <= i < self.supported_relations_kinds@.len()
                implies #[trigger] r.supported_relations_kinds@[i]
                == self.supported_relations_kinds@[i] by {}
            assert(r.supported_relations_kinds@ =~= self.supported_relations_kinds@);
            assert(r@ =~= self@);
        }
        r
    }
}

/// The knowledge store: the live theses and the configuration.
pub struct Sweater {
    pub store: Store,
    pub config: SweaterConfig,
}

/// A snapshot read view of the store.
pub struct ReadTransaction<'a> {
    pub store: &'a Store,
    pub sweater_config: &'a SweaterConfig,
}

impl Sweater {
    /// Well-formedness: the store is.
    pub open spec fn wf(&self) -> bool {
        self.store.wf()
    }

    /// A sweater with an empty store.
    pub fn new(config: SweaterConfig) -> (r: Sweater)
        ensures
            r.store@ == Seq::<ThesisModel>::empty(),
            r.config@ == config@,
            r.wf(),
    {
        Sweater { store: Store::new(), config }
    }

    /// Exclusive write access: consumes the sweater, standing in for the
    /// writer's lock. `commit` on the transaction gives the sweater back.
    pub fn lock_all_and_write(self) -> (tx: WriteTransaction)
        ensures
            tx.store@ == self.store@,
            tx.sweater_config@ == self.config@,
    {
        WriteTransaction { store: self.store, sweater_config: self.config }
    }

    /// Shared read access: borrows the sweater, standing in for the readers'
    /// lock.
    pub fn lock_all_writes_and_read(&self) -> (tx: ReadTransaction<'_>)
        ensures
            tx.store@ == self.store@,
            tx.sweater_config@ == self.config@,
    {
        ReadTransaction { store: &self.store, sweater_config: &self.config }
    }
}

impl<'a> ReadTransaction<'a> {
    /// The stored thesis with the given identity, when there is one.
    pub fn get_thesis(&self, thesis_id: &ObjectId) -> (r: Option<Thesis>)
        ensures
            match spec_get(self.store@, thesis_id.value) {
                Some(t) => r is Some && r->0@ == t,
                None => r is None,
            },
    {
        self.store.get_thesis(thesis_id)
    }

    /// The identity of the thesis holding the given alias, when one does.
    pub fn get_thesis_id_by_alias(&self, alias: &Alias) -> (r: Option<ObjectId>)
        ensures
            match r {
                Some(id) => alias_lookup(self.store@, alias@) == Some(id.value),
                None => alias_lookup(self.store@, alias@) is None,
            },
    {
        self.store.get_thesis_id_by_alias(alias)
    }

    /// The alias of the thesis with the given identity, when the thesis is
    /// stored and has one.
    pub fn get_alias_by_thesis_id(&self, thesis_id: &ObjectId) -> (r: Option<Alias>)
        ensures
            match spec_get(self.store@, thesis_id.value) {
                Some(t) => match r {
                    Some(a) => t.alias == Some(a@),
                    None => t.alias is None,
                },
                None => r is None,
            },
    {
        self.store.get_alias_by_thesis_id(thesis_id)
    }

    /// The identities of all theses that reference the given identity.
    pub fn where_referenced(&self, thesis_id: &ObjectId) -> (r: Vec<ObjectId>)
        ensures
            r@.map_values(|o: ObjectId| o.value) == referencers(self.store@, thesis_id.value),
    {
        self.store.where_referenced(thesis_id)
    }

    /// All stored theses, in store order.
    pub fn iter_theses(&self) -> (r: Vec<Thesis>)
        ensures
            r@.map_values(|t: Thesis| t@) == self.store@,
    {
        self.store.iter_theses()
    }
}

} // verus!
