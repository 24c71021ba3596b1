//! The alias resolver: a read view of the store together with the aliases
//! bound earlier in the current batch. In-batch bindings take precedence
//! over the store, and a later binding of the same alias wins.

use vstd::prelude::*;
use crate::alias::Alias;
use crate::errors::SweaterError;
use crate::ids::ObjectId;
use crate::reference::Reference;
use crate::store::{alias_lookup, contains_id, lemma_index_of_id, Store};
use crate::thesis::ThesisModel;

verus! {

/// The identifier bound to `name` among the in-batch bindings: the last
/// binding of the name wins.
pub open spec fn binding_lookup(known: Seq<(Seq<char>, u128)>, name: Seq<char>) -> Option<u128>
    decreases known.len(),
{
    if known.len() == 0 {
        None
    } else if known.last().0 == name {
        Some(known.last().1)
    } else {
        binding_lookup(known.drop_last(), name)
    }
}

/// What an alias resolves to against a store snapshot and the in-batch
/// bindings: the binding when there is one, otherwise the store's alias
/// index.
pub open spec fn state_resolve_alias(
    m: Seq<ThesisModel>,
    known: Seq<(Seq<char>, u128)>,
    name: Seq<char>,
) -> Option<u128> {
    match binding_lookup(known, name) {
        Some(v) => Some(v),
        None => alias_lookup(m, name),
    }
}

/// Resolves references against a read view of the store and the aliases
/// bound earlier in the current batch.
pub struct AliasesResolver<'a> {
    pub read_able_transaction: &'a Store,
    pub known_aliases: Vec<(Alias, ObjectId)>,
}

impl<'a> AliasesResolver<'a> {
    /// A resolver over the given read view, with no bindings yet.
    pub fn new(read_able_transaction: &'a Store) -> (r: AliasesResolver<'a>)
        ensures
            r.read_able_transaction@ == read_able_transaction@,
            r.bindings() =~= Seq::<(Seq<char>, u128)>::empty(),
    {
        AliasesResolver { read_able_transaction, known_aliases: Vec::new() }
    }

    /// The in-batch bindings, in the order they were made.
    pub open spec fn bindings(&self) -> Seq<(Seq<char>, u128)> {
        self.known_aliases@.map_values(|p: (Alias, ObjectId)| (p.0@, p.1.value))
    }

    /// What an alias resolves to: the in-batch binding when there is one,
    /// otherwise the store's alias index.
    pub open spec fn resolve_alias_spec(&self, name: Seq<char>) -> Option<u128> {
        state_resolve_alias(self.read_able_transaction@, self.bindings(), name)
    }

    /// The identifier a reference names. An identifier reference must be
    /// stored; an alias is looked up first among the in-batch bindings and
    /// then in the store's alias index.
    #[verifier::loop_isolation(false)]
    pub fn get_thesis_id_by_reference(&self, reference: &Reference) -> (r: Result<
        ObjectId,
        SweaterError,
    >)
        ensures
            match reference {
                Reference::ObjectId(oid) => {
                    if contains_id(self.read_able_transaction@, oid.value) {
                        r is Ok && r->Ok_0 == *oid
                    } else {
                        r == Err::<ObjectId, SweaterError>(SweaterError::UnknownThesis)
                    }
                },
                Reference::Alias(a) => {
                    match self.resolve_alias_spec(a@) {
                        Some(v) => r is Ok && r->Ok_0.value == v,
                        None => r == Err::<ObjectId, SweaterError>(SweaterError::UnknownAlias),
                    }
                },
            },
    {
        match reference {
            Reference::ObjectId(oid) => {
                match self.read_able_transaction.find_index(oid) {
                    Some(_) => {
                        proof {
                            lemma_index_of_id(self.read_able_transaction@, oid.value);
                        }
                        Ok(*oid)
                    },
                    None => Err(SweaterError::UnknownThesis),
                }
            },
            Reference::Alias(a) => {
                let s = &self.known_aliases;
                let mut j: usize = s.len();
                proof {
                    assert(self.bindings().take(j as int) =~= self.bindings());
                }
                while j > 0
                    invariant
                        j <= s@.len(),
                        binding_lookup(self.bindings(), a@) == binding_lookup(
                            self.bindings().take(j as int),
                            a@,
                        ),
                    decreases j,
                {
                    j = j - 1;
                    proof {
                        assert(self.bindings().take(j + 1).last() == self.bindings()[j as int]);
                        assert(self.bindings()[j as int] == (s@[j as int].0@, s@[
                            j as int].1.value));
                    }
                    if s[j].0 .0 == a.0 {
                        proof {
                            assert(binding_lookup(self.bindings().take(j + 1), a@) == Some(
                                s@[j as int].1.value,
                            ));
                        }
                        return Ok(s[j].1);
                    }
                    proof {
                        assert(self.bindings().take(j + 1).drop_last() =~= self.bindings().take(
                            j as int,
                        ));
                    }
                }
                proof {
                    assert(self.bindings().take(0).len() == 0);
                    assert(binding_lookup(self.bindings(), a@) is None);
                }
                match self.read_able_transaction.get_thesis_id_by_alias(a) {
                    Some(id) => Ok(id),
                    None => Err(SweaterError::UnknownAlias),
                }
            },
        }
    }

    /// Binds an alias for the remainder of the batch, shadowing the store
    /// and any earlier binding of the same alias.
    pub fn remember(&mut self, alias: Alias, object_id: ObjectId)
        ensures
            final(self).bindings() == old(self).bindings().push((alias@, object_id.value)),
            final(self).read_able_transaction@ == old(self).read_able_transaction@,
    {
        self.known_aliases.push((alias, object_id));
        proof {
            assert(self.bindings() =~= old(self).bindings().push((alias@, object_id.value)));
        }
    }
}

} // verus!
