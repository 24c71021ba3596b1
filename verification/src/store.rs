//! The store of live theses and its snapshot reads.
//!
//! The store holds the live theses in insertion order. Its well-formedness
//! ties every invariant of the data model together: identifiers are the
//! content hashes and are unique, every thesis is syntactically valid, tags
//! are sets, and no two live theses share an alias.

use vstd::prelude::*;
use crate::alias::Alias;
use crate::errors::SweaterError;
use crate::ids::ObjectId;
use crate::thesis::{Thesis, ThesisModel};

verus! {

/// Whether some thesis in `m` has identity `id`.
pub open spec fn contains_id(m: Seq<ThesisModel>, id: u128) -> bool {
    exists|i: int| 0 <= i < m.len() && (#[trigger] m[i]).id() == id
}

/// The first index holding identity `id`, or -1.
pub open spec fn index_of_id(m: Seq<ThesisModel>, id: u128) -> int
    decreases m.len(),
{
    if m.len() == 0 {
        -1
    } else if m[0].id() == id {
        0
    } else {
        let r = index_of_id(m.drop_first(), id);
        if r < 0 {
            -1
        } else {
            r + 1
        }
    }
}

/// The stored thesis with identity `id`, when there is one.
pub open spec fn spec_get(m: Seq<ThesisModel>, id: u128) -> Option<ThesisModel> {
    if index_of_id(m, id) >= 0 {
        Some(m[index_of_id(m, id)])
    } else {
        None
    }
}

/// What `index_of_id` returns: a hit is the first one, a miss means no
/// thesis has the identity.
pub proof fn lemma_index_of_id(m: Seq<ThesisModel>, id: u128)
    ensures
        index_of_id(m, id) == -1 ==> !contains_id(m, id),
        index_of_id(m, id) >= 0 ==> 0 <= index_of_id(m, id) < m.len() && m[index_of_id(m, id)].id()
            == id && (forall|k: int| 0 <= k < index_of_id(m, id) ==> (#[trigger] m[k]).id() != id),
        contains_id(m, id) ==> index_of_id(m, id) >= 0,
    decreases m.len(),
{
    if m.len() > 0 && m[0].id() != id {
        let d = m.drop_first();
        lemma_index_of_id(d, id);
        let r = index_of_id(m, id);
        if r >= 0 {
            assert(index_of_id(d, id) == r - 1);
            assert(m[r] == d[r - 1]);
            assert forall|k: int| 0 <= k < r implies (#[trigger] m[k]).id() != id by {
                if k > 0 {
                    assert(m[k] == d[k - 1]);
                }
            }
        }
        assert forall|i: int| 0 <= i < m.len() && (#[trigger] m[i]).id() == id implies index_of_id(
            m,
            id,
        ) >= 0 by {
            assert(d[i - 1] == m[i]);
        }
    }
}

/// The identity of the first thesis holding alias `name`, when one does.
pub open spec fn alias_lookup(m: Seq<ThesisModel>, name: Seq<char>) -> Option<u128>
    decreases m.len(),
{
    if m.len() == 0 {
        None
    } else if m[0].alias == Some(name) {
        Some(m[0].id())
    } else {
        alias_lookup(m.drop_first(), name)
    }
}

/// What `alias_lookup` returns: a hit names a stored thesis holding the
/// alias, a miss means no stored thesis holds it.
pub proof fn lemma_alias_lookup(m: Seq<ThesisModel>, name: Seq<char>)
    ensures
        match alias_lookup(m, name) {
            Some(id) => exists|i: int|
                0 <= i < m.len() && (#[trigger] m[i]).alias == Some(name) && m[i].id() == id,
            None => forall|i: int| 0 <= i < m.len() ==> (#[trigger] m[i]).alias != Some(name),
        },
    decreases m.len(),
{
    if m.len() > 0 && m[0].alias != Some(name) {
        lemma_alias_lookup(m.drop_first(), name);
        match alias_lookup(m, name) {
            Some(id) => {
                let i = choose|i: int|
                    0 <= i < m.drop_first().len() && (#[trigger] m.drop_first()[i]).alias == Some(
                        name,
                    ) && m.drop_first()[i].id() == id;
                assert(m[i + 1] == m.drop_first()[i]);
            },
            None => {
                assert forall|i: int| 0 <= i < m.len() implies (#[trigger] m[i]).alias != Some(
                    name,
                ) by {
                    if i > 0 {
                        assert(m.drop_first()[i - 1] == m[i]);
                    }
                }
            },
        }
    }
}

/// Whether a tag sequence is a set: no duplicates.
pub open spec fn tags_unique(tags: Seq<Seq<char>>) -> bool {
    forall|a: int, b: int| 0 <= a < b < tags.len() ==> tags[a] != tags[b]
}

/// Whether no two theses share an alias.
pub open spec fn aliases_unique(m: Seq<ThesisModel>) -> bool {
    forall|i: int, j: int|
        0 <= i < j < m.len() && (#[trigger] m[i]).alias is Some && (#[trigger] m[j]).alias is Some
            ==> m[i].alias != m[j].alias
}

/// Well-formedness of a store snapshot: identities are unique, every thesis
/// is valid, tags are sets, aliases are unique.
pub open spec fn store_wf(m: Seq<ThesisModel>) -> bool {
    &&& forall|i: int, j: int| 0 <= i < j < m.len() ==> (#[trigger] m[i]).id() != (#[trigger] m[j]).id()
    &&& forall|i: int| 0 <= i < m.len() ==> (#[trigger] m[i]).is_valid()
    &&& forall|i: int| 0 <= i < m.len() ==> tags_unique((#[trigger] m[i]).tags)
    &&& aliases_unique(m)
}

/// The identities of the theses that reference `x`, among the first `i`
/// theses, in store order.
pub open spec fn referencers_upto(m: Seq<ThesisModel>, x: u128, i: int) -> Seq<u128>
    decreases i,
{
    if i <= 0 || i > m.len() {
        Seq::empty()
    } else {
        referencers_upto(m, x, i - 1) + (if m[i - 1].references_id(x) {
            seq![m[i - 1].id()]
        } else {
            Seq::empty()
        })
    }
}

/// The identities of all theses that reference `x`, in store order.
pub open spec fn referencers(m: Seq<ThesisModel>, x: u128) -> Seq<u128> {
    referencers_upto(m, x, m.len() as int)
}

/// Every identity in `referencers` belongs to a stored thesis referencing
/// `x`, and every stored thesis referencing `x` contributes its identity.
pub proof fn lemma_referencers(m: Seq<ThesisModel>, x: u128, i: int)
    requires
        0 <= i <= m.len(),
    ensures
        forall|k: int|
            0 <= k < referencers_upto(m, x, i).len() ==> exists|j: int|
                0 <= j < i && (#[trigger] m[j]).references_id(x) && m[j].id()
                    == #[trigger] referencers_upto(m, x, i)[k],
        forall|j: int|
            0 <= j < i && (#[trigger] m[j]).references_id(x) ==> referencers_upto(
                m,
                x,
                i,
            ).contains(m[j].id()),
    decreases i,
{
    if i > 0 {
        lemma_referencers(m, x, i - 1);
        let prev = referencers_upto(m, x, i - 1);
        assert forall|k: int| 0 <= k < referencers_upto(m, x, i).len() implies exists|j: int|
            0 <= j < i && (#[trigger] m[j]).references_id(x) && m[j].id()
                == #[trigger] referencers_upto(m, x, i)[k] by {
            if k < prev.len() {
                assert(referencers_upto(m, x, i)[k] == prev[k]);
                let j = choose|j: int|
                    0 <= j < i - 1 && (#[trigger] m[j]).references_id(x) && m[j].id()
                        == referencers_upto(m, x, i - 1)[k];
                assert(0 <= j < i && m[j].references_id(x) && m[j].id() == referencers_upto(
                    m,
                    x,
                    i,
                )[k]);
            } else {
                assert(m[i - 1].references_id(x));
                assert(referencers_upto(m, x, i)[k] == m[i - 1].id());
                assert(0 <= i - 1 < i && m[i - 1].references_id(x) && m[i - 1].id()
                    == referencers_upto(m, x, i)[k]);
            }
        }
        assert forall|j: int| 0 <= j < i && (#[trigger] m[j]).references_id(x)
            implies referencers_upto(m, x, i).contains(m[j].id()) by {
            if j < i - 1 {
                let prev = referencers_upto(m, x, i - 1);
                let k = choose|k: int| 0 <= k < prev.len() && prev[k] == m[j].id();
                assert(referencers_upto(m, x, i)[k] == m[j].id());
            } else {
                assert(referencers_upto(m, x, i)[referencers_upto(m, x, i).len() - 1] == m[
                    j].id());
            }
        }
    }
}

/// The store of live theses.
pub struct Store {
    pub theses: Vec<Thesis>,
}

impl View for Store {
    type V = Seq<ThesisModel>;

    open spec fn view(&self) -> Seq<ThesisModel> {
        self.theses@.map_values(|t: Thesis| t@)
    }
}

impl Store {
    /// Well-formedness of this store.
    pub open spec fn wf(&self) -> bool {
        store_wf(self@)
    }

    /// An empty store.
    pub fn new() -> (r: Store)
        ensures
            r@ == Seq::<ThesisModel>::empty(),
            r.wf(),
    {
        let r = Store { theses: Vec::new() };
        proof {
            assert(r@ =~= Seq::<ThesisModel>::empty());
        }
        r
    }

    /// The index of the thesis with the given identity, when it is stored.
    pub(crate) fn find_index(&self, id: &ObjectId) -> (r: Option<usize>)
        ensures
            match r {
                Some(i) => i as int == index_of_id(self@, id.value) && i < self@.len(),
                None => !contains_id(self@, id.value),
            },
    {
        let n = self.theses.len();
        let mut i: usize = 0;
        while i < n
            invariant
                n == self@.len(),
                i <= n,
                forall|k: int| 0 <= k < i ==> (#[trigger] self@[k]).id() != id.value,
            decreases n - i,
        {
            let tid = self.theses[i].id();
            if tid.value == id.value {
                proof {
                    assert(self@[i as int] == self.theses@[i as int]@);
                    assert((self@[i as int]).id() == id.value);
                    lemma_index_of_id(self@, id.value);
                    assert(contains_id(self@, id.value));
                    assert(index_of_id(self@, id.value) == i);
                }
                return Some(i);
            }
            proof {
                assert(self@[i as int] == self.theses@[i as int]@);
            }
            i = i + 1;
        }
        proof {
            assert(!contains_id(self@, id.value));
        }
        None
    }

    /// The stored thesis with the given identity, when there is one.
    pub fn get_thesis(&self, thesis_id: &ObjectId) -> (r: Option<Thesis>)
        ensures
            match spec_get(self@, thesis_id.value) {
                Some(t) => r is Some && r->0@ == t,
                None => r is None,
            },
    {
        match self.find_index(thesis_id) {
            Some(i) => {
                proof {
                    lemma_index_of_id(self@, thesis_id.value);
                }
                Some(self.theses[i].clone())
            },
            None => {
                proof {
                    lemma_index_of_id(self@, thesis_id.value);
                }
                None
            },
        }
    }

    /// The identity of the thesis holding the given alias, when one does.
    /// By alias uniqueness there is at most one.
    pub fn get_thesis_id_by_alias(&self, alias: &Alias) -> (r: Option<ObjectId>)
        ensures
            match r {
                Some(id) => alias_lookup(self@, alias@) == Some(id.value),
                None => alias_lookup(self@, alias@) is None,
            },
    {
        let n = self.theses.len();
        proof {
            assert(self@.skip(0) =~= self@);
        }
        let mut i: usize = 0;
        while i < n
            invariant
                n == self@.len(),
                i <= n,
                alias_lookup(self@, alias@) == alias_lookup(self@.skip(i as int), alias@),
            decreases n - i,
        {
            let found: bool;
            match &self.theses[i].alias {
                Some(a) => {
                    found = a.0 == alias.0;
                    proof {
                        assert(self@[i as int] == self.theses@[i as int]@);
                        assert(self@[i as int].alias == Some(a.0@));
                        assert(found <==> self@[i as int].alias == Some(alias@));
                    }
                },
                None => {
                    found = false;
                    proof {
                        assert(self@[i as int] == self.theses@[i as int]@);
                        assert(self@[i as int].alias is None);
                    }
                },
            }
            if found {
                let id = self.theses[i].id();
                proof {
                    assert(self@.skip(i as int)[0] == self@[i as int]);
                    assert(id.value == self@[i as int].id());
                    assert(alias_lookup(self@.skip(i as int), alias@) == Some(
                        self@[i as int].id(),
                    ));
                }
                return Some(id);
            }
            proof {
                assert(self@.skip(i as int)[0] == self@[i as int]);
                assert(self@.skip(i as int).drop_first() =~= self@.skip(i + 1));
            }
            i = i + 1;
        }
        proof {
            assert(self@.skip(n as int).len() == 0);
        }
        None
    }

    /// The alias of the thesis with the given identity, when the thesis is
    /// stored and has one.
    pub fn get_alias_by_thesis_id(&self, thesis_id: &ObjectId) -> (r: Option<Alias>)
        ensures
            match spec_get(self@, thesis_id.value) {
                Some(t) => match r {
                    Some(a) => t.alias == Some(a@),
                    None => t.alias is None,
                },
                None => r is None,
            },
    {
        match self.find_index(thesis_id) {
            Some(i) => {
                proof {
                    lemma_index_of_id(self@, thesis_id.value);
                }
                match &self.theses[i].alias {
                    Some(a) => Some(a.clone()),
                    None => None,
                }
            },
            None => {
                proof {
                    lemma_index_of_id(self@, thesis_id.value);
                }
                None
            },
        }
    }

    /// The identities of all theses that reference the given identity,
    /// through a text's references or a relation's endpoints, in store
    /// order.
    pub fn where_referenced(&self, thesis_id: &ObjectId) -> (r: Vec<ObjectId>)
        ensures
            r@.map_values(|o: ObjectId| o.value) == referencers(self@, thesis_id.value),
    {
        let n = self.theses.len();
        let mut r: Vec<ObjectId> = Vec::new();
        let mut i: usize = 0;
        while i < n
            invariant
                n == self@.len(),
                i <= n,
                r@.map_values(|o: ObjectId| o.value) == referencers_upto(
                    self@,
                    thesis_id.value,
                    i as int,
                ),
            decreases n - i,
        {
            let refs = self.theses[i].references();
            let mut found = false;
            let mut k: usize = 0;
            while k < refs.len()
                invariant
                    k <= refs@.len(),
                    refs@.map_values(|o: ObjectId| o.value) == self@[i as int].references(),
                    i < self@.len(),
                    found <==> exists|j: int|
                        0 <= j < k && (#[trigger] refs@[j]).value == thesis_id.value,
                decreases refs@.len() - k,
            {
                if refs[k].value == thesis_id.value {
                    found = true;
                }
                k = k + 1;
            }
            proof {
                if found {
                    let j = choose|j: int|
                        0 <= j < refs@.len() && (#[trigger] refs@[j]).value == thesis_id.value;
                    assert(self@[i as int].references()[j] == thesis_id.value);
                    assert(self@[i as int].references_id(thesis_id.value));
                } else {
                    if self@[i as int].references_id(thesis_id.value) {
                        let j = choose|j: int|
                            0 <= j < self@[i as int].references().len() && self@[
                                i as int].references()[j] == thesis_id.value;
                        assert(refs@[j].value == thesis_id.value);
                    }
                }
            }
            if found {
                r.push(self.theses[i].id());
                proof {
                    assert(r@.map_values(|o: ObjectId| o.value) =~= referencers_upto(
                        self@,
                        thesis_id.value,
                        i + 1,
                    ));
                }
            } else {
                proof {
                    assert(r@.map_values(|o: ObjectId| o.value) =~= referencers_upto(
                        self@,
                        thesis_id.value,
                        i + 1,
                    ));
                }
            }
            i = i + 1;
        }
        r
    }

    /// All stored theses, in store order.
    pub fn iter_theses(&self) -> (r: Vec<Thesis>)
        ensures
            r@.map_values(|t: Thesis| t@) == self@,
    {
        let r = self.theses.clone();
        proof {
            assert forall|i: int| 0 <= i < self.theses@.len() implies #[trigger] r@[i]@
                == self.theses@[i]@ by {}
            assert(r@.map_values(|t: Thesis| t@) =~= self@);
        }
        r
    }
}

} // verus!
