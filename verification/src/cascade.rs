//! Cascade removal: what removing one thesis takes with it.
//!
//! Removing `x` removes `x` itself, every text thesis that transitively
//! references a removed thesis, and every relation touching one of those.
//! Relations are swept away without their own cascade: they carry no
//! references of their own, and nothing cascades through them.

use vstd::prelude::*;
use crate::content::ContentModel;
use crate::store::{store_wf, tags_unique};
use crate::thesis::ThesisModel;

verus! {

/// The identities removed by the cascade's core after at most `k` steps:
/// the removed thesis itself, and text theses that reference an identity
/// already in the core.
pub open spec fn core_upto(m: Seq<ThesisModel>, x: u128, id: u128, k: nat) -> bool
    decreases k,
{
    if k == 0 {
        id == x
    } else {
        core_upto(m, x, id, (k - 1) as nat) || (exists|i: int, y: u128|
            #![trigger m[i].references_id(y)]
            0 <= i < m.len() && m[i].id() == id && m[i].content is Text && core_upto(
                m,
                x,
                y,
                (k - 1) as nat,
            ) && m[i].references_id(y))
    }
}

/// The core of the cascade from `x`: reached in some number of steps.
pub open spec fn in_core(m: Seq<ThesisModel>, x: u128, id: u128) -> bool {
    exists|k: nat| core_upto(m, x, id, k)
}

/// The removed thesis itself is in the core.
pub proof fn lemma_core_base(m: Seq<ThesisModel>, x: u128)
    ensures
        in_core(m, x, x),
{
    assert(core_upto(m, x, x, 0));
}

/// A text thesis referencing a core member joins the core.
pub proof fn lemma_core_step(m: Seq<ThesisModel>, x: u128, i: int, y: u128)
    requires
        0 <= i < m.len(),
        m[i].content is Text,
        m[i].references_id(y),
        in_core(m, x, y),
    ensures
        in_core(m, x, m[i].id()),
{
    let k = choose|k: nat| core_upto(m, x, y, k);
    let k1: nat = k + 1;
    assert(core_upto(m, x, y, (k1 - 1) as nat));
    assert(core_upto(m, x, m[i].id(), k1));
}

/// Whether a set of identities is closed under the core's step: it holds
/// every text thesis that references one of its members.
pub open spec fn core_closed(m: Seq<ThesisModel>, vals: Seq<u128>) -> bool {
    forall|i: int, k: int|
        0 <= i < m.len() && 0 <= k < vals.len() && (#[trigger] m[i]).content is Text
            && m[i].references_id(#[trigger] vals[k]) ==> vals.contains(m[i].id())
}

/// A closed set holding `x` holds the whole core.
pub proof fn lemma_core_complete(
    m: Seq<ThesisModel>,
    x: u128,
    vals: Seq<u128>,
    id: u128,
    k: nat,
)
    requires
        vals.contains(x),
        core_closed(m, vals),
        core_upto(m, x, id, k),
    ensures
        vals.contains(id),
    decreases k,
{
    if k == 0 {
    } else if core_upto(m, x, id, (k - 1) as nat) {
        lemma_core_complete(m, x, vals, id, (k - 1) as nat);
    } else {
        let (i, y) = choose|i: int, y: u128|
            #![trigger m[i].references_id(y)]
            0 <= i < m.len() && m[i].id() == id && m[i].content is Text && core_upto(
                m,
                x,
                y,
                (k - 1) as nat,
            ) && m[i].references_id(y);
        lemma_core_complete(m, x, vals, y, (k - 1) as nat);
        let w = choose|w: int| 0 <= w < vals.len() && vals[w] == y;
        assert(vals[w] == y);
        assert(m[i].references_id(vals[w]));
        assert(vals.contains(m[i].id()));
    }
}

/// Whether the cascade from `x` removes this thesis: it is in the core, or
/// it is a relation touching a core member.
pub open spec fn removed_by_cascade(m: Seq<ThesisModel>, x: u128, t: ThesisModel) -> bool {
    in_core(m, x, t.id()) || (t.content matches ContentModel::Relation(r) && (in_core(m, x, r.from)
        || in_core(m, x, r.to)))
}

/// The theses the cascade from `x` leaves alive, among the first `i`, in
/// store order.
pub open spec fn survivors_upto(m: Seq<ThesisModel>, x: u128, i: int) -> Seq<ThesisModel>
    decreases i,
{
    if i <= 0 || i > m.len() {
        Seq::empty()
    } else {
        survivors_upto(m, x, i - 1) + (if removed_by_cascade(m, x, m[i - 1]) {
            Seq::empty()
        } else {
            seq![m[i - 1]]
        })
    }
}

/// The theses the cascade from `x` leaves alive, in store order.
pub open spec fn survivors(m: Seq<ThesisModel>, x: u128) -> Seq<ThesisModel> {
    survivors_upto(m, x, m.len() as int)
}

/// Each survivor is a stored thesis the cascade does not remove, and each
/// such thesis survives.
pub proof fn lemma_survivors_membership(m: Seq<ThesisModel>, x: u128, i: int)
    requires
        0 <= i <= m.len(),
    ensures
        forall|k: int|
            0 <= k < survivors_upto(m, x, i).len() ==> exists|j: int|
                0 <= j < i && #[trigger] survivors_upto(m, x, i)[k] == #[trigger] m[j]
                    && !removed_by_cascade(m, x, m[j]),
        forall|j: int|
            0 <= j < i && !removed_by_cascade(m, x, #[trigger] m[j]) ==> survivors_upto(
                m,
                x,
                i,
            ).contains(m[j]),
    decreases i,
{
    if i > 0 {
        lemma_survivors_membership(m, x, i - 1);
        let prev = survivors_upto(m, x, i - 1);
        assert forall|k: int| 0 <= k < survivors_upto(m, x, i).len() implies exists|j: int|
            0 <= j < i && #[trigger] survivors_upto(m, x, i)[k] == #[trigger] m[j]
                && !removed_by_cascade(m, x, m[j]) by {
            if k < prev.len() {
                assert(survivors_upto(m, x, i)[k] == prev[k]);
                let j = choose|j: int|
                    0 <= j < i - 1 && prev[k] == m[j] && !removed_by_cascade(m, x, m[j]);
                assert(0 <= j < i && survivors_upto(m, x, i)[k] == m[j] && !removed_by_cascade(
                    m,
                    x,
                    m[j],
                ));
            } else {
                assert(!removed_by_cascade(m, x, m[i - 1]));
                assert(0 <= i - 1 < i && survivors_upto(m, x, i)[k] == m[i - 1]
                    && !removed_by_cascade(m, x, m[i - 1]));
            }
        }
        assert forall|j: int| 0 <= j < i && !removed_by_cascade(m, x, #[trigger] m[j])
            implies survivors_upto(m, x, i).contains(m[j]) by {
            if j < i - 1 {
                assert(prev.contains(m[j]));
                let k = choose|k: int| 0 <= k < prev.len() && prev[k] == m[j];
                assert(survivors_upto(m, x, i)[k] == m[j]);
            } else {
                assert(survivors_upto(m, x, i)[survivors_upto(m, x, i).len() - 1] == m[j]);
            }
        }
    }
}

/// Law: the cascade is sound. After removing `x`, no surviving thesis is
/// `x`, no surviving relation touches `x`, and no surviving text references
/// `x`.
pub proof fn lemma_cascade_soundness(m: Seq<ThesisModel>, x: u128)
    ensures
        forall|k: int|
            0 <= k < survivors(m, x).len() ==> (#[trigger] survivors(m, x)[k]).id() != x && !(
            survivors(m, x)[k]).references_id(x),
{
    lemma_survivors_membership(m, x, m.len() as int);
    assert forall|k: int| 0 <= k < survivors(m, x).len() implies (#[trigger] survivors(m, x)[
        k]).id() != x && !(survivors(m, x)[k]).references_id(x) by {
        let t = survivors(m, x)[k];
        let j = choose|j: int|
            0 <= j < m.len() && survivors_upto(m, x, m.len() as int)[k] == m[j]
                && !removed_by_cascade(m, x, m[j]);
        assert(t == m[j]);
        lemma_core_base(m, x);
        if t.id() == x {
            assert(removed_by_cascade(m, x, m[j]));
        }
        if t.references_id(x) {
            match t.content {
                ContentModel::Text(_) => {
                    lemma_core_step(m, x, j, x);
                    assert(removed_by_cascade(m, x, m[j]));
                },
                ContentModel::Relation(r) => {
                    // The references of a relation are its two endpoints.
                    let refs = t.references();
                    let w = choose|w: int| 0 <= w < refs.len() && refs[w] == x;
                    assert(refs == seq![r.from, r.to]);
                    assert(w == 0 || w == 1);
                    assert(r.from == x || r.to == x);
                    assert(removed_by_cascade(m, x, m[j]));
                },
            }
        }
    }
}

/// The cascade keeps the store well-formed: survivors are stored theses,
/// still valid, with identities and aliases still unique.
pub proof fn lemma_survivors_wf(m: Seq<ThesisModel>, x: u128, i: int)
    requires
        store_wf(m),
        0 <= i <= m.len(),
    ensures
        store_wf(survivors_upto(m, x, i)),
    decreases i,
{
    if i > 0 {
        lemma_survivors_wf(m, x, i - 1);
        lemma_survivors_membership(m, x, i - 1);
        let prev = survivors_upto(m, x, i - 1);
        let cur = survivors_upto(m, x, i);
        if !removed_by_cascade(m, x, m[i - 1]) {
            assert forall|a: int, b: int| 0 <= a < b < cur.len() implies (#[trigger] cur[a]).id()
                != (#[trigger] cur[b]).id() by {
                if b == cur.len() - 1 {
                    assert(cur[a] == prev[a]);
                    assert(cur[b] == m[i - 1]);
                    let j = choose|j: int|
                        0 <= j < i - 1 && survivors_upto(m, x, i - 1)[a] == m[j]
                            && !removed_by_cascade(m, x, m[j]);
                    assert(m[j].id() != m[i - 1].id());
                } else {
                    assert(cur[a] == prev[a] && cur[b] == prev[b]);
                }
            }
            assert forall|a: int| 0 <= a < cur.len() implies (#[trigger] cur[a]).is_valid()
                && tags_unique(cur[a].tags) by {
                if a < prev.len() {
                    assert(cur[a] == prev[a]);
                } else {
                    assert(cur[a] == m[i - 1]);
                }
            }
            assert forall|a: int, b: int|
                0 <= a < b < cur.len() && (#[trigger] cur[a]).alias is Some && (#[trigger] cur[
                b]).alias is Some implies cur[a].alias != cur[b].alias by {
                if b == cur.len() - 1 {
                    assert(cur[a] == prev[a]);
                    assert(cur[b] == m[i - 1]);
                    let j = choose|j: int|
                        0 <= j < i - 1 && survivors_upto(m, x, i - 1)[a] == m[j]
                            && !removed_by_cascade(m, x, m[j]);
                    assert(m[j].alias == cur[a].alias);
                } else {
                    assert(cur[a] == prev[a] && cur[b] == prev[b]);
                }
            }
        }
    }
}

} // verus!
