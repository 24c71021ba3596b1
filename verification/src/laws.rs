//! The store's laws: properties that tie several operations together,
//! stated over the same models the operations' own contracts use.

use vstd::prelude::*;
use crate::commands::{spec_parse_from, spec_parse_paragraph};
use crate::errors::SweaterError;
use crate::store::{
    index_of_id, lemma_index_of_id, lemma_referencers, referencers, spec_get, store_wf,
};
use crate::tag::is_tag_text;
use crate::text::{
    bracketed, compose_raw_first, compose_ref_first, find_from, lemma_find_from, parsed_model,
    spec_tokenize, token_resolves, toks_raws_upto, toks_refs_upto, SourceToken,
};
use crate::thesis::ThesisModel;
use crate::write::{dedup_tags, insert_check, inserted_model, lemma_dedup_tags};

verus! {

/// The id-form of a token stream: each raw span as it stands, each
/// bracketed token rewritten to the textual form of the identifier it
/// resolves to.
pub open spec fn rendered(
    m: Seq<ThesisModel>,
    known: Seq<(Seq<char>, u128)>,
    toks: Seq<SourceToken>,
) -> Seq<char>
    decreases toks.len(),
{
    if toks.len() == 0 {
        Seq::empty()
    } else {
        (match toks[0] {
            SourceToken::Raw(r) => r,
            SourceToken::Reference(t) => bracketed(token_resolves(m, known, t)->0),
        }) + rendered(m, known, toks.drop_first())
    }
}

/// No two raw spans stand next to each other. Every tokenization has this
/// shape: a raw span always runs to the next bracket.
pub open spec fn no_adjacent_raws(toks: Seq<SourceToken>) -> bool {
    forall|i: int|
        0 <= i < toks.len() - 1 ==> !((#[trigger] toks[i]) is Raw && toks[i + 1] is Raw)
}

/// No two references stand next to each other.
pub open spec fn no_adjacent_refs(toks: Seq<SourceToken>) -> bool {
    forall|i: int|
        0 <= i < toks.len() - 1 ==> !((#[trigger] toks[i]) is Reference && toks[i
            + 1] is Reference)
}

/// Whether some token is a raw span.
pub open spec fn has_raw(toks: Seq<SourceToken>) -> bool {
    exists|i: int| 0 <= i < toks.len() && (#[trigger] toks[i]) is Raw
}

/// The raw spans of a token stream split at its head.
proof fn lemma_raws_drop(toks: Seq<SourceToken>, i: int)
    requires
        1 <= i <= toks.len(),
    ensures
        toks_raws_upto(toks, i) == (match toks[0] {
            SourceToken::Raw(r) => seq![r],
            SourceToken::Reference(_) => Seq::<Seq<char>>::empty(),
        }) + toks_raws_upto(toks.drop_first(), i - 1),
    decreases i,
{
    let d = toks.drop_first();
    if i == 1 {
        assert(toks_raws_upto(toks, 0) =~= Seq::<Seq<char>>::empty());
        assert(toks_raws_upto(d, 0) =~= Seq::<Seq<char>>::empty());
        assert(toks_raws_upto(toks, 1) =~= (match toks[0] {
            SourceToken::Raw(r) => seq![r],
            SourceToken::Reference(_) => Seq::<Seq<char>>::empty(),
        }) + toks_raws_upto(d, 0));
    } else {
        lemma_raws_drop(toks, i - 1);
        assert(toks[i - 1] == d[i - 2]);
        assert(toks_raws_upto(toks, i) =~= (match toks[0] {
            SourceToken::Raw(r) => seq![r],
            SourceToken::Reference(_) => Seq::<Seq<char>>::empty(),
        }) + toks_raws_upto(d, i - 1));
    }
}

/// The resolved references of a token stream split at its head.
proof fn lemma_refs_drop(
    m: Seq<ThesisModel>,
    known: Seq<(Seq<char>, u128)>,
    toks: Seq<SourceToken>,
    i: int,
)
    requires
        1 <= i <= toks.len(),
    ensures
        toks_refs_upto(m, known, toks, i) == (match toks[0] {
            SourceToken::Raw(_) => Seq::<u128>::empty(),
            SourceToken::Reference(t) => seq![token_resolves(m, known, t)->0],
        }) + toks_refs_upto(m, known, toks.drop_first(), i - 1),
    decreases i,
{
    let d = toks.drop_first();
    if i == 1 {
        assert(toks_refs_upto(m, known, toks, 0) =~= Seq::<u128>::empty());
        assert(toks_refs_upto(m, known, d, 0) =~= Seq::<u128>::empty());
        match toks[0] {
            SourceToken::Raw(_) => {
                assert(toks_refs_upto(m, known, toks, 1) =~= Seq::<u128>::empty());
                assert(Seq::<u128>::empty() + toks_refs_upto(m, known, d, 0) =~= Seq::<
                    u128,
                >::empty());
            },
            SourceToken::Reference(t) => {
                assert(toks_refs_upto(m, known, toks, 1) =~= seq![
                    token_resolves(m, known, t)->0,
                ]);
                assert(seq![token_resolves(m, known, t)->0] + toks_refs_upto(m, known, d, 0)
                    =~= seq![token_resolves(m, known, t)->0]);
            },
        }
    } else {
        lemma_refs_drop(m, known, toks, i - 1);
        assert(toks[i - 1] == d[i - 2]);
        assert(toks_refs_upto(m, known, toks, i) =~= (match toks[0] {
            SourceToken::Raw(_) => Seq::<u128>::empty(),
            SourceToken::Reference(t) => seq![token_resolves(m, known, t)->0],
        }) + toks_refs_upto(m, known, d, i - 1));
    }
}

/// The reference-first interleaving from step one equals the interleaving
/// of the tails from step zero.
proof fn lemma_compose_rf_shift(refs: Seq<u128>, parts: Seq<Seq<char>>, i: int)
    requires
        1 <= i,
        refs.len() >= 1,
    ensures
        compose_ref_first(refs, parts, i) == compose_ref_first(
            refs.drop_first(),
            if parts.len() >= 1 {
                parts.drop_first()
            } else {
                parts
            },
            i - 1,
        ),
    decreases refs.len() - i,
{
    let rd = refs.drop_first();
    let pd = if parts.len() >= 1 {
        parts.drop_first()
    } else {
        parts
    };
    if i >= refs.len() {
        assert(compose_ref_first(refs, parts, i) =~= Seq::<char>::empty());
        assert(compose_ref_first(rd, pd, i - 1) =~= Seq::<char>::empty());
    } else {
        lemma_compose_rf_shift(refs, parts, i + 1);
        assert(refs[i] == rd[i - 1]);
        if i < parts.len() {
            assert(parts[i] == pd[i - 1]);
        }
        assert((i < parts.len()) == (i - 1 < pd.len()));
    }
}

/// The raw-first interleaving from step one equals the interleaving of the
/// tails from step zero.
proof fn lemma_compose_raw_shift(parts: Seq<Seq<char>>, refs: Seq<u128>, i: int)
    requires
        1 <= i,
        parts.len() >= 1,
    ensures
        compose_raw_first(parts, refs, i) == compose_raw_first(
            parts.drop_first(),
            if refs.len() >= 1 {
                refs.drop_first()
            } else {
                refs
            },
            i - 1,
        ),
    decreases parts.len() - i,
{
    let pd = parts.drop_first();
    let rd = if refs.len() >= 1 {
        refs.drop_first()
    } else {
        refs
    };
    if i >= parts.len() {
        assert(compose_raw_first(parts, refs, i) =~= Seq::<char>::empty());
        assert(compose_raw_first(pd, rd, i - 1) =~= Seq::<char>::empty());
    } else {
        lemma_compose_raw_shift(parts, refs, i + 1);
        assert(parts[i] == pd[i - 1]);
        if i < refs.len() {
            assert(refs[i] == rd[i - 1]);
        }
        assert((i < refs.len()) == (i - 1 < rd.len()));
    }
}

/// Law: composing a parsed text reproduces the source in id-form — the
/// source with each bracketed token rewritten to the textual form of the
/// identifier it resolves to. It holds whenever references are separated by
/// raw text, or the text is references only: two adjacent references with
/// raw text elsewhere cannot be carried by the parallel-sequence form, and
/// are the one shape on which composition differs from the source.
#[verifier::rlimit(100)]
#[verifier::spinoff_prover]
pub proof fn lemma_parse_compose_round_trip(
    m: Seq<ThesisModel>,
    known: Seq<(Seq<char>, u128)>,
    toks: Seq<SourceToken>,
)
    requires
        no_adjacent_raws(toks),
        has_raw(toks) ==> no_adjacent_refs(toks),
    ensures
        parsed_model(m, known, toks).composed() == rendered(m, known, toks),
    decreases toks.len(),
{
    let model = parsed_model(m, known, toks);
    let n = toks.len() as int;
    if n == 0 {
        assert(model.composed() =~= Seq::<char>::empty());
    } else {
        let d = toks.drop_first();
        assert forall|i: int| 0 <= i < d.len() - 1 implies !((#[trigger] d[i]) is Raw && d[i
            + 1] is Raw) by {
            assert(d[i] == toks[i + 1] && d[i + 1] == toks[i + 2]);
        }
        lemma_raws_drop(toks, n);
        lemma_refs_drop(m, known, toks, n);
        match toks[0] {
            SourceToken::Raw(r0) => {
                assert(has_raw(toks));
                assert(model.parts == seq![r0] + toks_raws_upto(d, n - 1));
                assert(model.refs == toks_refs_upto(m, known, d, n - 1));
                assert(!model.start_with_reference);
                if n == 1 {
                    assert(model.parts =~= seq![r0]);
                    assert(model.refs =~= Seq::<u128>::empty());
                    assert(d.len() == 0);
                    assert(rendered(m, known, d) == Seq::<char>::empty());
                    assert(rendered(m, known, toks) == r0 + rendered(m, known, d));
                    assert(compose_raw_first(model.parts, model.refs, 1) =~= Seq::<char>::empty());
                    assert(model.composed() =~= r0);
                    assert(rendered(m, known, toks) =~= r0);
                } else {
                    // The next token is a reference: raw spans never touch.
                    assert(!(toks[1] is Raw));
                    let t1 = toks[1]->Reference_0;
                    let d2 = d.drop_first();
                    lemma_raws_drop(d, n - 1);
                    lemma_refs_drop(m, known, d, n - 1);
                    assert(toks_raws_upto(d, n - 1) == toks_raws_upto(d2, n - 2));
                    assert(model.refs == seq![token_resolves(m, known, t1)->0]
                        + toks_refs_upto(m, known, d2, n - 2));
                    // Conditions carry to the stream after the reference.
                    assert forall|i: int| 0 <= i < d2.len() - 1 implies !((#[trigger] d2[
                    i]) is Raw && d2[i + 1] is Raw) by {
                        assert(d2[i] == toks[i + 2] && d2[i + 1] == toks[i + 3]);
                    }
                    if has_raw(d2) {
                        let w = choose|w: int| 0 <= w < d2.len() && (#[trigger] d2[w]) is Raw;
                        assert(toks[w + 2] is Raw);
                        assert forall|i: int| 0 <= i < d2.len() - 1 implies !((#[trigger] d2[
                        i]) is Reference && d2[i + 1] is Reference) by {
                            assert(d2[i] == toks[i + 2] && d2[i + 1] == toks[i + 3]);
                        }
                    }
                    lemma_parse_compose_round_trip(m, known, d2);
                    let model2 = parsed_model(m, known, d2);
                    // d2 cannot start with a reference next to toks[1].
                    if d2.len() > 0 {
                        assert(d2[0] == toks[2]);
                        if toks[2] is Reference {
                            assert(toks[1] is Reference && toks[2] is Reference);
                            assert(false);
                        }
                        assert(!model2.start_with_reference);
                    }
                    assert(model.parts.len() >= 1);
                    assert(model.refs.len() >= 1);
                    assert(model.composed() == model.parts[0] + bracketed(model.refs[0])
                        + compose_raw_first(model.parts, model.refs, 1));
                    lemma_compose_raw_shift(model.parts, model.refs, 1);
                    assert(model.parts.drop_first() =~= toks_raws_upto(d2, n - 2));
                    assert(model.refs.drop_first() =~= toks_refs_upto(m, known, d2, n - 2));
                    assert(model2.parts == toks_raws_upto(d2, d2.len() as int));
                    assert(toks_raws_upto(d2, d2.len() as int) == toks_raws_upto(d2, n - 2));
                    assert(compose_raw_first(model.parts, model.refs, 1) == model2.composed());
                    assert(rendered(m, known, toks) == r0 + rendered(m, known, d));
                    assert(rendered(m, known, d) == bracketed(token_resolves(m, known, t1)->0)
                        + rendered(m, known, d2));
                    assert(model.parts[0] == r0);
                    assert(model.refs[0] == token_resolves(m, known, t1)->0);
                    assert(model.composed() =~= rendered(m, known, toks));
                }
            },
            SourceToken::Reference(t0) => {
                assert(model.parts == toks_raws_upto(d, n - 1));
                assert(model.refs == seq![token_resolves(m, known, t0)->0] + toks_refs_upto(
                    m,
                    known,
                    d,
                    n - 1,
                ));
                assert(model.start_with_reference);
                assert(model.refs.len() >= 1);
                if n == 1 {
                    assert(model.parts =~= Seq::<Seq<char>>::empty());
                    assert(model.refs =~= seq![token_resolves(m, known, t0)->0]);
                    assert(d.len() == 0);
                    assert(rendered(m, known, d) == Seq::<char>::empty());
                    assert(rendered(m, known, toks) == bracketed(token_resolves(m, known, t0)->0)
                        + rendered(m, known, d));
                    assert(compose_ref_first(model.refs, model.parts, 1) =~= Seq::<char>::empty());
                    assert(model.composed() =~= bracketed(token_resolves(m, known, t0)->0));
                    assert(rendered(m, known, toks) =~= bracketed(
                        token_resolves(m, known, t0)->0,
                    ));
                } else if toks[1] is Raw {
                    assert(has_raw(toks)) by {
                        assert(toks[1] is Raw);
                    }
                    let r1 = toks[1]->Raw_0;
                    let d2 = d.drop_first();
                    lemma_raws_drop(d, n - 1);
                    lemma_refs_drop(m, known, d, n - 1);
                    assert(model.parts == seq![r1] + toks_raws_upto(d2, n - 2));
                    assert(toks_refs_upto(m, known, d, n - 1) == toks_refs_upto(
                        m,
                        known,
                        d2,
                        n - 2,
                    ));
                    assert forall|i: int| 0 <= i < d2.len() - 1 implies !((#[trigger] d2[
                    i]) is Raw && d2[i + 1] is Raw) by {
                        assert(d2[i] == toks[i + 2] && d2[i + 1] == toks[i + 3]);
                    }
                    if has_raw(d2) {
                        let w = choose|w: int| 0 <= w < d2.len() && (#[trigger] d2[w]) is Raw;
                        assert(toks[w + 2] is Raw);
                        assert forall|i: int| 0 <= i < d2.len() - 1 implies !((#[trigger] d2[
                        i]) is Reference && d2[i + 1] is Reference) by {
                            assert(d2[i] == toks[i + 2] && d2[i + 1] == toks[i + 3]);
                        }
                    }
                    lemma_parse_compose_round_trip(m, known, d2);
                    let model2 = parsed_model(m, known, d2);
                    if d2.len() > 0 {
                        assert(d2[0] == toks[2]);
                        if toks[2] is Raw {
                            assert(toks[1] is Raw && toks[2] is Raw);
                            assert(false);
                        }
                        assert(model2.start_with_reference);
                    }
                    assert(model.parts.len() >= 1);
                    assert(model.composed() == bracketed(model.refs[0]) + model.parts[0]
                        + compose_ref_first(model.refs, model.parts, 1));
                    lemma_compose_rf_shift(model.refs, model.parts, 1);
                    assert(model.refs.drop_first() =~= toks_refs_upto(m, known, d2, n - 2));
                    assert(model.parts.drop_first() =~= toks_raws_upto(d2, n - 2));
                    assert(model2.refs == toks_refs_upto(m, known, d2, n - 2));
                    assert(model2.parts == toks_raws_upto(d2, n - 2));
                    if d2.len() == 0 {
                        assert(compose_ref_first(model.refs, model.parts, 1) =~= Seq::<
                            char,
                        >::empty());
                        assert(model2.composed() =~= Seq::<char>::empty());
                    }
                    assert(compose_ref_first(model.refs, model.parts, 1) == model2.composed());
                    assert(rendered(m, known, toks) == bracketed(token_resolves(m, known, t0)->0)
                        + rendered(m, known, d));
                    assert(rendered(m, known, d) == r1 + rendered(m, known, d2));
                    assert(model.composed() =~= rendered(m, known, toks));
                } else {
                    // Two references in front: then nothing anywhere is raw,
                    // and the whole stream is references.
                    assert(toks[1] is Reference);
                    if has_raw(toks) {
                        assert(!(toks[0] is Reference && toks[1] is Reference));
                        assert(false);
                    }
                    assert(!has_raw(d)) by {
                        if has_raw(d) {
                            let w = choose|w: int| 0 <= w < d.len() && (#[trigger] d[w]) is Raw;
                            assert(toks[w + 1] is Raw);
                            assert(has_raw(toks));
                        }
                    }
                    lemma_parse_compose_round_trip(m, known, d);
                    let model2 = parsed_model(m, known, d);
                    lemma_no_raw_no_parts(d, n - 1);
                    assert(model.parts =~= Seq::<Seq<char>>::empty());
                    assert(model2.parts =~= Seq::<Seq<char>>::empty());
                    assert(d[0] == toks[1]);
                    assert(model2.start_with_reference);
                    assert(model.composed() == bracketed(model.refs[0]) + compose_ref_first(
                        model.refs,
                        model.parts,
                        1,
                    ));
                    lemma_compose_rf_shift(model.refs, model.parts, 1);
                    assert(model.refs.drop_first() =~= toks_refs_upto(m, known, d, n - 1));
                    assert(model2.refs == toks_refs_upto(m, known, d, n - 1));
                    assert(compose_ref_first(model.refs, model.parts, 1) == model2.composed());
                    assert(rendered(m, known, toks) == bracketed(token_resolves(m, known, t0)->0)
                        + rendered(m, known, d));
                    assert(model.composed() =~= rendered(m, known, toks));
                }
            },
        }
    }
}

/// Every successful tokenization has the shape the round-trip law asks
/// for on the raw side: raw spans never touch, because a raw span always
/// runs to the next bracket.
pub proof fn lemma_tokenize_no_adjacent_raws(s: Seq<char>)
    requires
        spec_tokenize(s) is Some,
    ensures
        no_adjacent_raws(spec_tokenize(s)->0),
    decreases s.len(),
{
    if s.len() == 0 {
    } else if s[0] == '[' {
        match find_from(s, ']', 0) {
            Option::None => {},
            Option::Some(j) => {
                if 2 <= j < s.len() && (forall|k: int| 1 <= k < j ==> s[k] != '[') {
                    let sub = s.subrange(j + 1, s.len() as int);
                    match spec_tokenize(sub) {
                        Option::None => {},
                        Option::Some(rest) => {
                            lemma_tokenize_no_adjacent_raws(sub);
                            let toks = spec_tokenize(s)->0;
                            assert(toks == seq![SourceToken::Reference(s.subrange(1, j))] + rest);
                            assert forall|i: int| 0 <= i < toks.len() - 1 implies !((
                            #[trigger] toks[i]) is Raw && toks[i + 1] is Raw) by {
                                if i >= 1 {
                                    assert(toks[i] == rest[i - 1]);
                                    assert(toks[i + 1] == rest[i]);
                                }
                            }
                        },
                    }
                }
            },
        }
    } else {
        let k0 = match find_from(s, '[', 0) {
            Option::None => s.len() as int,
            Option::Some(k0) => k0,
        };
        let k = if 1 <= k0 <= s.len() {
            k0
        } else {
            s.len() as int
        };
        lemma_find_from(s, '[', 0);
        let sub = s.subrange(k, s.len() as int);
        match spec_tokenize(sub) {
            Option::None => {},
            Option::Some(rest) => {
                lemma_tokenize_no_adjacent_raws(sub);
                let toks = spec_tokenize(s)->0;
                assert(toks == seq![SourceToken::Raw(s.subrange(0, k))] + rest);
                if rest.len() > 0 {
                    // The tail starts at a bracket, so its first token is a
                    // reference.
                    assert(k < s.len());
                    assert(sub[0] == s[k]);
                    assert(s[k] == '[');
                    assert(rest[0] is Reference);
                }
                assert forall|i: int| 0 <= i < toks.len() - 1 implies !((#[trigger] toks[
                i]) is Raw && toks[i + 1] is Raw) by {
                    if i == 0 {
                        assert(toks[1] == rest[0]);
                    } else {
                        assert(toks[i] == rest[i - 1]);
                        assert(toks[i + 1] == rest[i]);
                    }
                }
            },
        }
    }
}

/// A stream without raw tokens yields no raw spans.
proof fn lemma_no_raw_no_parts(toks: Seq<SourceToken>, i: int)
    requires
        0 <= i <= toks.len(),
        !has_raw(toks),
    ensures
        toks_raws_upto(toks, i).len() == 0,
    decreases i,
{
    if i > 0 {
        if toks[i - 1] is Raw {
            assert(has_raw(toks));
        } else {
            lemma_no_raw_no_parts(toks, i - 1);
        }
    }
}

/// Law: a thesis's identity is a function of its content alone. Two theses
/// with equal content have equal identities, whatever their aliases and
/// tags.
pub proof fn lemma_identity_determinism(t1: ThesisModel, t2: ThesisModel)
    requires
        t1.content == t2.content,
    ensures
        t1.id() == t2.id(),
{
}

/// Law: after a successful insertion, looking the identity up finds the
/// inserted thesis, stored with its tags deduplicated, and the stored
/// thesis is valid.
pub proof fn lemma_insert_get_round_trip(
    m: Seq<ThesisModel>,
    t: ThesisModel,
    kinds: Seq<Seq<char>>,
)
    requires
        store_wf(m),
        insert_check(m, t, kinds) is None,
    ensures
        spec_get(m.push(inserted_model(t)), t.id()) == Some(inserted_model(t)),
        inserted_model(t).is_valid(),
{
    let m2 = m.push(inserted_model(t));
    lemma_index_of_id(m2, t.id());
    assert(m2[m2.len() - 1] == inserted_model(t));
    assert(inserted_model(t).id() == t.id());
    assert(index_of_id(m2, t.id()) >= 0);
    let idx = index_of_id(m2, t.id());
    if idx < m.len() {
        assert(m2[idx] == m[idx]);
        assert(crate::store::contains_id(m, t.id()));
        assert(false);
    }
    assert(idx == m2.len() - 1);
    lemma_dedup_tags(t.tags);
    assert forall|k: int| 0 <= k < inserted_model(t).tags.len() implies is_tag_text(
        #[trigger] inserted_model(t).tags[k],
    ) by {
        assert(dedup_tags(t.tags).contains(dedup_tags(t.tags)[k]));
        assert(t.tags.contains(dedup_tags(t.tags)[k]));
        let j = choose|j: int| 0 <= j < t.tags.len() && t.tags[j] == dedup_tags(t.tags)[k];
        assert(t.is_valid());
    }
}

/// Law: alias uniqueness. In a well-formed store no two live theses share
/// an alias; every operation's contract keeps the store well-formed, so
/// the law holds at every point.
pub proof fn lemma_alias_uniqueness(m: Seq<ThesisModel>)
    requires
        store_wf(m),
    ensures
        crate::store::aliases_unique(m),
{
}

/// Law: the reverse-reference closure. Every stored thesis that references
/// an identity is listed among that identity's referencers, so the reverse
/// index reaches it.
pub proof fn lemma_reverse_reference_closure(m: Seq<ThesisModel>, j: int, x: u128)
    requires
        0 <= j < m.len(),
        m[j].references_id(x),
    ensures
        referencers(m, x).contains(m[j].id()),
{
    lemma_referencers(m, x, m.len() as int);
}

/// Law: batch parsing is fail-fast. A refused batch names a paragraph index
/// after the starting point and within the batch, and that paragraph is
/// itself refused under the bindings reached there; a parsed batch yields
/// one command per paragraph.
#[verifier::rlimit(30)]
#[verifier::spinoff_prover]
pub proof fn lemma_parse_fail_fast(
    m: Seq<ThesisModel>,
    paras: Seq<Seq<char>>,
    i: int,
    known: Seq<(Seq<char>, u128)>,
)
    requires
        0 <= i <= paras.len(),
    ensures
        match spec_parse_from(m, paras, i, known) {
            Ok(cmds) => cmds.len() == paras.len() - i,
            Err((j, e)) => i < j <= paras.len() && (exists|known2: Seq<(Seq<char>, u128)>|
                #[trigger] spec_parse_paragraph(m, known2, paras[j - 1]) == Err::<
                    crate::commands::CommandModel,
                    SweaterError,
                >(e)),
        },
    decreases paras.len() - i,
{
    if i < paras.len() {
        match spec_parse_paragraph(m, known, paras[i]) {
            Err(e) => {
                assert(spec_parse_paragraph(m, known, paras[(i + 1) - 1]) == Err::<
                    crate::commands::CommandModel,
                    SweaterError,
                >(e));
                assert(exists|known2: Seq<(Seq<char>, u128)>|
                    #[trigger] spec_parse_paragraph(m, known2, paras[(i + 1) - 1]) == Err::<
                        crate::commands::CommandModel,
                        SweaterError,
                    >(e));
            },
            Ok(cmd) => {
                let known2 = known + crate::commands::command_bindings(cmd);
                lemma_parse_fail_fast(m, paras, i + 1, known2);
                match spec_parse_from(m, paras, i + 1, known2) {
                    Ok(rest) => {
                        assert(spec_parse_from(m, paras, i, known) == Ok::<
                            Seq<crate::commands::CommandModel>,
                            (int, SweaterError),
                        >(seq![cmd] + rest));
                        assert((seq![cmd] + rest).len() == paras.len() - i);
                    },
                    Err((j, e2)) => {
                        assert(spec_parse_from(m, paras, i, known) == Err::<
                            Seq<crate::commands::CommandModel>,
                            (int, SweaterError),
                        >((j, e2)));
                    },
                }
            },
        }
    }
}

} // verus!
