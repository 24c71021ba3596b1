//! Tests of the store operations: identity, insertion, tagging, aliases,
//! and cascade removal.

use sweater::alias::Alias;
use sweater::content::{canonical_encode, Content};
use sweater::errors::SweaterError;
use sweater::ids::ObjectId;
use sweater::relation::{Relation, RelationKind};
use sweater::resolver::AliasesResolver;
use sweater::store::Store;
use sweater::sweater::{Sweater, SweaterConfig};
use sweater::tag::Tag;
use sweater::text::{RawText, Text};
use sweater::thesis::Thesis;

fn config() -> SweaterConfig {
    SweaterConfig {
        supported_relations_kinds: vec![RelationKind("supports".to_string())],
    }
}

fn text_thesis(src: &str, alias: Option<&str>, store: &Store) -> Thesis {
    let resolver = AliasesResolver::new(store);
    let text = Text::new(src, &resolver).unwrap();
    Thesis {
        alias: alias.map(|a| Alias(a.to_string())),
        content: Content::Text(text),
        tags: Vec::new(),
    }
}

fn relation_thesis(from: ObjectId, to: ObjectId, kind: &str) -> Thesis {
    Thesis {
        alias: None,
        content: Content::Relation(Relation {
            from,
            to,
            kind: RelationKind(kind.to_string()),
        }),
        tags: Vec::new(),
    }
}

#[test]
fn identity_is_deterministic_and_content_only() {
    let store = Store::new();
    let t = text_thesis("Hello world.", Some("a"), &store);
    assert_eq!(t.id(), t.clone().id());
    let mut with_other_alias = t.clone();
    with_other_alias.alias = Some(Alias("other".to_string()));
    with_other_alias.tags = vec![Tag("x".to_string())];
    assert_eq!(t.id(), with_other_alias.id());
    let different = text_thesis("Another text.", None, &store);
    assert_ne!(t.id(), different.id());
}

#[test]
fn canonical_encoding_of_a_relation_is_exact() {
    let from = ObjectId { value: 1 };
    let to = ObjectId { value: 0x0203 };
    let content = Content::Relation(Relation {
        from,
        to,
        kind: RelationKind("ab".to_string()),
    });
    let bytes = canonical_encode(&content);
    let mut expected: Vec<u8> = vec![1u8];
    let mut from_be = [0u8; 16];
    from_be[15] = 1;
    expected.extend_from_slice(&from_be);
    let mut to_be = [0u8; 16];
    to_be[14] = 2;
    to_be[15] = 3;
    expected.extend_from_slice(&to_be);
    expected.extend_from_slice(&[2, 0, 0, 0, 0, 0, 0, 0]);
    expected.extend_from_slice(b"ab");
    assert_eq!(bytes, expected);
}

#[test]
fn object_id_text_round_trip() {
    for v in [0u128, 1, 63, 64, u128::MAX, 0x0123_4567_89ab_cdef_fedc_ba98_7654_3210] {
        let id = ObjectId { value: v };
        let chars = id.text_chars();
        assert_eq!(chars.len(), 22);
        let back = ObjectId::from_text_chars(&chars).unwrap();
        assert_eq!(back.value, v);
    }
    let short: Vec<char> = "short".chars().collect();
    assert!(ObjectId::from_text_chars(&short).is_none());
    // 22 characters whose final digit carries stray low bits.
    let bad: Vec<char> = "AAAAAAAAAAAAAAAAAAAAAB".chars().collect();
    assert!(ObjectId::from_text_chars(&bad).is_none());
}

#[test]
fn insert_get_round_trip() {
    let sweater = Sweater::new(config());
    let mut tx = sweater.lock_all_and_write();
    let t = text_thesis("Hello world.", Some("a"), &tx.store);
    assert!(t.validated().is_ok());
    let id = t.id();
    tx.insert_thesis(t.clone()).unwrap();
    let got = tx.store.get_thesis(&id).unwrap();
    assert_eq!(got, t);
    let sweater = tx.commit();
    let read = sweater.lock_all_writes_and_read();
    assert_eq!(read.get_thesis(&id).unwrap(), t);
    assert_eq!(read.get_thesis_id_by_alias(&Alias("a".to_string())), Some(id));
    assert_eq!(read.get_alias_by_thesis_id(&id), Some(Alias("a".to_string())));
}

#[test]
fn duplicate_insert_is_refused() {
    let sweater = Sweater::new(config());
    let mut tx = sweater.lock_all_and_write();
    let t = text_thesis("Hello world.", None, &tx.store);
    tx.insert_thesis(t.clone()).unwrap();
    assert_eq!(tx.insert_thesis(t), Err(SweaterError::Duplicate));
}

#[test]
fn alias_uniqueness_is_enforced() {
    let sweater = Sweater::new(config());
    let mut tx = sweater.lock_all_and_write();
    let t1 = text_thesis("First text.", Some("a"), &tx.store);
    let t2 = text_thesis("Second text.", Some("a"), &tx.store);
    tx.insert_thesis(t1).unwrap();
    assert_eq!(tx.insert_thesis(t2), Err(SweaterError::AliasInUse));
}

#[test]
fn set_alias_enforces_uniqueness_and_keeps_id() {
    let sweater = Sweater::new(config());
    let mut tx = sweater.lock_all_and_write();
    let t1 = text_thesis("First text.", Some("a"), &tx.store);
    let t2 = text_thesis("Second text.", Some("b"), &tx.store);
    let id1 = t1.id();
    let id2 = t2.id();
    tx.insert_thesis(t1).unwrap();
    tx.insert_thesis(t2).unwrap();
    assert_eq!(
        tx.set_alias(id2, Alias("a".to_string())),
        Err(SweaterError::AliasInUse)
    );
    tx.set_alias(id1, Alias("renamed".to_string())).unwrap();
    assert_eq!(
        tx.store.get_thesis_id_by_alias(&Alias("a".to_string())),
        None
    );
    assert_eq!(
        tx.store.get_thesis_id_by_alias(&Alias("renamed".to_string())),
        Some(id1)
    );
    assert_eq!(tx.store.get_thesis(&id1).unwrap().id(), id1);
}

#[test]
fn relation_referential_check() {
    let sweater = Sweater::new(config());
    let mut tx = sweater.lock_all_and_write();
    let x = text_thesis("The first claim.", None, &tx.store);
    let y = text_thesis("The second claim.", None, &tx.store);
    let xid = x.id();
    let yid = y.id();
    tx.insert_thesis(x).unwrap();
    let r = relation_thesis(xid, yid, "supports");
    assert_eq!(
        tx.insert_thesis(r.clone()),
        Err(SweaterError::DanglingReference)
    );
    tx.insert_thesis(y).unwrap();
    tx.insert_thesis(r).unwrap();
}

#[test]
fn unsupported_kind_is_refused() {
    let sweater = Sweater::new(config());
    let mut tx = sweater.lock_all_and_write();
    let x = text_thesis("The first claim.", None, &tx.store);
    let y = text_thesis("The second claim.", None, &tx.store);
    let xid = x.id();
    let yid = y.id();
    tx.insert_thesis(x).unwrap();
    tx.insert_thesis(y).unwrap();
    let r = relation_thesis(xid, yid, "contradicts");
    assert_eq!(tx.insert_thesis(r), Err(SweaterError::UnsupportedKind));
}

#[test]
fn invalid_values_are_refused() {
    let sweater = Sweater::new(config());
    let mut tx = sweater.lock_all_and_write();
    let mut t = text_thesis("Hello world.", None, &tx.store);
    t.tags = vec![Tag("not a word".to_string())];
    assert_eq!(tx.insert_thesis(t), Err(SweaterError::InvalidSyntax));
    assert!(Alias("".to_string()).validated().is_err());
    assert!(Tag("ok_tag_1".to_string()).validate().is_ok());
    assert!(Tag("bad tag".to_string()).validate().is_err());
    assert!(RelationKind("two words".to_string()).validate().is_ok());
    assert!(RelationKind("".to_string()).validate().is_err());
    assert!(RawText("Привет world 42, right: 'yes'.".to_string())
        .validated()
        .is_ok());
    assert!(RawText("no [brackets]".to_string()).validated().is_err());
}

#[test]
fn tag_is_idempotent_and_untag_of_absent_is_noop() {
    let sweater = Sweater::new(config());
    let mut tx = sweater.lock_all_and_write();
    let t = text_thesis("Hello world.", None, &tx.store);
    let id = t.id();
    tx.insert_thesis(t).unwrap();
    tx.tag_thesis(&id, Tag("x".to_string())).unwrap();
    tx.tag_thesis(&id, Tag("x".to_string())).unwrap();
    assert_eq!(
        tx.store.get_thesis(&id).unwrap().tags,
        vec![Tag("x".to_string())]
    );
    tx.untag_thesis(&id, &Tag("absent".to_string())).unwrap();
    assert_eq!(
        tx.store.get_thesis(&id).unwrap().tags,
        vec![Tag("x".to_string())]
    );
    tx.untag_thesis(&id, &Tag("x".to_string())).unwrap();
    assert_eq!(tx.store.get_thesis(&id).unwrap().tags, Vec::<Tag>::new());
    assert_eq!(
        tx.tag_thesis(&ObjectId { value: 7 }, Tag("x".to_string())),
        Err(SweaterError::UnknownThesis)
    );
}

#[test]
fn tags_are_deduplicated_on_insertion() {
    let sweater = Sweater::new(config());
    let mut tx = sweater.lock_all_and_write();
    let mut t = text_thesis("Hello world.", None, &tx.store);
    t.tags = vec![
        Tag("x".to_string()),
        Tag("y".to_string()),
        Tag("x".to_string()),
    ];
    let id = t.id();
    tx.insert_thesis(t).unwrap();
    assert_eq!(
        tx.store.get_thesis(&id).unwrap().tags,
        vec![Tag("x".to_string()), Tag("y".to_string())]
    );
}

#[test]
fn where_referenced_lists_referencing_theses() {
    let sweater = Sweater::new(config());
    let mut tx = sweater.lock_all_and_write();
    let a = text_thesis("The base claim.", Some("a"), &tx.store);
    let aid = a.id();
    tx.insert_thesis(a).unwrap();
    let b = text_thesis("It follows from [a].", None, &tx.store);
    let bid = b.id();
    tx.insert_thesis(b).unwrap();
    let x = text_thesis("Unrelated claim.", None, &tx.store);
    tx.insert_thesis(x).unwrap();
    let referencers = tx.store.where_referenced(&aid);
    assert_eq!(referencers, vec![bid]);
}

#[test]
fn cascade_removes_relations_and_referencing_texts() {
    let sweater = Sweater::new(config());
    let mut tx = sweater.lock_all_and_write();
    let a = text_thesis("The base claim.", Some("a"), &tx.store);
    let aid = a.id();
    tx.insert_thesis(a).unwrap();
    let b = text_thesis("It follows from [a].", None, &tx.store);
    let bid = b.id();
    tx.insert_thesis(b).unwrap();
    let r = relation_thesis(aid, bid, "supports");
    tx.insert_thesis(r).unwrap();
    tx.remove_thesis(&aid);
    assert_eq!(tx.store.iter_theses(), Vec::<Thesis>::new());
}

#[test]
fn removing_an_absent_thesis_changes_nothing() {
    let sweater = Sweater::new(config());
    let mut tx = sweater.lock_all_and_write();
    let t = text_thesis("Hello world.", None, &tx.store);
    let id = t.id();
    tx.insert_thesis(t.clone()).unwrap();
    tx.remove_thesis(&ObjectId { value: 12345 });
    assert_eq!(tx.store.iter_theses(), vec![t]);
    let _ = id;
}

#[test]
fn cyclic_references_terminate() {
    // Identities are content hashes, so two texts cannot each carry the
    // other's identity. The closest constructible cycles: a chain of texts,
    // and a two-relation loop between two theses.
    let sweater = Sweater::new(config());
    let mut tx = sweater.lock_all_and_write();
    let a = text_thesis("The base claim.", Some("a"), &tx.store);
    let aid = a.id();
    tx.insert_thesis(a).unwrap();
    let b = text_thesis("See [a].", Some("b"), &tx.store);
    tx.insert_thesis(b).unwrap();
    let c = text_thesis("See [b], which sees [a].", None, &tx.store);
    tx.insert_thesis(c).unwrap();
    tx.remove_thesis(&aid);
    assert_eq!(tx.store.iter_theses(), Vec::<Thesis>::new());

    let x = text_thesis("One side.", None, &tx.store);
    let y = text_thesis("Other side.", None, &tx.store);
    let xid = x.id();
    let yid = y.id();
    tx.insert_thesis(x).unwrap();
    tx.insert_thesis(y).unwrap();
    tx.insert_thesis(relation_thesis(xid, yid, "supports")).unwrap();
    tx.insert_thesis(relation_thesis(yid, xid, "supports")).unwrap();
    tx.remove_thesis(&xid);
    let left = tx.store.iter_theses();
    assert_eq!(left.len(), 1);
    assert_eq!(left[0].id(), yid);
}
