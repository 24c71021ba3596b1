//! Tests of the command language and of text parsing and composition.

use sweater::alias::Alias;
use sweater::commands::parse_commands;
use sweater::content::Content;
use sweater::errors::SweaterError;
use sweater::relation::RelationKind;
use sweater::resolver::AliasesResolver;
use sweater::store::Store;
use sweater::sweater::{Sweater, SweaterConfig};
use sweater::tag::Tag;
use sweater::text::{RawText, Text};
use sweater::write::WriteTransaction;

fn config() -> SweaterConfig {
    SweaterConfig {
        supported_relations_kinds: vec![RelationKind("supports".to_string())],
    }
}

fn run_batch(tx: &mut WriteTransaction, batch: &str) -> Result<(), SweaterError> {
    let cmds = match parse_commands(batch, &tx.store) {
        Ok(cmds) => cmds,
        Err(e) => return Err(e.cause),
    };
    for cmd in &cmds {
        tx.execute_command(cmd)?;
    }
    Ok(())
}

#[test]
fn add_and_get() {
    let sweater = Sweater::new(config());
    let mut tx = sweater.lock_all_and_write();
    run_batch(&mut tx, "+ a\nHello world.\n").unwrap();
    let all = tx.store.iter_theses();
    assert_eq!(all.len(), 1);
    let t = &all[0];
    assert_eq!(
        tx.store.get_alias_by_thesis_id(&t.id()),
        Some(Alias("a".to_string()))
    );
    assert_eq!(
        t.content,
        Content::Text(Text {
            raw_text_parts: vec![RawText("Hello world.".to_string())],
            references: vec![],
            start_with_reference: false,
        })
    );
}

#[test]
fn relation_batch_and_kind_check() {
    let sweater = Sweater::new(config());
    let mut tx = sweater.lock_all_and_write();
    run_batch(
        &mut tx,
        "+ one\nFirst claim.\n\n+ two\nSecond claim.\n\n+ r\none\nsupports\ntwo\n",
    )
    .unwrap();
    assert_eq!(tx.store.iter_theses().len(), 3);
    assert_eq!(
        run_batch(
            &mut tx,
            "+ bad\none\nrefutes\ntwo\n",
        ),
        Err(SweaterError::UnsupportedKind)
    );
}

#[test]
fn tag_batch_is_idempotent() {
    let sweater = Sweater::new(config());
    let mut tx = sweater.lock_all_and_write();
    run_batch(&mut tx, "+ a\nHello world.\n").unwrap();
    run_batch(&mut tx, "# a\nx").unwrap();
    run_batch(&mut tx, "# a\nx").unwrap();
    let id = tx
        .store
        .get_thesis_id_by_alias(&Alias("a".to_string()))
        .unwrap();
    assert_eq!(
        tx.store.get_thesis(&id).unwrap().tags,
        vec![Tag("x".to_string())]
    );
    run_batch(&mut tx, "^ a\nx").unwrap();
    assert_eq!(tx.store.get_thesis(&id).unwrap().tags, Vec::<Tag>::new());
}

#[test]
fn multiple_tags_in_one_paragraph() {
    let sweater = Sweater::new(config());
    let mut tx = sweater.lock_all_and_write();
    run_batch(&mut tx, "+ a\nHello world.\n").unwrap();
    run_batch(&mut tx, "# a\nimportant\ndraft").unwrap();
    let id = tx
        .store
        .get_thesis_id_by_alias(&Alias("a".to_string()))
        .unwrap();
    assert_eq!(
        tx.store.get_thesis(&id).unwrap().tags,
        vec![Tag("important".to_string()), Tag("draft".to_string())]
    );
}

#[test]
fn alias_rename_batch() {
    let sweater = Sweater::new(config());
    let mut tx = sweater.lock_all_and_write();
    run_batch(&mut tx, "+ a\nHello world.\n").unwrap();
    let id = tx
        .store
        .get_thesis_id_by_alias(&Alias("a".to_string()))
        .unwrap();
    run_batch(&mut tx, "@ new\na").unwrap();
    assert_eq!(
        tx.store.get_thesis_id_by_alias(&Alias("a".to_string())),
        None
    );
    assert_eq!(
        tx.store.get_thesis_id_by_alias(&Alias("new".to_string())),
        Some(id)
    );
}

#[test]
fn remove_batch() {
    let sweater = Sweater::new(config());
    let mut tx = sweater.lock_all_and_write();
    run_batch(&mut tx, "+ a\nHello world.\n").unwrap();
    run_batch(&mut tx, "- a").unwrap();
    assert_eq!(tx.store.iter_theses().len(), 0);
}

#[test]
fn later_paragraphs_see_earlier_aliases() {
    let sweater = Sweater::new(config());
    let mut tx = sweater.lock_all_and_write();
    run_batch(
        &mut tx,
        "+ base\nThe base claim.\n\n+ next\nIt follows from [base].\n",
    )
    .unwrap();
    let base_id = tx
        .store
        .get_thesis_id_by_alias(&Alias("base".to_string()))
        .unwrap();
    let next_id = tx
        .store
        .get_thesis_id_by_alias(&Alias("next".to_string()))
        .unwrap();
    assert_eq!(tx.store.where_referenced(&base_id), vec![next_id]);
}

#[test]
fn parse_is_fail_fast_and_names_the_paragraph() {
    let store = Store::new();
    let err = parse_commands("+ a\nGood text.\n\n? broken\n\n+ b\nMore text.\n", &store)
        .unwrap_err();
    assert_eq!(err.paragraph, 2);
    assert_eq!(err.cause, SweaterError::InvalidCommand);
    let err2 = parse_commands("+ a\nGood text.\n\n+ b\nSee [missing].\n", &store).unwrap_err();
    assert_eq!(err2.paragraph, 2);
    assert_eq!(err2.cause, SweaterError::UnknownAlias);
}

#[test]
fn wrong_line_counts_are_refused() {
    let store = Store::new();
    let err = parse_commands("+ a\nOne.\nTwo.\nThree.\nFour.\n", &store).unwrap_err();
    assert_eq!(err.cause, SweaterError::InvalidCommand);
    let err2 = parse_commands("@ a\n", &store).unwrap_err();
    assert_eq!(err2.cause, SweaterError::InvalidCommand);
}

#[test]
fn parse_compose_round_trip_yields_id_form() {
    let sweater = Sweater::new(config());
    let mut tx = sweater.lock_all_and_write();
    run_batch(&mut tx, "+ a\nThe base claim.\n").unwrap();
    let id = tx
        .store
        .get_thesis_id_by_alias(&Alias("a".to_string()))
        .unwrap();
    let id_text: String = id.text_chars().into_iter().collect();
    let resolver = AliasesResolver::new(&tx.store);
    let parsed = Text::new("It follows from [a], clearly.", &resolver).unwrap();
    assert_eq!(
        parsed.composed(),
        format!("It follows from [{}], clearly.", id_text)
    );
    // A source already in id form composes back to itself.
    let parsed2 = Text::new(&format!("See [{}] again.", id_text), &resolver).unwrap();
    assert_eq!(parsed2.composed(), format!("See [{}] again.", id_text));
    // References only, no raw text.
    let parsed3 = Text::new(&format!("[{}][{}]", id_text, id_text), &resolver).unwrap();
    assert_eq!(parsed3.composed(), format!("[{}][{}]", id_text, id_text));
}

#[test]
fn text_parse_errors() {
    let store = Store::new();
    let resolver = AliasesResolver::new(&store);
    assert_eq!(
        Text::new("Unknown [who] here.", &resolver),
        Err(SweaterError::UnknownAlias)
    );
    assert_eq!(
        Text::new("Broken [pair", &resolver),
        Err(SweaterError::InvalidSyntax)
    );
    assert_eq!(
        Text::new("Empty [] pair.", &resolver),
        Err(SweaterError::InvalidSyntax)
    );
    assert_eq!(
        Text::new("Stray ] bracket.", &resolver),
        Err(SweaterError::InvalidSyntax)
    );
}

#[test]
fn blank_line_separators() {
    let store = Store::new();
    // One line break keeps a paragraph together; "\r\n" is a single break.
    let cmds = parse_commands("+ a\nHello world.\r\n\r\n+ b\nMore text.", &store).unwrap();
    assert_eq!(cmds.len(), 2);
    // A single "\r\n" does not separate paragraphs: everything stays in
    // paragraph 1, whose shape is then refused.
    let err = parse_commands("+ a\nHello world.\r\n+ b\nMore text.", &store).unwrap_err();
    assert_eq!(err.paragraph, 1);
}
