//! Tests of the graph generator: the frame lines, node chunks, word
//! wrapping, and markup escaping.

use sweater::graph::{
    ExternalizeRelationsNodes, GraphGenerator, GraphGeneratorConfig, ShowNodesReferences,
};
use sweater::relation::RelationKind;
use sweater::resolver::AliasesResolver;
use sweater::store::Store;
use sweater::sweater::{Sweater, SweaterConfig};
use sweater::alias::Alias;
use sweater::content::Content;
use sweater::text::Text;
use sweater::thesis::Thesis;

fn graph_config(width: u16) -> GraphGeneratorConfig {
    GraphGeneratorConfig {
        wrap_width: width,
        externalize_relations_nodes: ExternalizeRelationsNodes::Related,
        show_nodes_references: ShowNodesReferences::All,
    }
}

fn text_thesis(src: &str, alias: Option<&str>, store: &Store) -> Thesis {
    let resolver = AliasesResolver::new(store);
    let text = Text::new(src, &resolver).unwrap();
    Thesis {
        alias: alias.map(|a| Alias(a.to_string())),
        content: Content::Text(text),
        tags: Vec::new(),
    }
}

#[test]
fn frame_lines_come_first_and_last() {
    let mut g = GraphGenerator::new(graph_config(40), Vec::new());
    assert_eq!(g.next(), Some("digraph sweater {".to_string()));
    assert_eq!(g.next(), Some("\n}".to_string()));
    assert_eq!(g.next(), None);
}

#[test]
fn text_node_wraps_and_draws_reference_arrows() {
    let sweater = Sweater::new(SweaterConfig {
        supported_relations_kinds: vec![RelationKind("supports".to_string())],
    });
    let mut tx = sweater.lock_all_and_write();
    let a = text_thesis("The base claim.", Some("base"), &tx.store);
    let aid = a.id();
    tx.insert_thesis(a).unwrap();
    let b = text_thesis("Hello world, from [base] indeed.", None, &tx.store);
    let bid = b.id();
    tx.insert_thesis(b).unwrap();
    let mut g = GraphGenerator::new(graph_config(10), tx.store.iter_theses());
    g.next();
    let chunk_a = g.next().unwrap();
    assert!(chunk_a.contains(">base</TD>"));
    // Width ten: "The base" fits one line, "claim." starts the next.
    assert!(chunk_a.contains(">The base<br/>claim.</TD>"));
    let chunk_b = g.next().unwrap();
    let aid_text: String = aid.text_chars().into_iter().collect();
    let bid_text: String = bid.text_chars().into_iter().collect();
    assert!(chunk_b.contains(&format!(
        "\"{}\" -> \"{}\" [arrowhead=none, color=\"grey\" style=dotted];",
        bid_text, aid_text
    )));
    assert_eq!(g.next(), Some("\n}".to_string()));
}

#[test]
fn alias_markup_is_escaped() {
    let store = Store::new();
    let t = text_thesis("Hello world.", Some("a&b<c>"), &store);
    let mut g = GraphGenerator::new(graph_config(40), vec![t]);
    g.next();
    let chunk = g.next().unwrap();
    assert!(chunk.contains(">a&amp;b&lt;c&gt;</TD>"));
    assert!(!chunk.contains(">a&b<c></TD>"));
}
