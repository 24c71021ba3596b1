//! Rendering a stream of theses to a graph description: one header line,
//! one chunk per thesis with its node and its arrows, one closing line.

use vstd::prelude::*;
use vstd::utf8::encode_utf8;
use crate::chars::{is_whitespace, push_char, string_of_range};
use crate::commands::{e_scan_nonws, e_scan_ws, lemma_scan_nonws, lemma_scan_ws, scan_nonws, scan_ws};
use crate::content::ContentModel;
use crate::ids::{id_text, ObjectId};
use crate::thesis::{Thesis, ThesisModel};

verus! {

/// Which relation nodes are drawn as nodes of their own.
#[derive(Clone, Copy, PartialEq, Eq, Structural, Debug)]
pub enum ExternalizeRelationsNodes {
    Nothing,
    Related,
    All,
}

/// Which reference arrows are drawn.
#[derive(Clone, Copy, PartialEq, Eq, Structural, Debug)]
pub enum ShowNodesReferences {
    Nothing,
    Mentioned,
    All,
}

/// Rendering configuration. The wrap width bounds a node line's length in
/// bytes; zero suppresses node bodies.
#[derive(Clone, Copy, PartialEq, Eq, Structural, Debug)]
pub struct GraphGeneratorConfig {
    pub wrap_width: u16,
    pub externalize_relations_nodes: ExternalizeRelationsNodes,
    pub show_nodes_references: ShowNodesReferences,
}

/// Where the generator stands: before the header, amid the theses, or past
/// the closing line.
#[derive(Clone, Copy, PartialEq, Eq, Structural, Debug)]
pub enum Stage {
    BeforeFirstLine,
    Middle,
    AfterLastLine,
}

/// The words of a text from index `i` on: its maximal runs of
/// non-whitespace characters.
pub open spec fn spec_words(s: Seq<char>, i: int) -> Seq<Seq<char>>
    decreases s.len() - i,
{
    if !(0 <= i <= s.len()) {
        Seq::empty()
    } else {
        let a0 = scan_nonws(s, i);
        let a = if i <= a0 <= s.len() {
            a0
        } else {
            s.len() as int
        };
        if a >= s.len() {
            Seq::empty()
        } else {
            let b0 = scan_ws(s, a);
            let b = if a + 1 <= b0 <= s.len() {
                b0
            } else {
                if a + 1 <= s.len() {
                    a + 1
                } else {
                    s.len() as int
                }
            };
            seq![s.subrange(a, b)] + spec_words(s, b)
        }
    }
}

/// The byte length of a word.
pub open spec fn word_bytes(w: Seq<char>) -> int {
    encode_utf8(w).len() as int
}

/// Greedy wrapping from word `i` on, with `cur` the line under
/// construction: a word joins the line when it fits after a space, else it
/// starts the next line.
pub open spec fn wrap_acc(words: Seq<Seq<char>>, i: int, cur: Seq<char>, width: int) -> Seq<
    Seq<char>,
>
    decreases words.len() - i,
{
    if !(0 <= i < words.len()) {
        if cur.len() == 0 {
            Seq::empty()
        } else {
            seq![cur]
        }
    } else if cur.len() == 0 {
        wrap_acc(words, i + 1, words[i], width)
    } else if word_bytes(cur) + 1 + word_bytes(words[i]) <= width {
        wrap_acc(words, i + 1, cur + seq![' '] + words[i], width)
    } else {
        seq![cur] + wrap_acc(words, i + 1, words[i], width)
    }
}

/// Lines joined with a break tag before every line but the first.
pub open spec fn join_br(lines: Seq<Seq<char>>, i: int) -> Seq<char>
    decreases lines.len() - i,
{
    if !(0 <= i < lines.len()) {
        Seq::empty()
    } else {
        (if i > 0 {
            ("<br/>")@
        } else {
            Seq::<char>::empty()
        }) + lines[i] + join_br(lines, i + 1)
    }
}

/// The wrapped form of a text: its words rewrapped greedily to the width.
/// A zero width yields nothing.
pub open spec fn spec_wrap(s: Seq<char>, width: int) -> Seq<char> {
    if width == 0 {
        Seq::empty()
    } else {
        join_br(wrap_acc(spec_words(s, 0), 0, Seq::empty(), width), 0)
    }
}

/// Text with the three markup characters rewritten to entities.
pub open spec fn html_escaped(s: Seq<char>) -> Seq<char>
    decreases s.len(),
{
    if s.len() == 0 {
        Seq::empty()
    } else {
        (if s[0] == '&' {
            ("&amp;")@
        } else if s[0] == '<' {
            ("&lt;")@
        } else if s[0] == '>' {
            ("&gt;")@
        } else {
            seq![s[0]]
        }) + html_escaped(s.drop_first())
    }
}

/// Relies on html_escape::encode_text: it escapes exactly the characters
/// `&`, `<` and `>`, to `&amp;`, `&lt;` and `&gt;`, and leaves every other
/// character as it stands.
#[verifier::external_body]
fn encode_text(s: &str) -> (r: String)
    ensures
        r@ == html_escaped(s@),
{
    html_escape::encode_text(s).into_owned()
}

/// The header text of a node: its escaped alias when it has one, otherwise
/// its identity's textual form.
pub open spec fn spec_header_text(t: ThesisModel) -> Seq<char> {
    match t.alias {
        Some(a) => html_escaped(a),
        None => id_text(t.id()),
    }
}

/// The reference arrows of a text node, from reference `i` on.
pub open spec fn spec_arrows(idt: Seq<char>, refs: Seq<u128>, i: int) -> Seq<char>
    decreases refs.len() - i,
{
    if !(0 <= i < refs.len()) {
        Seq::empty()
    } else {
        ("\n\t\"")@ + idt + ("\" -> \"")@ + id_text(refs[i]) + (
        "\" [arrowhead=none, color=\"grey\" style=dotted];")@ + spec_arrows(idt, refs, i + 1)
    }
}

/// The chunk a thesis contributes: its node, then its arrows.
pub open spec fn spec_node_chunk(t: ThesisModel, width: int) -> Seq<char> {
    let idt = id_text(t.id());
    match t.content {
        ContentModel::Text(tm) => {
            ("\n\t\"")@ + idt + ("\" [label=<<TABLE BORDER=\"2\" CELLSPACING=\"0\" CELLPADDING=\"8\"><TR><TD BORDER=\"1\" SIDES=\"b\">")@
                + spec_header_text(t) + ("</TD></TR><TR><TD BORDER=\"0\">")@ + spec_wrap(
                tm.composed(),
                width,
            ) + ("</TD></TR></TABLE>>, shape=plaintext];")@ + spec_arrows(idt, tm.refs, 0)
        },
        ContentModel::Relation(r) => {
            ("\n\t\"")@ + idt + ("\" [label=<<TABLE CELLSPACING=\"0\" STYLE=\"dashed\"><TR><TD SIDES=\"b\" STYLE=\"dashed\">")@
                + spec_header_text(t) + ("</TD></TR><TR><TD BORDER=\"0\">")@ + r.kind + (
            "</TD></TR></TABLE>>, shape=plaintext];\n\t\"")@ + id_text(r.from) + ("\" -> \"")@
                + idt + ("\" [dir=back, arrowtail=tee];\n\t\"")@ + idt + ("\" -> \"")@ + id_text(
                r.to,
            ) + ("\";")@
        },
    }
}

/// The words of a text: its maximal runs of non-whitespace characters.
fn split_words(s: &str) -> (r: Vec<String>)
    ensures
        r@.map_values(|w: String| w@) == spec_words(s@, 0),
{
    let cs = crate::chars::chars_of(s);
    let n = cs.len();
    let mut out: Vec<String> = Vec::new();
    let mut i: usize = 0;
    while i < n
        invariant
            cs@ == s@,
            n == s@.len(),
            i <= n,
            spec_words(s@, 0) == out@.map_values(|w: String| w@) + spec_words(s@, i as int),
        decreases n - i,
    {
        let a = e_scan_nonws(&cs, i);
        if a >= n {
            proof {
                assert(spec_words(s@, i as int) =~= Seq::<Seq<char>>::empty());
                assert(spec_words(s@, n as int) =~= Seq::<Seq<char>>::empty());
            }
            i = n;
        } else {
            let b = e_scan_ws(&cs, a);
            proof {
                lemma_scan_nonws(s@, i as int);
                assert(!is_whitespace(s@[a as int]));
                lemma_scan_ws(s@, a + 1);
                assert(scan_ws(s@, a as int) == scan_ws(s@, a + 1));
                assert(b >= a + 1);
            }
            let ghost before = out@;
            out.push(string_of_range(&cs, a, b));
            proof {
                assert(spec_words(s@, i as int) == seq![s@.subrange(a as int, b as int)]
                    + spec_words(s@, b as int));
                assert(out@.map_values(|w: String| w@) =~= before.map_values(|w: String| w@)
                    + seq![s@.subrange(a as int, b as int)]);
                assert(before.map_values(|w: String| w@) + spec_words(s@, i as int)
                    =~= out@.map_values(|w: String| w@) + spec_words(s@, b as int));
            }
            i = b;
        }
    }
    proof {
        assert(spec_words(s@, n as int) =~= Seq::<Seq<char>>::empty());
        assert(out@.map_values(|w: String| w@) + Seq::<Seq<char>>::empty() =~= out@.map_values(
            |w: String| w@,
        ));
    }
    out
}

/// The textual form of an identifier, as a string.
fn id_string(id: &ObjectId) -> (r: String)
    ensures
        r@ == id_text(id.value),
{
    let c = id.text_chars();
    let r = string_of_range(&c, 0, c.len());
    proof {
        assert(c@.subrange(0, c@.len() as int) =~= c@);
    }
    r
}

/// Renders a stream of theses to a graph description, one chunk at a time.
pub struct GraphGenerator {
    pub config: GraphGeneratorConfig,
    pub theses: Vec<Thesis>,
    pub next_index: usize,
    pub stage: Stage,
}

impl GraphGenerator {
    /// A generator over the given theses, standing before the header line.
    pub fn new(config: GraphGeneratorConfig, theses: Vec<Thesis>) -> (r: GraphGenerator)
        ensures
            r.theses@ == theses@,
            r.config == config,
            r.next_index == 0,
            r.stage is BeforeFirstLine,
    {
        GraphGenerator { config, theses, next_index: 0, stage: Stage::BeforeFirstLine }
    }

    /// Greedy word wrap of a text to the configured width, lines joined
    /// with a break tag.
    fn wrap(&self, text: &str) -> (r: String)
        ensures
            r@ == spec_wrap(text@, self.config.wrap_width as int),
    {
        let width = self.config.wrap_width as usize;
        if width == 0 {
            let r = String::new();
            proof {
                assert(r@ =~= spec_wrap(text@, 0));
            }
            return r;
        }
        let words = split_words(text);
        let ghost wv = words@.map_values(|w: String| w@);
        let n = words.len();
        let mut lines: Vec<String> = Vec::new();
        let mut cur = String::new();
        let mut i: usize = 0;
        proof {
            assert(cur@.len() == 0);
        }
        while i < n
            invariant
                n == words@.len(),
                wv == words@.map_values(|w: String| w@),
                i <= n,
                width == self.config.wrap_width as int,
                1 <= width <= 65535,
                wrap_acc(wv, 0, Seq::empty(), width as int) == lines@.map_values(|l: String| l@)
                    + wrap_acc(wv, i as int, cur@, width as int),
            decreases n - i,
        {
            proof {
                assert(wv[i as int] == words@[i as int]@);
            }
            let wlen = words[i].as_str().as_bytes().len();
            proof {
                broadcast use vstd::slice::group_slice_axioms;

                assert(wlen as int == word_bytes(wv[i as int]));
            }
            if cur.as_str().is_empty() {
                cur = words[i].clone();
            } else {
                let clen = cur.as_str().as_bytes().len();
                proof {
                    broadcast use vstd::slice::group_slice_axioms;

                    assert(clen as int == word_bytes(cur@));
                }
                if clen <= width && wlen <= width && clen + 1 + wlen <= width {
                    let ghost cur_before = cur@;
                    let mut next = cur;
                    push_char(&mut next, ' ');
                    next.append(words[i].as_str());
                    proof {
                        assert(next@ =~= cur_before + seq![' '] + wv[i as int]);
                    }
                    cur = next;
                } else {
                    let ghost lines_before = lines@;
                    let ghost cur_before = cur@;
                    lines.push(cur);
                    cur = words[i].clone();
                    proof {
                        assert(wrap_acc(wv, i as int, cur_before, width as int) == seq![cur_before]
                            + wrap_acc(wv, i + 1, wv[i as int], width as int));
                        assert(lines@.map_values(|l: String| l@) =~= lines_before.map_values(
                            |l: String| l@,
                        ).push(cur_before));
                        assert(lines@.map_values(|l: String| l@) + wrap_acc(
                            wv,
                            i + 1,
                            cur@,
                            width as int,
                        ) =~= lines_before.map_values(|l: String| l@) + wrap_acc(
                            wv,
                            i as int,
                            cur_before,
                            width as int,
                        ));
                    }
                }
            }
            i = i + 1;
        }
        if !cur.as_str().is_empty() {
            let ghost lines_before = lines@;
            let ghost cur_before = cur@;
            lines.push(cur);
            proof {
                assert(wrap_acc(wv, n as int, cur_before, width as int) =~= seq![cur_before]);
                assert(lines@.map_values(|l: String| l@) =~= lines_before.map_values(
                    |l: String| l@,
                ).push(cur_before));
                assert(lines@.map_values(|l: String| l@) =~= lines_before.map_values(
                    |l: String| l@,
                ) + wrap_acc(wv, n as int, cur_before, width as int));
            }
        } else {
            proof {
                assert(wrap_acc(wv, n as int, cur@, width as int) =~= Seq::<Seq<char>>::empty());
                assert(lines@.map_values(|l: String| l@) + Seq::<Seq<char>>::empty()
                    =~= lines@.map_values(|l: String| l@));
            }
        }
        let ghost lv = lines@.map_values(|l: String| l@);
        proof {
            assert(lv == wrap_acc(wv, 0, Seq::empty(), width as int));
        }
        let m = lines.len();
        let mut out = String::new();
        let mut j: usize = 0;
        proof {
            assert(out@ + join_br(lv, 0) =~= join_br(lv, 0));
        }
        while j < m
            invariant
                m == lines@.len(),
                lv == lines@.map_values(|l: String| l@),
                j <= m,
                join_br(lv, 0) == out@ + join_br(lv, j as int),
            decreases m - j,
        {
            proof {
                assert(lv[j as int] == lines@[j as int]@);
            }
            if j > 0 {
                out.append("<br/>");
            }
            out.append(lines[j].as_str());
            proof {
                assert(out@ + join_br(lv, j + 1) =~= out@ + join_br(lv, j + 1));
                assert(join_br(lv, j as int) == (if j > 0 {
                    ("<br/>")@
                } else {
                    Seq::<char>::empty()
                }) + lv[j as int] + join_br(lv, j + 1));
            }
            j = j + 1;
        }
        proof {
            assert(join_br(lv, m as int) =~= Seq::<char>::empty());
            assert(out@ =~= join_br(lv, 0));
        }
        out
    }

    /// The next piece of the graph text: the header line, then one chunk
    /// per thesis, then the closing line, then nothing.
    pub fn next(&mut self) -> (r: Option<String>)
        ensures
            final(self).theses@ == old(self).theses@,
            final(self).config == old(self).config,
            match old(self).stage {
                Stage::BeforeFirstLine => (r matches Some(l) && l@ == ("digraph sweater {")@
                    && final(self).stage is Middle && final(self).next_index == old(self).next_index),
                Stage::Middle => {
                    if old(self).next_index < old(self).theses@.len() {
                        (r matches Some(l) && l@ == spec_node_chunk(
                            old(self).theses@[old(self).next_index as int]@,
                            old(self).config.wrap_width as int,
                        ) && final(self).stage is Middle && final(self).next_index == old(self).next_index + 1)
                    } else {
                        (r matches Some(l) && l@ == ("\n}")@ && final(self).stage is AfterLastLine
                            && final(self).next_index == old(self).next_index)
                    }
                },
                Stage::AfterLastLine => (r is None && final(self).stage is AfterLastLine && final(self).next_index == old(self).next_index),
            },
    {
        match self.stage {
            Stage::BeforeFirstLine => {
                self.stage = Stage::Middle;
                Some("digraph sweater {".to_owned())
            },
            Stage::Middle => {
                if self.next_index < self.theses.len() {
                    let idx = self.next_index;
                    let idt = id_string(&self.theses[idx].id());
                    let header_text = match &self.theses[idx].alias {
                        Some(a) => encode_text(a.0.as_str()),
                        None => idt.clone(),
                    };
                    proof {
                        assert(self.theses@[idx as int]@ == self.theses@[idx as int]@);
                        assert(header_text@ == spec_header_text(self.theses@[idx as int]@));
                    }
                    let chunk = match &self.theses[idx].content {
                        crate::content::Content::Text(t) => {
                            let body = self.wrap(t.composed().as_str());
                            let mut line = String::new();
                            line.append("\n\t\"");
                            line.append(idt.as_str());
                            line.append(
                                "\" [label=<<TABLE BORDER=\"2\" CELLSPACING=\"0\" CELLPADDING=\"8\"><TR><TD BORDER=\"1\" SIDES=\"b\">",
                            );
                            line.append(header_text.as_str());
                            line.append("</TD></TR><TR><TD BORDER=\"0\">");
                            line.append(body.as_str());
                            line.append("</TD></TR></TABLE>>, shape=plaintext];");
                            let ghost head = line@;
                            // The reference arrows, in order.
                            let refs = &t.references;
                            let nr = refs.len();
                            let mut k: usize = 0;
                            proof {
                                assert(line@ + spec_arrows(idt@, t@.refs, 0) =~= head
                                    + spec_arrows(idt@, t@.refs, 0));
                            }
                            while k < nr
                                invariant
                                    nr == refs@.len(),
                                    t@.refs == refs@.map_values(|o: ObjectId| o.value),
                                    idt@ == idt@,
                                    head + spec_arrows(idt@, t@.refs, 0) == line@ + spec_arrows(
                                        idt@,
                                        t@.refs,
                                        k as int,
                                    ),
                                decreases nr - k,
                            {
                                proof {
                                    assert(t@.refs[k as int] == refs@[k as int].value);
                                }
                                line.append("\n\t\"");
                                line.append(idt.as_str());
                                line.append("\" -> \"");
                                let rid = id_string(&refs[k]);
                                line.append(rid.as_str());
                                line.append("\" [arrowhead=none, color=\"grey\" style=dotted];");
                                proof {
                                    assert(spec_arrows(idt@, t@.refs, k as int) == ("\n\t\"")@
                                        + idt@ + ("\" -> \"")@ + id_text(t@.refs[k as int]) + (
                                    "\" [arrowhead=none, color=\"grey\" style=dotted];")@
                                        + spec_arrows(idt@, t@.refs, k + 1));
                                    assert(head + spec_arrows(idt@, t@.refs, 0) =~= line@
                                        + spec_arrows(idt@, t@.refs, k + 1));
                                }
                                k = k + 1;
                            }
                            proof {
                                assert(spec_arrows(idt@, t@.refs, nr as int) =~= Seq::<
                                    char,
                                >::empty());
                                assert(line@ =~= head + spec_arrows(idt@, t@.refs, 0));
                            }
                            line
                        },
                        crate::content::Content::Relation(rel) => {
                            let mut line = String::new();
                            line.append("\n\t\"");
                            line.append(idt.as_str());
                            line.append(
                                "\" [label=<<TABLE CELLSPACING=\"0\" STYLE=\"dashed\"><TR><TD SIDES=\"b\" STYLE=\"dashed\">",
                            );
                            line.append(header_text.as_str());
                            line.append("</TD></TR><TR><TD BORDER=\"0\">");
                            line.append(rel.kind.0.as_str());
                            line.append("</TD></TR></TABLE>>, shape=plaintext];\n\t\"");
                            let fid = id_string(&rel.from);
                            line.append(fid.as_str());
                            line.append("\" -> \"");
                            line.append(idt.as_str());
                            line.append("\" [dir=back, arrowtail=tee];\n\t\"");
                            line.append(idt.as_str());
                            line.append("\" -> \"");
                            let tid = id_string(&rel.to);
                            line.append(tid.as_str());
                            line.append("\";");
                            line
                        },
                    };
                    proof {
                        assert(chunk@ =~= spec_node_chunk(
                            self.theses@[idx as int]@,
                            self.config.wrap_width as int,
                        ));
                    }
                    self.next_index = idx + 1;
                    Some(chunk)
                } else {
                    self.stage = Stage::AfterLastLine;
                    Some("\n}".to_owned())
                }
            },
            Stage::AfterLastLine => None,
        }
    }
}

} // verus!
