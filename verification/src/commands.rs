//! The command language: paragraphs separated by blank lines, each turned
//! into one command. The first line of a paragraph names the operation and
//! may carry one token; the remaining lines are its payload.
//!
//! Parsing is fail-fast: the first malformed paragraph stops the batch with
//! an error naming that paragraph's index, starting at 1.

use vstd::prelude::*;
use crate::alias::{is_alias_text, Alias};
use crate::chars::{chars_of, is_whitespace, string_of_range, whitespace_char};
use crate::content::{Content, ContentModel};
use crate::errors::{CommandParseError, SweaterError};
use crate::ids::{id_text_value, is_id_text, ObjectId};
use crate::reference::Reference;
use crate::relation::{is_kind_text, Relation, RelationKind, RelationModel};
use crate::resolver::{state_resolve_alias, AliasesResolver};
use crate::store::{contains_id, Store};
use crate::tag::{is_tag_text, tag_views, Tag};
use crate::text::{all_raws_valid, all_tokens_resolve, parsed_model, spec_tokenize, Text, TextModel};
use crate::thesis::{Thesis, ThesisModel};

verus! {

/// A line break character.
pub open spec fn is_break_char(c: char) -> bool {
    c == '\n' || c == '\r'
}

/// The smallest index at or after `i` holding a break character, or the
/// length.
pub open spec fn scan_break(s: Seq<char>, i: int) -> int
    decreases s.len() - i,
{
    if i < 0 || i >= s.len() {
        s.len() as int
    } else if is_break_char(s[i]) {
        i
    } else {
        scan_break(s, i + 1)
    }
}

/// The smallest index at or after `i` holding a character that is not a
/// break, or the length.
pub open spec fn scan_nonbreak(s: Seq<char>, i: int) -> int
    decreases s.len() - i,
{
    if i < 0 || i >= s.len() {
        s.len() as int
    } else if !is_break_char(s[i]) {
        i
    } else {
        scan_nonbreak(s, i + 1)
    }
}

/// What the scanners return: the first index with the property, within
/// bounds.
proof fn lemma_scan_break(s: Seq<char>, i: int)
    requires
        0 <= i <= s.len(),
    ensures
        i <= scan_break(s, i) <= s.len(),
        scan_break(s, i) < s.len() ==> is_break_char(s[scan_break(s, i)]),
        forall|k: int| i <= k < scan_break(s, i) ==> !is_break_char(s[k]),
    decreases s.len() - i,
{
    if i < s.len() && !is_break_char(s[i]) {
        lemma_scan_break(s, i + 1);
    }
}

proof fn lemma_scan_nonbreak(s: Seq<char>, i: int)
    requires
        0 <= i <= s.len(),
    ensures
        i <= scan_nonbreak(s, i) <= s.len(),
        scan_nonbreak(s, i) < s.len() ==> !is_break_char(s[scan_nonbreak(s, i)]),
        forall|k: int| i <= k < scan_nonbreak(s, i) ==> is_break_char(s[k]),
    decreases s.len() - i,
{
    if i < s.len() && is_break_char(s[i]) {
        lemma_scan_nonbreak(s, i + 1);
    }
}

/// Whether the break run starting at `b` separates paragraphs: it holds at
/// least two line breaks, where a carriage return followed by a line feed
/// counts as one.
pub open spec fn is_sep_at(s: Seq<char>, b: int) -> bool {
    let e0 = scan_nonbreak(s, b + 1);
    let e = if b + 1 <= e0 <= s.len() {
        e0
    } else {
        s.len() as int
    };
    e - b >= 3 || (e - b == 2 && !(s[b] == '\r' && s[b + 1] == '\n'))
}

/// The end of the paragraph starting at `i`: the first separating break run
/// at or after it, or the end of the input. Break runs that do not separate
/// stay inside the paragraph.
pub open spec fn para_end(s: Seq<char>, i: int) -> int
    decreases s.len() - i,
{
    let b0 = scan_break(s, i);
    let b = if i <= b0 <= s.len() {
        b0
    } else {
        s.len() as int
    };
    if b >= s.len() {
        s.len() as int
    } else if is_sep_at(s, b) {
        b
    } else {
        let e0 = scan_nonbreak(s, b + 1);
        let e = if b + 1 <= e0 <= s.len() {
            e0
        } else {
            if b + 1 <= s.len() {
                b + 1
            } else {
                s.len() as int
            }
        };
        para_end(s, e)
    }
}

/// The paragraph end lies between the start and the end of the input.
proof fn lemma_para_end(s: Seq<char>, i: int)
    requires
        0 <= i <= s.len(),
    ensures
        i <= para_end(s, i) <= s.len(),
    decreases s.len() - i,
{
    lemma_scan_break(s, i);
    let b = scan_break(s, i);
    if b < s.len() && !is_sep_at(s, b) {
        lemma_scan_nonbreak(s, b + 1);
        lemma_para_end(s, scan_nonbreak(s, b + 1));
    }
}

/// The raw paragraphs of the input from `i` on: the spans between
/// separating break runs, separators dropped.
pub open spec fn split_from(s: Seq<char>, i: int) -> Seq<Seq<char>>
    decreases s.len() - i,
{
    if !(0 <= i <= s.len()) {
        Seq::empty()
    } else {
        let e0 = para_end(s, i);
        let e = if i <= e0 <= s.len() {
            e0
        } else {
            s.len() as int
        };
        if e >= s.len() {
            seq![s.subrange(i, s.len() as int)]
        } else {
            let n0 = scan_nonbreak(s, e + 1);
            let n = if e + 1 <= n0 <= s.len() {
                n0
            } else {
                if e + 1 <= s.len() {
                    e + 1
                } else {
                    s.len() as int
                }
            };
            seq![s.subrange(i, e)] + split_from(s, n)
        }
    }
}

/// The last index before which the sequence ends with whitespace only.
pub open spec fn trim_end_at(s: Seq<char>) -> int
    decreases s.len(),
{
    if s.len() == 0 {
        0
    } else if is_whitespace(s.last()) {
        trim_end_at(s.drop_last())
    } else {
        s.len() as int
    }
}

/// The smallest index at or after `i` holding a character that is not
/// whitespace, or the length.
pub open spec fn scan_nonws(s: Seq<char>, i: int) -> int
    decreases s.len() - i,
{
    if i < 0 || i >= s.len() {
        s.len() as int
    } else if !is_whitespace(s[i]) {
        i
    } else {
        scan_nonws(s, i + 1)
    }
}

pub(crate) proof fn lemma_scan_nonws(s: Seq<char>, i: int)
    requires
        0 <= i <= s.len(),
    ensures
        i <= scan_nonws(s, i) <= s.len(),
        scan_nonws(s, i) < s.len() ==> !is_whitespace(s[scan_nonws(s, i)]),
        forall|k: int| i <= k < scan_nonws(s, i) ==> is_whitespace(s[k]),
    decreases s.len() - i,
{
    if i < s.len() && is_whitespace(s[i]) {
        lemma_scan_nonws(s, i + 1);
    }
}

proof fn lemma_trim_end_at(s: Seq<char>)
    ensures
        0 <= trim_end_at(s) <= s.len(),
        forall|k: int| trim_end_at(s) <= k < s.len() ==> is_whitespace(s[k]),
        trim_end_at(s) > 0 ==> !is_whitespace(s[trim_end_at(s) - 1]),
    decreases s.len(),
{
    if s.len() > 0 && is_whitespace(s.last()) {
        lemma_trim_end_at(s.drop_last());
        assert forall|k: int| trim_end_at(s) <= k < s.len() implies is_whitespace(s[k]) by {
            if k < s.len() - 1 {
                assert(s.drop_last()[k] == s[k]);
            }
        }
    }
}

/// The sequence without leading and trailing whitespace.
pub open spec fn spec_trim(s: Seq<char>) -> Seq<char> {
    let a0 = scan_nonws(s, 0);
    let a = if 0 <= a0 <= s.len() {
        a0
    } else {
        s.len() as int
    };
    let b = trim_end_at(s);
    if a <= b {
        s.subrange(a, b)
    } else {
        Seq::empty()
    }
}

/// The trimmed, non-empty paragraphs among the first `i` raw paragraphs, in
/// order.
pub open spec fn paras_clean_upto(ps: Seq<Seq<char>>, i: int) -> Seq<Seq<char>>
    decreases i,
{
    if i <= 0 || i > ps.len() {
        Seq::empty()
    } else {
        paras_clean_upto(ps, i - 1) + (if spec_trim(ps[i - 1]).len() > 0 {
            seq![spec_trim(ps[i - 1])]
        } else {
            Seq::empty()
        })
    }
}

/// The paragraphs of a batch: spans between blank-line separators, trimmed,
/// the empty ones dropped.
pub open spec fn spec_paragraphs(s: Seq<char>) -> Seq<Seq<char>> {
    paras_clean_upto(split_from(s, 0), split_from(s, 0).len() as int)
}

/// The smallest index at or after `i` holding a line feed, or the length.
pub open spec fn scan_newline(s: Seq<char>, i: int) -> int
    decreases s.len() - i,
{
    if i < 0 || i >= s.len() {
        s.len() as int
    } else if s[i] == '\n' {
        i
    } else {
        scan_newline(s, i + 1)
    }
}

proof fn lemma_scan_newline(s: Seq<char>, i: int)
    requires
        0 <= i <= s.len(),
    ensures
        i <= scan_newline(s, i) <= s.len(),
        scan_newline(s, i) < s.len() ==> s[scan_newline(s, i)] == '\n',
        forall|k: int| i <= k < scan_newline(s, i) ==> s[k] != '\n',
    decreases s.len() - i,
{
    if i < s.len() && s[i] != '\n' {
        lemma_scan_newline(s, i + 1);
    }
}

/// The lines of a paragraph: spans between line feeds. There is always at
/// least one line.
pub open spec fn spec_lines(p: Seq<char>) -> Seq<Seq<char>>
    decreases p.len(),
{
    let k0 = scan_newline(p, 0);
    let k = if 0 <= k0 <= p.len() {
        k0
    } else {
        p.len() as int
    };
    if k >= p.len() {
        seq![p]
    } else {
        seq![p.subrange(0, k)] + spec_lines(p.skip(k + 1))
    }
}

/// An operation character of the command language.
pub open spec fn is_op_char(c: char) -> bool {
    c == '+' || c == '-' || c == '#' || c == '^' || c == '@'
}

/// The smallest index at or after `i` holding a character that is not a
/// space, or the length.
pub open spec fn scan_nonspace(s: Seq<char>, i: int) -> int
    decreases s.len() - i,
{
    if i < 0 || i >= s.len() {
        s.len() as int
    } else if s[i] != ' ' {
        i
    } else {
        scan_nonspace(s, i + 1)
    }
}

proof fn lemma_scan_nonspace(s: Seq<char>, i: int)
    requires
        0 <= i <= s.len(),
    ensures
        i <= scan_nonspace(s, i) <= s.len(),
        scan_nonspace(s, i) < s.len() ==> s[scan_nonspace(s, i)] != ' ',
        forall|k: int| i <= k < scan_nonspace(s, i) ==> s[k] == ' ',
    decreases s.len() - i,
{
    if i < s.len() && s[i] == ' ' {
        lemma_scan_nonspace(s, i + 1);
    }
}

/// The smallest index at or after `i` holding a whitespace character, or
/// the length.
pub open spec fn scan_ws(s: Seq<char>, i: int) -> int
    decreases s.len() - i,
{
    if i < 0 || i >= s.len() {
        s.len() as int
    } else if is_whitespace(s[i]) {
        i
    } else {
        scan_ws(s, i + 1)
    }
}

pub(crate) proof fn lemma_scan_ws(s: Seq<char>, i: int)
    requires
        0 <= i <= s.len(),
    ensures
        i <= scan_ws(s, i) <= s.len(),
        scan_ws(s, i) < s.len() ==> is_whitespace(s[scan_ws(s, i)]),
        forall|k: int| i <= k < scan_ws(s, i) ==> !is_whitespace(s[k]),
    decreases s.len() - i,
{
    if i < s.len() && !is_whitespace(s[i]) {
        lemma_scan_ws(s, i + 1);
    }
}

/// The shape of a paragraph's first line: optional spaces, one operation
/// character, optionally at least one space and one token of non-whitespace
/// characters, optional trailing spaces. Anything else does not parse.
pub open spec fn spec_first_line(l: Seq<char>) -> Option<(char, Option<Seq<char>>)> {
    let a0 = scan_nonspace(l, 0);
    let a = if 0 <= a0 <= l.len() {
        a0
    } else {
        l.len() as int
    };
    if a >= l.len() {
        None
    } else if !is_op_char(l[a]) {
        None
    } else if a + 1 >= l.len() {
        Some((l[a], None))
    } else if l[a + 1] != ' ' {
        None
    } else {
        let b0 = scan_nonspace(l, a + 1);
        let b = if a + 1 <= b0 <= l.len() {
            b0
        } else {
            l.len() as int
        };
        if b >= l.len() {
            Some((l[a], None))
        } else {
            let c0 = scan_ws(l, b);
            let c = if b <= c0 <= l.len() {
                c0
            } else {
                l.len() as int
            };
            let d0 = scan_nonspace(l, c);
            let d = if c <= d0 <= l.len() {
                d0
            } else {
                l.len() as int
            };
            if d >= l.len() {
                Some((l[a], Some(l.subrange(b, c))))
            } else {
                None
            }
        }
    }
}

/// What a reference token in a command names: an alias-shaped token is
/// resolved against the bindings and the store; a token in the textual form
/// of an identifier must name a stored thesis; anything else is refused.
pub open spec fn spec_resolve_token(
    m: Seq<ThesisModel>,
    known: Seq<(Seq<char>, u128)>,
    tok: Seq<char>,
) -> Result<u128, SweaterError> {
    if is_alias_text(tok) {
        match state_resolve_alias(m, known, tok) {
            Some(v) => Ok(v),
            None => Err(SweaterError::UnknownAlias),
        }
    } else if is_id_text(tok) {
        if contains_id(m, id_text_value(tok) as u128) {
            Ok(id_text_value(tok) as u128)
        } else {
            Err(SweaterError::UnknownThesis)
        }
    } else {
        Err(SweaterError::InvalidSyntax)
    }
}

/// What parsing a text body yields: its tokens, with every reference
/// resolved and every raw span valid.
pub open spec fn spec_text_parse(
    m: Seq<ThesisModel>,
    known: Seq<(Seq<char>, u128)>,
    src: Seq<char>,
) -> Result<TextModel, SweaterError> {
    match spec_tokenize(src) {
        Option::None => Err(SweaterError::InvalidSyntax),
        Option::Some(toks) => {
            if !all_tokens_resolve(m, known, toks) {
                Err(SweaterError::UnknownAlias)
            } else if !all_raws_valid(toks) {
                Err(SweaterError::InvalidSyntax)
            } else {
                Ok(parsed_model(m, known, toks))
            }
        },
    }
}

/// Whether every entry is a well-formed tag.
pub open spec fn all_tags_valid(tags: Seq<Seq<char>>) -> bool {
    forall|i: int| 0 <= i < tags.len() ==> is_tag_text(#[trigger] tags[i])
}

/// The ghost shape of a command.
pub enum CommandModel {
    AddThesis(ThesisModel),
    RemoveThesis(u128),
    AddTags(u128, Seq<Seq<char>>),
    RemoveTags(u128, Seq<Seq<char>>),
    SetAlias(u128, Seq<char>),
}

impl CommandModel {
    /// Whether the values carried by the command are well-formed.
    pub open spec fn is_valid(self) -> bool {
        match self {
            CommandModel::AddThesis(t) => t.is_valid(),
            CommandModel::RemoveThesis(_) => true,
            CommandModel::AddTags(_, tags) => forall|i: int|
                0 <= i < tags.len() ==> is_tag_text(#[trigger] tags[i]),
            CommandModel::RemoveTags(_, tags) => forall|i: int|
                0 <= i < tags.len() ==> is_tag_text(#[trigger] tags[i]),
            CommandModel::SetAlias(_, a) => is_alias_text(a),
        }
    }
}

/// The aliases a command binds for the remainder of the batch: a created
/// thesis's alias names the thesis, a renamed thesis's new alias names it.
pub open spec fn command_bindings(c: CommandModel) -> Seq<(Seq<char>, u128)> {
    match c {
        CommandModel::AddThesis(t) => match t.alias {
            Some(a) => seq![(a, t.id())],
            None => Seq::empty(),
        },
        CommandModel::SetAlias(id, a) => seq![(a, id)],
        _ => Seq::empty(),
    }
}

/// The command one paragraph means, against a store snapshot and the
/// aliases bound so far.
pub open spec fn spec_parse_paragraph(
    m: Seq<ThesisModel>,
    known: Seq<(Seq<char>, u128)>,
    p: Seq<char>,
) -> Result<CommandModel, SweaterError> {
    let ls = spec_lines(p);
    match spec_first_line(ls[0]) {
        Option::None => Err(SweaterError::InvalidCommand),
        Option::Some((op, tok_opt)) => {
            if op == '+' && ls.len() == 2 {
                match spec_text_parse(m, known, ls[1]) {
                    Err(e) => Err(e),
                    Ok(tm) => Ok(
                        CommandModel::AddThesis(
                            ThesisModel {
                                alias: tok_opt,
                                content: ContentModel::Text(tm),
                                tags: Seq::empty(),
                            },
                        ),
                    ),
                }
            } else if op == '+' && ls.len() == 4 {
                match spec_resolve_token(m, known, ls[1]) {
                    Err(e) => Err(e),
                    Ok(from) => {
                        if !is_kind_text(ls[2]) {
                            Err(SweaterError::InvalidSyntax)
                        } else {
                            match spec_resolve_token(m, known, ls[3]) {
                                Err(e) => Err(e),
                                Ok(to) => Ok(
                                    CommandModel::AddThesis(
                                        ThesisModel {
                                            alias: tok_opt,
                                            content: ContentModel::Relation(
                                                RelationModel { from, to, kind: ls[2] },
                                            ),
                                            tags: Seq::empty(),
                                        },
                                    ),
                                ),
                            }
                        }
                    },
                }
            } else if op == '-' && ls.len() == 1 && tok_opt is Some {
                match spec_resolve_token(m, known, tok_opt->0) {
                    Err(e) => Err(e),
                    Ok(id) => Ok(CommandModel::RemoveThesis(id)),
                }
            } else if op == '-' && ls.len() == 2 && tok_opt is None {
                match spec_resolve_token(m, known, ls[1]) {
                    Err(e) => Err(e),
                    Ok(id) => Ok(CommandModel::RemoveThesis(id)),
                }
            } else if (op == '#' || op == '^') && ((tok_opt is Some && ls.len() >= 2) || (
            tok_opt is None && ls.len() >= 3)) {
                let ref_tok = match tok_opt {
                    Option::Some(t) => t,
                    Option::None => ls[1],
                };
                let tags = match tok_opt {
                    Option::Some(_) => ls.skip(1),
                    Option::None => ls.skip(2),
                };
                match spec_resolve_token(m, known, ref_tok) {
                    Err(e) => Err(e),
                    Ok(id) => {
                        if !all_tags_valid(tags) {
                            Err(SweaterError::InvalidSyntax)
                        } else if op == '#' {
                            Ok(CommandModel::AddTags(id, tags))
                        } else {
                            Ok(CommandModel::RemoveTags(id, tags))
                        }
                    },
                }
            } else if op == '@' && tok_opt is Some && ls.len() == 2 {
                match spec_resolve_token(m, known, ls[1]) {
                    Err(e) => Err(e),
                    Ok(id) => Ok(CommandModel::SetAlias(id, tok_opt->0)),
                }
            } else {
                Err(SweaterError::InvalidCommand)
            }
        },
    }
}

/// The commands of the paragraphs from `i` on, each parsed against the
/// bindings left by those before it. Fail-fast: the first refused paragraph
/// stops the batch, named by its index, starting at 1.
pub open spec fn spec_parse_from(
    m: Seq<ThesisModel>,
    paras: Seq<Seq<char>>,
    i: int,
    known: Seq<(Seq<char>, u128)>,
) -> Result<Seq<CommandModel>, (int, SweaterError)>
    decreases paras.len() - i,
{
    if i < 0 || i >= paras.len() {
        Ok(Seq::empty())
    } else {
        match spec_parse_paragraph(m, known, paras[i]) {
            Err(e) => Err((i + 1, e)),
            Ok(cmd) => {
                match spec_parse_from(m, paras, i + 1, known + command_bindings(cmd)) {
                    Err(ke) => Err(ke),
                    Ok(rest) => Ok(seq![cmd] + rest),
                }
            },
        }
    }
}

/// A batch-edit command.
#[derive(PartialEq, Eq, Debug)]
pub enum Command {
    AddThesis(Thesis),
    RemoveThesis(ObjectId),
    AddTags(ObjectId, Vec<Tag>),
    RemoveTags(ObjectId, Vec<Tag>),
    SetAlias(ObjectId, Alias),
}

impl View for Command {
    type V = CommandModel;

    open spec fn view(&self) -> CommandModel {
        match self {
            Command::AddThesis(t) => CommandModel::AddThesis(t@),
            Command::RemoveThesis(id) => CommandModel::RemoveThesis(id.value),
            Command::AddTags(id, tags) => CommandModel::AddTags(id.value, tag_views(tags@)),
            Command::RemoveTags(id, tags) => CommandModel::RemoveTags(id.value, tag_views(tags@)),
            Command::SetAlias(id, a) => CommandModel::SetAlias(id.value, a.0@),
        }
    }
}

impl Command {
    /// Checks that the values carried by the command are well-formed,
    /// returning the command itself on success.
    #[verifier::rlimit(30)]
    pub fn validated(&self) -> (r: Result<&Self, SweaterError>)
        ensures
            r is Ok <==> self@.is_valid(),
            r is Ok ==> r->Ok_0 == self,
            r is Err ==> r->Err_0 == SweaterError::InvalidSyntax,
    {
        match self {
            Command::AddThesis(t) => {
                match t.validated() {
                    Ok(_) => Ok(self),
                    Err(e) => Err(e),
                }
            },
            Command::RemoveThesis(_) => Ok(self),
            Command::AddTags(_, tags) => {
                match validate_tags(tags) {
                    Ok(_) => {
                        proof {
                            assert(self@.is_valid());
                        }
                        Ok(self)
                    },
                    Err(e) => {
                        proof {
                            assert(tag_views(tags@).len() == tags@.len());
                            let i0 = choose|i: int|
                                0 <= i < tags@.len() && !is_tag_text(
                                    #[trigger] tag_views(tags@)[i],
                                );
                            assert(0 <= i0 < tag_views(tags@).len());
                            assert(!is_tag_text(tag_views(tags@)[i0]));
                            assert(!self@.is_valid());
                        }
                        Err(e)
                    },
                }
            },
            Command::RemoveTags(_, tags) => {
                match validate_tags(tags) {
                    Ok(_) => {
                        proof {
                            assert(self@.is_valid());
                        }
                        Ok(self)
                    },
                    Err(e) => {
                        proof {
                            assert(tag_views(tags@).len() == tags@.len());
                            let i0 = choose|i: int|
                                0 <= i < tags@.len() && !is_tag_text(
                                    #[trigger] tag_views(tags@)[i],
                                );
                            assert(0 <= i0 < tag_views(tags@).len());
                            assert(!is_tag_text(tag_views(tags@)[i0]));
                            assert(self@ is RemoveTags);
                            assert(self@->RemoveTags_1 == tag_views(tags@));
                            assert(!self@.is_valid());
                        }
                        Err(e)
                    },
                }
            },
            Command::SetAlias(_, a) => {
                match a.validated() {
                    Ok(_) => Ok(self),
                    Err(e) => Err(e),
                }
            },
        }
    }
}

/// Checks that every tag in the vector is well-formed.
fn validate_tags(tags: &Vec<Tag>) -> (r: Result<(), SweaterError>)
    ensures
        r is Ok <==> (forall|i: int|
            0 <= i < tags@.len() ==> is_tag_text(#[trigger] tag_views(tags@)[i])),
        r is Err ==> r->Err_0 == SweaterError::InvalidSyntax,
{
    let n = tags.len();
    let mut i: usize = 0;
    while i < n
        invariant
            n == tags@.len(),
            i <= n,
            forall|k: int| 0 <= k < i ==> is_tag_text(#[trigger] tag_views(tags@)[k]),
        decreases n - i,
    {
        proof {
            assert(tag_views(tags@)[i as int] == tags@[i as int].0@);
        }
        match tags[i].validate() {
            Ok(_) => {},
            Err(e) => {
                return Err(e);
            },
        }
        i = i + 1;
    }
    Ok(())
}

/// The first break character at or after `i`.
fn e_scan_break(cs: &Vec<char>, i: usize) -> (r: usize)
    requires
        i <= cs@.len(),
    ensures
        r as int == scan_break(cs@, i as int),
        i <= r <= cs@.len(),
{
    proof {
        lemma_scan_break(cs@, i as int);
    }
    let n = cs.len();
    let mut j: usize = i;
    while j < n && !(cs[j] == '\n' || cs[j] == '\r')
        invariant
            i <= j <= n,
            n == cs@.len(),
            scan_break(cs@, i as int) == scan_break(cs@, j as int),
        decreases n - j,
    {
        j = j + 1;
    }
    j
}

/// The first non-break character at or after `i`.
fn e_scan_nonbreak(cs: &Vec<char>, i: usize) -> (r: usize)
    requires
        i <= cs@.len(),
    ensures
        r as int == scan_nonbreak(cs@, i as int),
        i <= r <= cs@.len(),
{
    proof {
        lemma_scan_nonbreak(cs@, i as int);
    }
    let n = cs.len();
    let mut j: usize = i;
    while j < n && (cs[j] == '\n' || cs[j] == '\r')
        invariant
            i <= j <= n,
            n == cs@.len(),
            scan_nonbreak(cs@, i as int) == scan_nonbreak(cs@, j as int),
        decreases n - j,
    {
        j = j + 1;
    }
    j
}

/// The first non-whitespace character at or after `i`.
pub(crate) fn e_scan_nonws(cs: &Vec<char>, i: usize) -> (r: usize)
    requires
        i <= cs@.len(),
    ensures
        r as int == scan_nonws(cs@, i as int),
        i <= r <= cs@.len(),
{
    proof {
        lemma_scan_nonws(cs@, i as int);
    }
    let n = cs.len();
    let mut j: usize = i;
    while j < n && whitespace_char(cs[j])
        invariant
            i <= j <= n,
            n == cs@.len(),
            scan_nonws(cs@, i as int) == scan_nonws(cs@, j as int),
        decreases n - j,
    {
        j = j + 1;
    }
    j
}

/// The first non-space character at or after `i`.
fn e_scan_nonspace(cs: &Vec<char>, i: usize) -> (r: usize)
    requires
        i <= cs@.len(),
    ensures
        r as int == scan_nonspace(cs@, i as int),
        i <= r <= cs@.len(),
{
    proof {
        lemma_scan_nonspace(cs@, i as int);
    }
    let n = cs.len();
    let mut j: usize = i;
    while j < n && cs[j] == ' '
        invariant
            i <= j <= n,
            n == cs@.len(),
            scan_nonspace(cs@, i as int) == scan_nonspace(cs@, j as int),
        decreases n - j,
    {
        j = j + 1;
    }
    j
}

/// The first whitespace character at or after `i`.
pub(crate) fn e_scan_ws(cs: &Vec<char>, i: usize) -> (r: usize)
    requires
        i <= cs@.len(),
    ensures
        r as int == scan_ws(cs@, i as int),
        i <= r <= cs@.len(),
{
    proof {
        lemma_scan_ws(cs@, i as int);
    }
    let n = cs.len();
    let mut j: usize = i;
    while j < n && !whitespace_char(cs[j])
        invariant
            i <= j <= n,
            n == cs@.len(),
            scan_ws(cs@, i as int) == scan_ws(cs@, j as int),
        decreases n - j,
    {
        j = j + 1;
    }
    j
}

/// The first line feed at or after `i`.
fn e_scan_newline(cs: &Vec<char>, i: usize) -> (r: usize)
    requires
        i <= cs@.len(),
    ensures
        r as int == scan_newline(cs@, i as int),
        i <= r <= cs@.len(),
{
    proof {
        lemma_scan_newline(cs@, i as int);
    }
    let n = cs.len();
    let mut j: usize = i;
    while j < n && cs[j] != '\n'
        invariant
            i <= j <= n,
            n == cs@.len(),
            scan_newline(cs@, i as int) == scan_newline(cs@, j as int),
        decreases n - j,
    {
        j = j + 1;
    }
    j
}

/// The characters without leading and trailing whitespace, as a string.
fn trim_chars(cs: &Vec<char>) -> (r: String)
    ensures
        r@ == spec_trim(cs@),
{
    let a = e_scan_nonws(cs, 0);
    let mut b: usize = cs.len();
    proof {
        assert(cs@.take(b as int) =~= cs@);
    }
    while b > 0 && whitespace_char(cs[b - 1])
        invariant
            b <= cs@.len(),
            trim_end_at(cs@) == trim_end_at(cs@.take(b as int)),
        decreases b,
    {
        proof {
            assert(cs@.take(b as int).last() == cs@[b - 1]);
            assert(cs@.take(b as int).drop_last() =~= cs@.take(b - 1));
        }
        b = b - 1;
    }
    proof {
        if b == 0 {
            assert(cs@.take(0).len() == 0);
            assert(trim_end_at(cs@) == 0);
        } else {
            assert(cs@.take(b as int).last() == cs@[b - 1]);
            assert(trim_end_at(cs@.take(b as int)) == b);
        }
    }
    if a <= b {
        string_of_range(cs, a, b)
    } else {
        let r = String::new();
        proof {
            assert(r@ =~= spec_trim(cs@));
        }
        r
    }
}

/// Splits the input into its trimmed, non-empty paragraphs.
fn split_paragraphs(input: &str) -> (r: Vec<String>)
    ensures
        r@.map_values(|p: String| p@) == spec_paragraphs(input@),
{
    let ghost s = input@;
    let cs = chars_of(input);
    let n = cs.len();
    // Raw split at separating break runs.
    let mut raw: Vec<String> = Vec::new();
    let mut i: usize = 0;
    let mut done = false;
    while !done
        invariant
            s == input@,
            cs@ == s,
            n == s.len(),
            i <= n,
            !done ==> split_from(s, 0) == raw@.map_values(|p: String| p@) + split_from(
                s,
                i as int,
            ),
            done ==> split_from(s, 0) == raw@.map_values(|p: String| p@),
        decreases n - i + (if done {
            0int
        } else {
            1int
        }),
    {
        // The end of the paragraph starting at i.
        let mut p: usize = i;
        let mut e: usize = n;
        let mut found = false;
        while !found && p < n
            invariant
                cs@ == s,
                n == s.len(),
                i <= p <= n,
                para_end(s, i as int) == para_end(s, p as int),
                found ==> p <= e <= n && para_end(s, p as int) == e as int,
                !found ==> e == n,
            decreases n - p + (if found {
                0int
            } else {
                1int
            }),
        {
            let pb = e_scan_break(&cs, p);
            if pb >= n {
                proof {
                    assert(para_end(s, p as int) == n as int);
                }
                e = n;
                found = true;
                proof {
                    assert(para_end(s, p as int) == e as int);
                }
            } else {
                let e2 = e_scan_nonbreak(&cs, pb + 1);
                let sep = e2 - pb >= 3 || (e2 - pb == 2 && !(cs[pb] == '\r' && cs[pb + 1]
                    == '\n'));
                proof {
                    lemma_scan_nonbreak(s, pb + 1);
                    assert(sep == is_sep_at(s, pb as int));
                }
                if sep {
                    e = pb;
                    found = true;
                    proof {
                        assert(para_end(s, p as int) == e as int);
                    }
                } else {
                    proof {
                        assert(para_end(s, p as int) == para_end(s, e2 as int));
                    }
                    p = e2;
                }
            }
        }
        proof {
            if !found {
                assert(p == n);
                assert(para_end(s, p as int) == n as int);
            }
            assert(para_end(s, i as int) == e as int);
        }
        raw.push(string_of_range(&cs, i, e));
        proof {
            lemma_para_end(s, i as int);
        }
        if e >= n {
            done = true;
            proof {
                assert(raw@.map_values(|p2: String| p2@) =~= raw@.map_values(
                    |p2: String| p2@,
                ).drop_last().push(s.subrange(i as int, n as int)));
                assert(split_from(s, i as int) == seq![s.subrange(i as int, n as int)]);
                assert(split_from(s, 0) =~= raw@.map_values(|p2: String| p2@));
            }
        } else {
            let ni = e_scan_nonbreak(&cs, e + 1);
            proof {
                lemma_scan_nonbreak(s, e + 1);
                assert(split_from(s, i as int) == seq![s.subrange(i as int, e as int)]
                    + split_from(s, ni as int));
                assert(raw@.map_values(|p2: String| p2@) + split_from(s, ni as int)
                    =~= raw@.map_values(|p2: String| p2@).drop_last() + (seq![
                    s.subrange(i as int, e as int),
                ] + split_from(s, ni as int)));
            }
            i = ni;
        }
    }
    // Trim and drop empties.
    let ghost rawv = raw@.map_values(|p: String| p@);
    let m = raw.len();
    let mut out: Vec<String> = Vec::new();
    let mut j: usize = 0;
    while j < m
        invariant
            m == raw@.len(),
            j <= m,
            rawv == raw@.map_values(|p: String| p@),
            spec_paragraphs(input@) == paras_clean_upto(rawv, rawv.len() as int),
            rawv.len() == m,
            out@.map_values(|p: String| p@) == paras_clean_upto(rawv, j as int),
        decreases m - j,
    {
        let pcs = chars_of(raw[j].as_str());
        let t = trim_chars(&pcs);
        proof {
            assert(rawv[j as int] == raw@[j as int]@);
            assert(t@ == spec_trim(rawv[j as int]));
        }
        if t.as_str().unicode_len() > 0 {
            out.push(t);
            proof {
                assert(out@.map_values(|p: String| p@) =~= paras_clean_upto(rawv, j + 1));
            }
        } else {
            proof {
                assert(out@.map_values(|p: String| p@) =~= paras_clean_upto(rawv, j + 1));
            }
        }
        j = j + 1;
    }
    out
}

/// Splits a paragraph into its lines at line feeds.
fn split_lines(p: &String) -> (r: Vec<String>)
    ensures
        r@.map_values(|l: String| l@) == spec_lines(p@),
        r@.len() >= 1,
{
    let ghost s = p@;
    let cs = chars_of(p.as_str());
    let n = cs.len();
    let mut out: Vec<String> = Vec::new();
    let mut i: usize = 0;
    let mut done = false;
    proof {
        assert(s.skip(0) =~= s);
        assert(out@.map_values(|l: String| l@) + spec_lines(s) =~= spec_lines(s));
    }
    while !done
        invariant
            cs@ == s,
            n == s.len(),
            i <= n,
            !done ==> spec_lines(s) == out@.map_values(|l: String| l@) + spec_lines(
                s.skip(i as int),
            ),
            done ==> spec_lines(s) == out@.map_values(|l: String| l@) && out@.len() >= 1,
        decreases n - i + (if done {
            0int
        } else {
            1int
        }),
    {
        let k = e_scan_newline(&cs, i);
        proof {
            lemma_scan_newline(s, i as int);
            assert(s.skip(i as int).len() == n - i);
            assert(scan_newline(s.skip(i as int), 0) == k - i) by {
                lemma_scan_newline(s.skip(i as int), 0);
                let sk = s.skip(i as int);
                let f = scan_newline(sk, 0);
                if f < k - i {
                    assert(sk[f] == s[i + f]);
                    assert(s[i + f] != '\n');
                    assert(false);
                }
                if f > k - i {
                    if k < n {
                        assert(sk[k - i] == s[k as int]);
                        assert(sk[k - i] != '\n');
                        assert(false);
                    } else {
                        assert(f > sk.len());
                        assert(false);
                    }
                }
            }
        }
        if k >= n {
            out.push(string_of_range(&cs, i, n));
            done = true;
            proof {
                assert(s.subrange(i as int, n as int) =~= s.skip(i as int));
                assert(spec_lines(s.skip(i as int)) == seq![s.skip(i as int)]);
                assert(spec_lines(s) =~= out@.map_values(|l: String| l@));
            }
        } else {
            out.push(string_of_range(&cs, i, k));
            proof {
                let sk = s.skip(i as int);
                assert(sk.subrange(0, k - i) =~= s.subrange(i as int, k as int));
                assert(sk.skip(k - i + 1) =~= s.skip(k + 1));
                assert(spec_lines(sk) == seq![s.subrange(i as int, k as int)] + spec_lines(
                    s.skip(k + 1),
                ));
                match spec_lines(s.skip(k + 1)) {
                    rest => {
                        assert(out@.map_values(|l: String| l@) + rest =~= out@.map_values(
                            |l: String| l@,
                        ).drop_last() + (seq![s.subrange(i as int, k as int)] + rest));
                    },
                }
            }
            i = k + 1;
        }
    }
    out
}

/// Reads the first line's shape: the operation character and the optional
/// token.
fn parse_first_line(l: &String) -> (r: Option<(char, Option<String>)>)
    ensures
        match spec_first_line(l@) {
            Option::None => r is None,
            Option::Some((op, tok)) => r matches Some((op2, tok2)) && op2 == op && (match tok {
                Option::Some(t) => tok2 matches Some(t2) && t2@ == t,
                Option::None => tok2 is None,
            }),
        },
{
    let cs = chars_of(l.as_str());
    let n = cs.len();
    let a = e_scan_nonspace(&cs, 0);
    if a >= n {
        return None;
    }
    let op = cs[a];
    if !(op == '+' || op == '-' || op == '#' || op == '^' || op == '@') {
        return None;
    }
    if a + 1 >= n {
        return Some((op, None));
    }
    if cs[a + 1] != ' ' {
        return None;
    }
    let b = e_scan_nonspace(&cs, a + 1);
    if b >= n {
        return Some((op, None));
    }
    let c = e_scan_ws(&cs, b);
    let d = e_scan_nonspace(&cs, c);
    if d >= n {
        let tok = string_of_range(&cs, b, c);
        Some((op, Some(tok)))
    } else {
        None
    }
}

/// The token of a first line is always shaped like an alias: a non-empty
/// run of non-whitespace characters.
proof fn lemma_first_line_token(l: Seq<char>)
    requires
        spec_first_line(l) matches Some((op, Some(t))),
    ensures
        spec_first_line(l) matches Some((op, Some(t))) && is_alias_text(t),
{
    let a = scan_nonspace(l, 0);
    lemma_scan_nonspace(l, 0);
    let b = scan_nonspace(l, a + 1);
    lemma_scan_nonspace(l, a + 1);
    let c = scan_ws(l, b);
    lemma_scan_ws(l, b);
    assert(!is_whitespace(l[b]));
    assert(c > b);
    assert forall|k: int| 0 <= k < l.subrange(b, c).len() implies !is_whitespace(
        #[trigger] l.subrange(b, c)[k],
    ) by {
        assert(l.subrange(b, c)[k] == l[b + k]);
    }
}

/// The identifier a command's reference token names, against the resolver's
/// view and bindings.
fn resolve_token(resolver: &AliasesResolver, tok: &String) -> (r: Result<ObjectId, SweaterError>)
    ensures
        match spec_resolve_token(resolver.read_able_transaction@, resolver.bindings(), tok@) {
            Ok(v) => r matches Ok(o) && o.value == v,
            Err(e) => r matches Err(e2) && e2 == e,
        },
{
    match Reference::new(tok.as_str()) {
        Err(e) => Err(e),
        Ok(refr) => {
            match resolver.get_thesis_id_by_reference(&refr) {
                Ok(id) => {
                    proof {
                        if !is_alias_text(tok@) && is_id_text(tok@) {
                            assert(id.value as int == id_text_value(tok@));
                        }
                    }
                    Ok(id)
                },
                Err(e) => Err(e),
            }
        },
    }
}

/// Collects the payload lines from `start` on as tags, validating each.
fn collect_tags(lines: &Vec<String>, start: usize) -> (r: Result<Vec<Tag>, SweaterError>)
    requires
        start <= lines@.len(),
    ensures
        ({
            let lv = lines@.map_values(|l: String| l@);
            if forall|i: int| start <= i < lv.len() ==> is_tag_text(#[trigger] lv[i]) {
                r matches Ok(tags) && tag_views(tags@) == lv.skip(start as int)
            } else {
                r == Err::<Vec<Tag>, SweaterError>(SweaterError::InvalidSyntax)
            }
        }),
{
    let ghost lv = lines@.map_values(|l: String| l@);
    let n = lines.len();
    let mut tags: Vec<Tag> = Vec::new();
    let mut k: usize = start;
    while k < n
        invariant
            n == lines@.len(),
            lv == lines@.map_values(|l: String| l@),
            start <= k <= n,
            tag_views(tags@) == lv.subrange(start as int, k as int),
            forall|i: int| start <= i < k ==> is_tag_text(#[trigger] lv[i]),
        decreases n - k,
    {
        let t = Tag(lines[k].clone());
        let ghost tval = t.0@;
        proof {
            assert(lv[k as int] == lines@[k as int]@);
            assert(tval == lv[k as int]);
        }
        match t.validate() {
            Ok(_) => {},
            Err(e) => {
                return Err(e);
            },
        }
        let ghost tags_before = tags@;
        tags.push(t);
        proof {
            assert(tags@ == tags_before.push(Tag(lines@[k as int])));
            assert(lv.len() == lines@.len());
            assert(tag_views(tags_before).len() == tags_before.len());
            assert(tags_before.len() == k - start);
            assert(tags@[tags@.len() - 1].0@ == tval);
            assert forall|q: int| 0 <= q < tags@.len() implies #[trigger] tag_views(tags@)[q]
                == lv.subrange(start as int, k + 1)[q] by {
                assert(tag_views(tags@)[q] == tags@[q].0@);
                if q < tags_before.len() {
                    assert(tags@[q] == tags_before[q]);
                    assert(tag_views(tags_before)[q] == tags_before[q].0@);
                }
            }
            assert(tag_views(tags@) =~= lv.subrange(start as int, k + 1));
        }
        k = k + 1;
    }
    proof {
        assert(lv.subrange(start as int, n as int) =~= lv.skip(start as int));
    }
    Ok(tags)
}

/// Turns one paragraph into a command, against the resolver's view and
/// bindings.
#[verifier::rlimit(100)]
fn parse_paragraph(resolver: &AliasesResolver, p: &String) -> (r: Result<Command, SweaterError>)
    ensures
        spec_parse_paragraph(resolver.read_able_transaction@, resolver.bindings(), p@) is Ok ==> (
        r is Ok && r->Ok_0@ == spec_parse_paragraph(
            resolver.read_able_transaction@,
            resolver.bindings(),
            p@,
        )->Ok_0),
        spec_parse_paragraph(resolver.read_able_transaction@, resolver.bindings(), p@) is Err ==> (
        r is Err && r->Err_0 == spec_parse_paragraph(
            resolver.read_able_transaction@,
            resolver.bindings(),
            p@,
        )->Err_0),
{
    let ghost m = resolver.read_able_transaction@;
    let ghost known = resolver.bindings();
    let lines = split_lines(p);
    let ghost lv = lines@.map_values(|l: String| l@);
    proof {
        assert(lv.len() == lines@.len());
        assert(lv == spec_lines(p@));
        assert(lv[0] == spec_lines(p@)[0]);
    }
    let first = parse_first_line(&lines[0]);
    let (op, tok_opt) = match first {
        Some(x) => x,
        None => {
            proof {
                assert(spec_parse_paragraph(m, known, p@) == Err::<CommandModel, SweaterError>(
                    SweaterError::InvalidCommand,
                ));
            }
            return Err(SweaterError::InvalidCommand);
        },
    };
    proof {
        assert(spec_first_line(spec_lines(p@)[0]) matches Some((op2, t2)) && op2 == op);
    }
    let nl = lines.len();
    if op == '+' && nl == 2 {
        proof {
            assert(lv[1] == spec_lines(p@)[1]);
        }
        match Text::new(lines[1].as_str(), resolver) {
            Err(e) => {
                proof {
                    assert(spec_parse_paragraph(m, known, p@) is Err);
                }
                Err(e)
            },
            Ok(text) => {
                let alias = match tok_opt {
                    Some(t) => Some(Alias(t)),
                    None => None,
                };
                let thesis = Thesis { alias, content: Content::Text(text), tags: Vec::new() };
                proof {
                    assert(thesis@.tags =~= Seq::<Seq<char>>::empty());
                    assert(spec_parse_paragraph(m, known, p@) matches Ok(cm) && cm
                        == Command::AddThesis(thesis)@);
                }
                Ok(Command::AddThesis(thesis))
            },
        }
    } else if op == '+' && nl == 4 {
        proof {
            assert(lv[1] == spec_lines(p@)[1]);
            assert(lv[2] == spec_lines(p@)[2]);
            assert(lv[3] == spec_lines(p@)[3]);
        }
        let from = match resolve_token(resolver, &lines[1]) {
            Ok(v) => v,
            Err(e) => {
                proof {
                    assert(spec_parse_paragraph(m, known, p@) is Err);
                }
                return Err(e);
            },
        };
        let kind = RelationKind(lines[2].clone());
        if let Err(e) = kind.validate() {
            proof {
                assert(spec_parse_paragraph(m, known, p@) is Err);
            }
            return Err(e);
        }
        let to = match resolve_token(resolver, &lines[3]) {
            Ok(v) => v,
            Err(e) => {
                proof {
                    assert(spec_parse_paragraph(m, known, p@) is Err);
                }
                return Err(e);
            },
        };
        let alias = match tok_opt {
            Some(t) => Some(Alias(t)),
            None => None,
        };
        let thesis = Thesis {
            alias,
            content: Content::Relation(Relation { from, to, kind }),
            tags: Vec::new(),
        };
        proof {
            assert(thesis@.tags =~= Seq::<Seq<char>>::empty());
            assert(spec_parse_paragraph(m, known, p@) matches Ok(cm) && cm == Command::AddThesis(
                thesis,
            )@);
        }
        Ok(Command::AddThesis(thesis))
    } else if op == '-' && nl == 1 && tok_opt.is_some() {
        let tok = match tok_opt {
            Some(t) => t,
            None => {
                proof {
                    assert(spec_parse_paragraph(m, known, p@) is Err);
                }
                return Err(SweaterError::InvalidCommand);
            },
        };
        match resolve_token(resolver, &tok) {
            Ok(id) => {
                proof {
                    assert(spec_parse_paragraph(m, known, p@) == Ok::<CommandModel, SweaterError>(
                        Command::RemoveThesis(id)@,
                    ));
                }
                Ok(Command::RemoveThesis(id))
            },
            Err(e) => {
                proof {
                    assert(spec_parse_paragraph(m, known, p@) is Err);
                }
                Err(e)
            },
        }
    } else if op == '-' && nl == 2 && tok_opt.is_none() {
        proof {
            assert(lv[1] == spec_lines(p@)[1]);
        }
        match resolve_token(resolver, &lines[1]) {
            Ok(id) => {
                proof {
                    assert(spec_parse_paragraph(m, known, p@) == Ok::<CommandModel, SweaterError>(
                        Command::RemoveThesis(id)@,
                    ));
                }
                Ok(Command::RemoveThesis(id))
            },
            Err(e) => {
                proof {
                    assert(spec_parse_paragraph(m, known, p@) is Err);
                }
                Err(e)
            },
        }
    } else if (op == '#' || op == '^') && ((tok_opt.is_some() && nl >= 2) || (tok_opt.is_none()
        && nl >= 3)) {
        let (id, start): (ObjectId, usize) = match &tok_opt {
            Some(t) => {
                let id = match resolve_token(resolver, t) {
                    Ok(v) => v,
                    Err(e) => {
                        proof {
                            assert(spec_parse_paragraph(m, known, p@) is Err);
                        }
                        return Err(e);
                    },
                };
                (id, 1)
            },
            None => {
                proof {
                    assert(lv[1] == spec_lines(p@)[1]);
                }
                let id = match resolve_token(resolver, &lines[1]) {
                    Ok(v) => v,
                    Err(e) => {
                        proof {
                            assert(spec_parse_paragraph(m, known, p@) is Err);
                        }
                        return Err(e);
                    },
                };
                (id, 2)
            },
        };
        proof {
            assert forall|i: int| start <= i < lv.len() implies #[trigger] lv[i] == spec_lines(
                p@,
            ).skip(start as int)[i - start] by {
                assert(lv[i] == spec_lines(p@)[i]);
            }
        }
        match collect_tags(&lines, start) {
            Ok(tags) => {
                proof {
                    assert(lv.skip(start as int) =~= spec_lines(p@).skip(start as int));
                }
                if op == '#' {
                    proof {
                        assert(spec_parse_paragraph(m, known, p@) matches Ok(cm) && cm
                            == Command::AddTags(id, tags)@);
                    }
                    Ok(Command::AddTags(id, tags))
                } else {
                    proof {
                        assert(spec_parse_paragraph(m, known, p@) matches Ok(cm) && cm
                            == Command::RemoveTags(id, tags)@);
                    }
                    Ok(Command::RemoveTags(id, tags))
                }
            },
            Err(e) => {
                proof {
                    assert(lv.skip(start as int) =~= spec_lines(p@).skip(start as int));
                    let tags_spec = spec_lines(p@).skip(start as int);
                    assert(!all_tags_valid(tags_spec)) by {
                        if all_tags_valid(tags_spec) {
                            assert forall|i: int|
                                start <= i < lv.len() implies is_tag_text(#[trigger] lv[i]) by {
                                assert(lv[i] == tags_spec[i - start]);
                                assert(is_tag_text(tags_spec[i - start]));
                            }
                        }
                    }
                    let ls = spec_lines(p@);
                    assert(ls == lv);
                    let flr = spec_first_line(ls[0]);
                    assert(flr is Some);
                    match flr {
                        Option::Some((op2, t2)) => {
                            assert(op2 == op);
                            if tok_opt is Some {
                                assert(t2 is Some);
                                assert(start == 1);
                            } else {
                                assert(t2 is None);
                                assert(start == 2);
                            }
                            let rt = if t2 is Some {
                                t2->0
                            } else {
                                ls[1]
                            };
                            assert(spec_resolve_token(m, known, rt) is Ok);
                        },
                        Option::None => {
                            assert(false);
                        },
                    }
                    assert(spec_parse_paragraph(m, known, p@) is Err);
                }
                Err(e)
            },
        }
    } else if op == '@' && tok_opt.is_some() && nl == 2 {
        proof {
            assert(lv[1] == spec_lines(p@)[1]);
        }
        let tok = match tok_opt {
            Some(t) => t,
            None => {
                proof {
                    assert(spec_parse_paragraph(m, known, p@) is Err);
                }
                return Err(SweaterError::InvalidCommand);
            },
        };
        match resolve_token(resolver, &lines[1]) {
            Ok(id) => {
                let c = Command::SetAlias(id, Alias(tok));
                proof {
                    assert(spec_parse_paragraph(m, known, p@) matches Ok(cm) && cm == c@);
                }
                Ok(c)
            },
            Err(e) => {
                proof {
                    assert(spec_parse_paragraph(m, known, p@) is Err);
                }
                Err(e)
            },
        }
    } else {
        proof {
            assert(spec_parse_paragraph(m, known, p@) == Err::<CommandModel, SweaterError>(
                SweaterError::InvalidCommand,
            ));
        }
        Err(SweaterError::InvalidCommand)
    }
}

/// Parses a batch of commands. Paragraphs are handled in order, each
/// against the aliases bound by those before it; the first refused
/// paragraph stops the batch with its index, starting at 1.
pub fn parse_commands(input: &str, store: &Store) -> (r: Result<Vec<Command>, CommandParseError>)
    ensures
        match spec_parse_from(store@, spec_paragraphs(input@), 0, Seq::empty()) {
            Ok(cmds) => r matches Ok(v) && v@.map_values(|c: Command| c@) == cmds,
            Err((k, e)) => r matches Err(pe) && pe.paragraph as int == k && pe.cause == e,
        },
{
    let ghost pv = spec_paragraphs(input@);
    let paras = split_paragraphs(input);
    let mut resolver = AliasesResolver::new(store);
    let mut cmds: Vec<Command> = Vec::new();
    let n = paras.len();
    let mut i: usize = 0;
    proof {
        assert(cmds@.map_values(|c: Command| c@) =~= Seq::<CommandModel>::empty());
        match spec_parse_from(store@, pv, 0, Seq::empty()) {
            Ok(rest) => {
                assert(cmds@.map_values(|c: Command| c@) + rest =~= rest);
            },
            Err(_) => {},
        }
        assert(resolver.bindings() =~= Seq::<(Seq<char>, u128)>::empty());
    }
    while i < n
        invariant
            n == paras@.len(),
            pv == paras@.map_values(|q: String| q@),
            pv == spec_paragraphs(input@),
            i <= n,
            resolver.read_able_transaction@ == store@,
            spec_parse_from(store@, pv, 0, Seq::empty()) == (match spec_parse_from(
                store@,
                pv,
                i as int,
                resolver.bindings(),
            ) {
                Err(ke) => Err::<Seq<CommandModel>, (int, SweaterError)>(ke),
                Ok(rest) => Ok(cmds@.map_values(|c: Command| c@) + rest),
            }),
        decreases n - i,
    {
        proof {
            assert(pv[i as int] == paras@[i as int]@);
        }
        match parse_paragraph(&resolver, &paras[i]) {
            Err(e) => {
                proof {
                    assert(spec_parse_from(store@, pv, i as int, resolver.bindings()) == Err::<
                        Seq<CommandModel>,
                        (int, SweaterError),
                    >((i + 1, e)));
                }
                return Err(CommandParseError { paragraph: i + 1, cause: e });
            },
            Ok(cmd) => {
                let ghost cm = cmd@;
                let ghost known_before = resolver.bindings();
                match &cmd {
                    Command::AddThesis(t) => {
                        match &t.alias {
                            Some(a) => {
                                let id = t.id();
                                resolver.remember(a.clone(), id);
                                proof {
                                    assert(resolver.bindings() =~= known_before
                                        + command_bindings(cm));
                                }
                            },
                            None => {
                                proof {
                                    assert(resolver.bindings() =~= known_before
                                        + command_bindings(cm));
                                }
                            },
                        }
                    },
                    Command::SetAlias(id, a) => {
                        let idc = *id;
                        resolver.remember(a.clone(), idc);
                        proof {
                            assert(resolver.bindings() =~= known_before + command_bindings(cm));
                        }
                    },
                    _ => {
                        proof {
                            assert(resolver.bindings() =~= known_before + command_bindings(cm));
                        }
                    },
                }
                let ghost cv_before = cmds@.map_values(|c: Command| c@);
                cmds.push(cmd);
                proof {
                    assert(cmds@.map_values(|c: Command| c@) =~= cv_before.push(cm));
                    match spec_parse_from(store@, pv, i + 1, resolver.bindings()) {
                        Err(_) => {},
                        Ok(rest) => {
                            assert(cv_before + (seq![cm] + rest) =~= cmds@.map_values(
                                |c: Command| c@,
                            ) + rest);
                        },
                    }
                }
            },
        }
        i = i + 1;
    }
    proof {
        assert(spec_parse_from(store@, pv, n as int, resolver.bindings()) == Ok::<
            Seq<CommandModel>,
            (int, SweaterError),
        >(Seq::empty()));
        match spec_parse_from(store@, pv, 0, Seq::empty()) {
            Ok(cmds_spec) => {
                assert(cmds@.map_values(|c: Command| c@) + Seq::<CommandModel>::empty()
                    =~= cmds@.map_values(|c: Command| c@));
            },
            Err(_) => {},
        }
    }
    Ok(cmds)
}

} // verus!
