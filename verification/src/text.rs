//! Text content: an interleaving of raw text segments and references to
//! other theses. In source form a reference is written inside square
//! brackets, either as the 22-character textual form of an identifier or as
//! an alias to be resolved.

use vstd::prelude::*;
use crate::alias::Alias;
use crate::chars::{chars_of, is_raw_text_char, push_char, raw_text_char, string_of_range};
use crate::reference::Reference;
use crate::errors::SweaterError;
use crate::ids::{id_text, id_text_value, is_id_text, ObjectId};
use crate::resolver::{state_resolve_alias, AliasesResolver};
use crate::thesis::ThesisModel;

verus! {

/// Whether a character sequence is a well-formed raw text segment: non-empty
/// and made of raw text characters only.
pub open spec fn is_raw_text(s: Seq<char>) -> bool {
    s.len() > 0 && (forall|i: int| 0 <= i < s.len() ==> is_raw_text_char(#[trigger] s[i]))
}

#[derive(PartialEq, Eq, Debug)]
pub struct RawText(pub String);

impl Clone for RawText {
    fn clone(&self) -> (r: Self)
        ensures
            r == *self,
    {
        RawText(self.0.clone())
    }
}

impl View for RawText {
    type V = Seq<char>;

    open spec fn view(&self) -> Seq<char> {
        self.0@
    }
}

impl RawText {
    /// Whether this segment is well-formed.
    pub open spec fn is_valid(&self) -> bool {
        is_raw_text(self.0@)
    }

    /// Checks well-formedness, returning the segment itself on success.
    pub fn validated(&self) -> (r: Result<&Self, SweaterError>)
        ensures
            r is Ok <==> self.is_valid(),
            r is Ok ==> r->Ok_0 == self,
            r is Err ==> r->Err_0 == SweaterError::InvalidSyntax,
    {
        let n = self.0.as_str().unicode_len();
        if n == 0 {
            return Err(SweaterError::InvalidSyntax);
        }
        let mut i: usize = 0;
        while i < n
            invariant
                n == self.0@.len(),
                i <= n,
                forall|k: int| 0 <= k < i ==> is_raw_text_char(#[trigger] self.0@[k]),
            decreases n - i,
        {
            if !raw_text_char(self.0.as_str().get_char(i)) {
                return Err(SweaterError::InvalidSyntax);
            }
            i = i + 1;
        }
        Ok(self)
    }
}

/// One token of a source text: a span of raw text, or the characters between
/// one pair of square brackets.
pub enum SourceToken {
    Raw(Seq<char>),
    Reference(Seq<char>),
}

/// The smallest index at or after `i` holding character `c`.
pub open spec fn find_from(s: Seq<char>, c: char, i: int) -> Option<int>
    decreases s.len() - i,
{
    if i < 0 || i >= s.len() {
        None
    } else if s[i] == c {
        Some(i)
    } else {
        find_from(s, c, i + 1)
    }
}

/// What `find_from` returns: the index it names holds the character, and no
/// earlier index at or after `i` does.
pub proof fn lemma_find_from(s: Seq<char>, c: char, i: int)
    requires
        0 <= i <= s.len(),
    ensures
        match find_from(s, c, i) {
            Some(j) => i <= j < s.len() && s[j] == c && (forall|k: int| i <= k < j ==> s[k] != c),
            None => forall|k: int| i <= k < s.len() ==> s[k] != c,
        },
    decreases s.len() - i,
{
    if i < s.len() && s[i] != c {
        lemma_find_from(s, c, i + 1);
    }
}

/// Splits a source text into raw spans and bracketed reference tokens.
/// `None` when the bracket structure is broken: an unclosed `[`, an empty
/// pair `[]`, or a `[` inside a pair. A raw span runs to the next `[`, so a
/// stray `]` stays inside the span and is caught by raw text validation.
pub open spec fn spec_tokenize(s: Seq<char>) -> Option<Seq<SourceToken>>
    decreases s.len(),
{
    if s.len() == 0 {
        Some(Seq::empty())
    } else if s[0] == '[' {
        match find_from(s, ']', 0) {
            Option::None => Option::<Seq<SourceToken>>::None,
            Option::Some(j) => {
                if 2 <= j < s.len() && (forall|k: int| 1 <= k < j ==> s[k] != '[') {
                    match spec_tokenize(s.subrange(j + 1, s.len() as int)) {
                        Option::None => Option::None,
                        Option::Some(rest) => Some(
                            seq![SourceToken::Reference(s.subrange(1, j))] + rest,
                        ),
                    }
                } else {
                    None
                }
            },
        }
    } else {
        let k0 = match find_from(s, '[', 0) {
            Option::None => s.len() as int,
            Option::Some(k0) => k0,
        };
        let k = if 1 <= k0 <= s.len() {
            k0
        } else {
            s.len() as int
        };
        match spec_tokenize(s.subrange(k, s.len() as int)) {
            Option::None => Option::None,
            Option::Some(rest) => Some(seq![SourceToken::Raw(s.subrange(0, k))] + rest),
        }
    }
}

/// What a bracketed token names: a token in the textual form of an
/// identifier is that identifier; any other token is an alias resolved
/// against the store snapshot and the in-batch bindings.
pub open spec fn token_resolves(
    m: Seq<ThesisModel>,
    known: Seq<(Seq<char>, u128)>,
    tok: Seq<char>,
) -> Option<u128> {
    if is_id_text(tok) {
        Some(id_text_value(tok) as u128)
    } else {
        state_resolve_alias(m, known, tok)
    }
}

/// Whether every reference token resolves.
pub open spec fn all_tokens_resolve(
    m: Seq<ThesisModel>,
    known: Seq<(Seq<char>, u128)>,
    toks: Seq<SourceToken>,
) -> bool {
    forall|i: int|
        0 <= i < toks.len() ==> ((#[trigger] toks[i]) matches SourceToken::Reference(t)
            ==> token_resolves(m, known, t) is Some)
}

/// Whether every raw span is a well-formed raw text segment.
pub open spec fn all_raws_valid(toks: Seq<SourceToken>) -> bool {
    forall|i: int|
        0 <= i < toks.len() ==> ((#[trigger] toks[i]) matches SourceToken::Raw(r) ==> is_raw_text(
            r,
        ))
}

/// The raw spans among the first `i` tokens, in order.
pub open spec fn toks_raws_upto(toks: Seq<SourceToken>, i: int) -> Seq<Seq<char>>
    decreases i,
{
    if i <= 0 || i > toks.len() {
        Seq::empty()
    } else {
        toks_raws_upto(toks, i - 1) + (match toks[i - 1] {
            SourceToken::Raw(r) => seq![r],
            SourceToken::Reference(_) => Seq::empty(),
        })
    }
}

/// The resolved values of the reference tokens among the first `i`, in
/// order.
pub open spec fn toks_refs_upto(
    m: Seq<ThesisModel>,
    known: Seq<(Seq<char>, u128)>,
    toks: Seq<SourceToken>,
    i: int,
) -> Seq<u128>
    decreases i,
{
    if i <= 0 || i > toks.len() {
        Seq::empty()
    } else {
        toks_refs_upto(m, known, toks, i - 1) + (match toks[i - 1] {
            SourceToken::Raw(_) => Seq::empty(),
            SourceToken::Reference(t) => seq![token_resolves(m, known, t)->0],
        })
    }
}

/// The ghost shape of the text parsed from these tokens.
pub open spec fn parsed_model(
    m: Seq<ThesisModel>,
    known: Seq<(Seq<char>, u128)>,
    toks: Seq<SourceToken>,
) -> TextModel {
    TextModel {
        parts: toks_raws_upto(toks, toks.len() as int),
        refs: toks_refs_upto(m, known, toks, toks.len() as int),
        start_with_reference: toks.len() > 0 && toks[0] is Reference,
    }
}

/// The ghost shape of a text: its raw segments, its resolved reference
/// values, and which of the two the source started with.
pub struct TextModel {
    pub parts: Seq<Seq<char>>,
    pub refs: Seq<u128>,
    pub start_with_reference: bool,
}

/// Text content: parallel sequences of raw segments and resolved references,
/// with a flag telling which of the two the source started with.
#[derive(PartialEq, Eq, Debug)]
pub struct Text {
    pub raw_text_parts: Vec<RawText>,
    pub references: Vec<ObjectId>,
    pub start_with_reference: bool,
}

impl View for Text {
    type V = TextModel;

    open spec fn view(&self) -> TextModel {
        TextModel {
            parts: self.raw_text_parts@.map_values(|p: RawText| p.0@),
            refs: self.references@.map_values(|r: ObjectId| r.value),
            start_with_reference: self.start_with_reference,
        }
    }
}

impl Clone for Text {
    fn clone(&self) -> (r: Self)
        ensures
            r@ == self@,
    {
        let parts = self.raw_text_parts.clone();
        let r = Text {
            raw_text_parts: parts,
            references: self.references.clone(),
            start_with_reference: self.start_with_reference,
        };
        proof {
            assert forall|i: int| 0 <= i < self.raw_text_parts@.len() implies #[trigger] r
                .raw_text_parts@[i] == self.raw_text_parts@[i] by {
            }
            assert(r.raw_text_parts@ =~= self.raw_text_parts@);
            assert(r.references@ =~= self.references@);
            assert(r@ =~= self@);
        }
        r
    }
}

/// A reference rendered in composed text: the identifier's textual form in
/// square brackets.
pub open spec fn bracketed(v: u128) -> Seq<char> {
    seq!['['] + id_text(v) + seq![']']
}

/// The composed form from step `i` on, when the text starts with a
/// reference: each reference, followed by the raw segment of the same index
/// when there is one.
pub open spec fn compose_ref_first(refs: Seq<u128>, parts: Seq<Seq<char>>, i: int) -> Seq<char>
    decreases refs.len() - i,
{
    if i < 0 || i >= refs.len() {
        Seq::empty()
    } else {
        bracketed(refs[i]) + (if i < parts.len() {
            parts[i]
        } else {
            Seq::empty()
        }) + compose_ref_first(refs, parts, i + 1)
    }
}

/// The composed form from step `i` on, when the text starts with a raw
/// segment: each segment, followed by the reference of the same index when
/// there is one.
pub open spec fn compose_raw_first(parts: Seq<Seq<char>>, refs: Seq<u128>, i: int) -> Seq<char>
    decreases parts.len() - i,
{
    if i < 0 || i >= parts.len() {
        Seq::empty()
    } else {
        parts[i] + (if i < refs.len() {
            bracketed(refs[i])
        } else {
            Seq::empty()
        }) + compose_raw_first(parts, refs, i + 1)
    }
}

impl TextModel {
    /// The composed source form, references rendered as bracketed identifier
    /// texts.
    pub open spec fn composed(self) -> Seq<char> {
        if self.start_with_reference {
            compose_ref_first(self.refs, self.parts, 0)
        } else {
            compose_raw_first(self.parts, self.refs, 0)
        }
    }

    /// Whether every raw segment is well-formed.
    pub open spec fn is_valid(self) -> bool {
        forall|i: int| 0 <= i < self.parts.len() ==> is_raw_text(#[trigger] self.parts[i])
    }
}

impl Text {
    /// Whether every raw segment is well-formed.
    pub open spec fn is_valid(&self) -> bool {
        self@.is_valid()
    }

    /// Parses a source string: raw spans between bracketed references, each
    /// reference either the textual form of an identifier, taken as it
    /// stands, or an alias put to the resolver. Fails with `InvalidSyntax`
    /// when the bracket structure is broken, with `UnknownAlias` when an
    /// alias resolves to nothing, and with `InvalidSyntax` when a raw span
    /// fails raw text validation.
    pub fn new(input: &str, aliases_resolver: &AliasesResolver) -> (r: Result<Text, SweaterError>)
        ensures
            match spec_tokenize(input@) {
                Option::None => r == Err::<Text, SweaterError>(SweaterError::InvalidSyntax),
                Option::Some(toks) => {
                    if !all_tokens_resolve(
                        aliases_resolver.read_able_transaction@,
                        aliases_resolver.bindings(),
                        toks,
                    ) {
                        r == Err::<Text, SweaterError>(SweaterError::UnknownAlias)
                    } else if !all_raws_valid(toks) {
                        r == Err::<Text, SweaterError>(SweaterError::InvalidSyntax)
                    } else {
                        r is Ok && r->Ok_0@ == parsed_model(
                            aliases_resolver.read_able_transaction@,
                            aliases_resolver.bindings(),
                            toks,
                        ) && r->Ok_0.is_valid()
                    }
                },
            },
    {
        let toks = match tokenize(input) {
            Some(t) => t,
            None => {
                return Err(SweaterError::InvalidSyntax);
            },
        };
        let ghost tv = toks@.map_values(|t: ScanToken| token_view(t));
        let n = toks.len();
        // Resolve the reference tokens, in order.
        let mut references: Vec<ObjectId> = Vec::new();
        let mut i: usize = 0;
        while i < n
            invariant
                n == toks@.len(),
                i <= n,
                tv == toks@.map_values(|t: ScanToken| token_view(t)),
                spec_tokenize(input@) == Some(tv),
                references@.map_values(|o: ObjectId| o.value) == toks_refs_upto(
                    aliases_resolver.read_able_transaction@,
                    aliases_resolver.bindings(),
                    tv,
                    i as int,
                ),
                forall|k: int|
                    0 <= k < i ==> ((#[trigger] tv[k]) matches SourceToken::Reference(t)
                        ==> token_resolves(
                            aliases_resolver.read_able_transaction@,
                            aliases_resolver.bindings(),
                            t,
                        ) is Some),
            decreases n - i,
        {
            proof {
                assert(tv[i as int] == token_view(toks@[i as int]));
            }
            match &toks[i] {
                ScanToken::Refer(t) => {
                    let tcs = chars_of(t.as_str());
                    match ObjectId::from_text_chars(&tcs) {
                        Some(oid) => {
                            references.push(oid);
                            proof {
                                assert(is_id_text(t@));
                                assert(token_resolves(
                                    aliases_resolver.read_able_transaction@,
                                    aliases_resolver.bindings(),
                                    t@,
                                ) == Some((id_text_value(t@) as u128)));
                                assert(oid.value as int == id_text_value(t@));
                                assert(references@.map_values(|o: ObjectId| o.value)
                                    =~= toks_refs_upto(
                                    aliases_resolver.read_able_transaction@,
                                    aliases_resolver.bindings(),
                                    tv,
                                    i + 1,
                                ));
                            }
                        },
                        None => {
                            let alias = Alias(t.clone());
                            match aliases_resolver.get_thesis_id_by_reference(
                                &Reference::Alias(alias),
                            ) {
                                Ok(oid) => {
                                    references.push(oid);
                                    proof {
                                        assert(!is_id_text(t@));
                                        assert(aliases_resolver.resolve_alias_spec(t@) == Some(
                                            oid.value,
                                        ));
                                        assert(references@.map_values(|o: ObjectId| o.value)
                                            =~= toks_refs_upto(
                                            aliases_resolver.read_able_transaction@,
                                            aliases_resolver.bindings(),
                                            tv,
                                            i + 1,
                                        ));
                                    }
                                },
                                Err(_) => {
                                    proof {
                                        assert(!is_id_text(t@));
                                        assert(token_resolves(
                                            aliases_resolver.read_able_transaction@,
                                            aliases_resolver.bindings(),
                                            t@,
                                        ) is None);
                                        assert(!all_tokens_resolve(
                                            aliases_resolver.read_able_transaction@,
                                            aliases_resolver.bindings(),
                                            tv,
                                        ));
                                    }
                                    return Err(SweaterError::UnknownAlias);
                                },
                            }
                        },
                    }
                },
                ScanToken::Raw(_) => {
                    proof {
                        assert(references@.map_values(|o: ObjectId| o.value) =~= toks_refs_upto(
                            aliases_resolver.read_able_transaction@,
                            aliases_resolver.bindings(),
                            tv,
                            i + 1,
                        ));
                    }
                },
            }
            i = i + 1;
        }
        // Validate and collect the raw spans, in order.
        let mut raw_text_parts: Vec<RawText> = Vec::new();
        let mut j: usize = 0;
        while j < n
            invariant
                n == toks@.len(),
                j <= n,
                tv == toks@.map_values(|t: ScanToken| token_view(t)),
                spec_tokenize(input@) == Some(tv),
                all_tokens_resolve(
                    aliases_resolver.read_able_transaction@,
                    aliases_resolver.bindings(),
                    tv,
                ),
                references@.map_values(|o: ObjectId| o.value) == toks_refs_upto(
                    aliases_resolver.read_able_transaction@,
                    aliases_resolver.bindings(),
                    tv,
                    n as int,
                ),
                raw_text_parts@.map_values(|p: RawText| p.0@) == toks_raws_upto(tv, j as int),
                forall|k: int|
                    0 <= k < j ==> ((#[trigger] tv[k]) matches SourceToken::Raw(r) ==> is_raw_text(
                        r,
                    )),
            decreases n - j,
        {
            proof {
                assert(tv[j as int] == token_view(toks@[j as int]));
            }
            match &toks[j] {
                ScanToken::Raw(st) => {
                    let part = RawText(st.clone());
                    match part.validated() {
                        Ok(_) => {
                            raw_text_parts.push(part);
                            proof {
                                assert(raw_text_parts@.map_values(|p: RawText| p.0@)
                                    =~= toks_raws_upto(tv, j + 1));
                            }
                        },
                        Err(_) => {
                            proof {
                                assert(!is_raw_text(st@));
                                assert(!all_raws_valid(tv));
                            }
                            return Err(SweaterError::InvalidSyntax);
                        },
                    }
                },
                ScanToken::Refer(_) => {
                    proof {
                        assert(raw_text_parts@.map_values(|p: RawText| p.0@) =~= toks_raws_upto(
                            tv,
                            j + 1,
                        ));
                    }
                },
            }
            j = j + 1;
        }
        let start_with_reference = if toks.len() > 0 {
            match &toks[0] {
                ScanToken::Refer(_) => true,
                ScanToken::Raw(_) => false,
            }
        } else {
            false
        };
        let result = Text { raw_text_parts, references, start_with_reference };
        proof {
            assert(tv.len() > 0 ==> tv[0] == token_view(toks@[0]));
            assert(result.start_with_reference == (tv.len() > 0 && tv[0] is Reference));
            assert(result@ == parsed_model(
                aliases_resolver.read_able_transaction@,
                aliases_resolver.bindings(),
                tv,
            ));
            assert forall|k: int| 0 <= k < result@.parts.len() implies is_raw_text(
                #[trigger] result@.parts[k],
            ) by {
                lemma_toks_raws_valid(tv, tv.len() as int, k);
            }
        }
        Ok(result)
    }

    /// Reconstructs the source string: raw segments interleaved with
    /// bracketed identifier texts, starting as the source started.
    pub fn composed(&self) -> (r: String)
        ensures
            r@ == self@.composed(),
    {
        let mut out = String::new();
        if self.start_with_reference {
            let n = self.references.len();
            let mut i: usize = 0;
            while i < n
                invariant
                    n == self.references@.len(),
                    i <= n,
                    out@ + compose_ref_first(self@.refs, self@.parts, i as int) == compose_ref_first(
                        self@.refs,
                        self@.parts,
                        0,
                    ),
                decreases n - i,
            {
                push_id_bracket(&mut out, &self.references[i]);
                if i < self.raw_text_parts.len() {
                    out.append(self.raw_text_parts[i].0.as_str());
                }
                proof {
                    assert(out@ + compose_ref_first(self@.refs, self@.parts, i + 1)
                        =~= compose_ref_first(self@.refs, self@.parts, 0));
                }
                i = i + 1;
            }
            proof {
                assert(out@ =~= compose_ref_first(self@.refs, self@.parts, 0));
            }
        } else {
            let n = self.raw_text_parts.len();
            let mut i: usize = 0;
            while i < n
                invariant
                    n == self.raw_text_parts@.len(),
                    i <= n,
                    out@ + compose_raw_first(self@.parts, self@.refs, i as int) == compose_raw_first(
                        self@.parts,
                        self@.refs,
                        0,
                    ),
                decreases n - i,
            {
                out.append(self.raw_text_parts[i].0.as_str());
                if i < self.references.len() {
                    push_id_bracket(&mut out, &self.references[i]);
                }
                proof {
                    assert(out@ + compose_raw_first(self@.parts, self@.refs, i + 1)
                        =~= compose_raw_first(self@.parts, self@.refs, 0));
                }
                i = i + 1;
            }
            proof {
                assert(out@ =~= compose_raw_first(self@.parts, self@.refs, 0));
            }
        }
        out
    }

    /// Checks that every raw segment is well-formed, returning the text
    /// itself on success.
    pub fn validated(&self) -> (r: Result<&Self, SweaterError>)
        ensures
            r is Ok <==> self.is_valid(),
            r is Ok ==> r->Ok_0 == self,
            r is Err ==> r->Err_0 == SweaterError::InvalidSyntax,
    {
        let mut i: usize = 0;
        while i < self.raw_text_parts.len()
            invariant
                i <= self.raw_text_parts@.len(),
                forall|k: int| 0 <= k < i ==> is_raw_text(#[trigger] self@.parts[k]),
            decreases self.raw_text_parts@.len() - i,
        {
            match self.raw_text_parts[i].validated() {
                Ok(_) => {
                    proof {
                        assert(self@.parts[i as int] == self.raw_text_parts@[i as int].0@);
                    }
                },
                Err(e) => {
                    proof {
                        assert(self@.parts[i as int] == self.raw_text_parts@[i as int].0@);
                        assert(!self.is_valid());
                    }
                    return Err(e);
                },
            }
            i = i + 1;
        }
        Ok(self)
    }
}

/// Every raw span collected from valid tokens is valid.
proof fn lemma_toks_raws_valid(toks: Seq<SourceToken>, i: int, k: int)
    requires
        all_raws_valid(toks),
        0 <= i <= toks.len(),
        0 <= k < toks_raws_upto(toks, i).len(),
    ensures
        is_raw_text(toks_raws_upto(toks, i)[k]),
    decreases i,
{
    if i > 0 {
        let prev = toks_raws_upto(toks, i - 1);
        if k < prev.len() {
            lemma_toks_raws_valid(toks, i - 1, k);
            assert(toks_raws_upto(toks, i)[k] == prev[k]);
        } else {
            assert(toks[i - 1] matches SourceToken::Raw(r) && toks_raws_upto(toks, i)[k] == r);
        }
    }
}

/// One scanned token: a raw span or the characters between one bracket
/// pair, still unresolved.
enum ScanToken {
    Raw(String),
    Refer(String),
}

spec fn token_view(t: ScanToken) -> SourceToken {
    match t {
        ScanToken::Raw(s) => SourceToken::Raw(s@),
        ScanToken::Refer(s) => SourceToken::Reference(s@),
    }
}

/// Scanning one reference token: from an opening bracket, through a span
/// free of brackets, to its closing bracket.
proof fn lemma_tokenize_ref_step(s: Seq<char>, i: int, j: int)
    requires
        0 <= i < s.len(),
        s[i] == '[',
        i + 1 < j < s.len(),
        s[j] == ']',
        forall|k: int| i + 1 <= k < j ==> s[k] != ']' && #[trigger] s[k] != '[',
    ensures
        spec_tokenize(s.skip(i)) == (match spec_tokenize(s.skip(j + 1)) {
            Option::None => Option::<Seq<SourceToken>>::None,
            Option::Some(rest) => Some(seq![SourceToken::Reference(s.subrange(i + 1, j))] + rest),
        }),
{
    let su = s.skip(i);
    lemma_find_from(su, ']', 0);
    assert(su[j - i] == s[j]);
    match find_from(su, ']', 0) {
        Option::None => {
            assert(su[j - i] != ']');
            assert(false);
        },
        Option::Some(fj) => {
            if fj < j - i {
                if fj >= 1 {
                    assert(su[fj] == s[i + fj]);
                    assert(s[i + fj] != ']');
                }
                assert(false);
            }
            if fj > j - i {
                assert(su[j - i] != ']');
                assert(false);
            }
            assert(fj == j - i);
            assert(2 <= fj < su.len());
            assert forall|k: int| 1 <= k < fj implies su[k] != '[' by {
                assert(su[k] == s[i + k]);
            }
            assert(su.subrange(1, fj) =~= s.subrange(i + 1, j));
            assert(su.subrange(fj + 1, su.len() as int) =~= s.skip(j + 1));
        },
    }
}

/// Scanning one raw span: from a non-bracket character to the next opening
/// bracket or the end.
proof fn lemma_tokenize_raw_step(s: Seq<char>, i: int, k: int)
    requires
        0 <= i < s.len(),
        s[i] != '[',
        i < k <= s.len(),
        forall|t: int| i + 1 <= t < k ==> #[trigger] s[t] != '[',
        k < s.len() ==> s[k] == '[',
    ensures
        spec_tokenize(s.skip(i)) == (match spec_tokenize(s.skip(k)) {
            Option::None => Option::<Seq<SourceToken>>::None,
            Option::Some(rest) => Some(seq![SourceToken::Raw(s.subrange(i, k))] + rest),
        }),
{
    let su = s.skip(i);
    lemma_find_from(su, '[', 0);
    match find_from(su, '[', 0) {
        Option::None => {
            if k < s.len() {
                assert(su[k - i] == s[k]);
                assert(false);
            }
            assert(k == s.len());
            assert(su.subrange(0, k - i) =~= s.subrange(i, k));
            assert(su.subrange(k - i, su.len() as int) =~= s.skip(k));
        },
        Option::Some(fk) => {
            if fk < k - i {
                if fk >= 1 {
                    assert(su[fk] == s[i + fk]);
                    assert(s[i + fk] != '[');
                }
                assert(false);
            }
            if fk > k - i {
                if k < s.len() {
                    assert(su[k - i] == s[k]);
                    assert(su[k - i] != '[');
                    assert(false);
                } else {
                    assert(fk >= su.len());
                    assert(false);
                }
            }
            assert(fk == k - i);
            assert(su.subrange(0, fk) =~= s.subrange(i, k));
            assert(su.subrange(fk, su.len() as int) =~= s.skip(k));
        },
    }
}

/// A scan that finds no well-formed closing bracket: the text has no clean
/// token decomposition.
proof fn lemma_tokenize_fail(s: Seq<char>, i: int, j: int)
    requires
        0 <= i < s.len(),
        s[i] == '[',
        i + 1 <= j <= s.len(),
        forall|k: int| i + 1 <= k < j ==> s[k] != ']' && #[trigger] s[k] != '[',
        j == s.len() || s[j] == '[' || (j == i + 1 && s[j] == ']'),
    ensures
        spec_tokenize(s.skip(i)) is None,
{
    let su = s.skip(i);
    lemma_find_from(su, ']', 0);
    match find_from(su, ']', 0) {
        Option::None => {},
        Option::Some(fj) => {
            assert(su[fj] == s[i + fj]);
            if j == s.len() {
                assert(i + fj < j);
                if fj >= 1 {
                    assert(s[i + fj] != ']');
                }
                assert(false);
            } else if s[j] == '[' && !(j == i + 1 && s[j] == ']') {
                // The first closing bracket lies beyond an inner opening
                // bracket, so the pair is broken.
                if i + fj < j {
                    if fj >= 1 {
                        assert(s[i + fj] != ']');
                    }
                    assert(false);
                }
                assert(fj >= j - i);
                assert(su[j - i] == s[j]);
                if 2 <= fj < su.len() {
                    assert(1 <= j - i < fj);
                }
            } else {
                // Empty token.
                assert(j == i + 1 && s[j] == ']');
                if fj < 1 {
                    assert(su[0] == s[i]);
                    assert(false);
                }
                if fj > 1 {
                    assert(su[1] == s[j]);
                    assert(false);
                }
                assert(fj == 1);
            }
        },
    }
}

/// Splits a source string into raw spans and bracketed tokens, or reports
/// that the bracket structure is broken.
fn tokenize(input: &str) -> (r: Option<Vec<ScanToken>>)
    ensures
        match spec_tokenize(input@) {
            Option::None => r is None,
            Option::Some(toks) => r is Some && r->0@.map_values(|t: ScanToken| token_view(t))
                == toks,
        },
{
    let ghost s = input@;
    let cs = chars_of(input);
    let len = cs.len();
    let mut out: Vec<ScanToken> = Vec::new();
    proof {
        assert(s.skip(0) =~= s);
        match spec_tokenize(s) {
            Option::None => {},
            Option::Some(rest) => {
                assert(out@.map_values(|t: ScanToken| token_view(t)) + rest =~= rest);
            },
        }
    }
    let mut i: usize = 0;
    while i < len
        invariant
            s == input@,
            cs@ == s,
            len == s.len(),
            i <= len,
            spec_tokenize(s) == (match spec_tokenize(s.skip(i as int)) {
                Option::None => Option::<Seq<SourceToken>>::None,
                Option::Some(rest) => Some(
                    out@.map_values(|t: ScanToken| token_view(t)) + rest,
                ),
            }),
        decreases len - i,
    {
        if cs[i] == '[' {
            let mut j: usize = i + 1;
            while j < len && cs[j] != ']' && cs[j] != '['
                invariant
                    cs@ == s,
                    len == s.len(),
                    i + 1 <= j <= len,
                    i < len,
                    forall|k: int| i + 1 <= k < j ==> s[k] != ']' && #[trigger] s[k] != '[',
                decreases len - j,
            {
                j = j + 1;
            }
            if j >= len || cs[j] == '[' || j == i + 1 {
                proof {
                    lemma_tokenize_fail(s, i as int, j as int);
                }
                return None;
            }
            let tok = string_of_range(&cs, i + 1, j);
            let ghost before = out@;
            out.push(ScanToken::Refer(tok));
            proof {
                lemma_tokenize_ref_step(s, i as int, j as int);
                assert(out@.map_values(|t: ScanToken| token_view(t)) =~= before.map_values(
                    |t: ScanToken| token_view(t),
                ).push(SourceToken::Reference(s.subrange(i + 1, j as int))));
                match spec_tokenize(s.skip(j + 1)) {
                    Option::None => {},
                    Option::Some(rest) => {
                        assert(before.map_values(|t: ScanToken| token_view(t)) + (seq![
                            SourceToken::Reference(s.subrange(i + 1, j as int)),
                        ] + rest) =~= out@.map_values(|t: ScanToken| token_view(t)) + rest);
                    },
                }
            }
            i = j + 1;
        } else {
            let mut k: usize = i + 1;
            while k < len && cs[k] != '['
                invariant
                    cs@ == s,
                    len == s.len(),
                    i + 1 <= k <= len,
                    i < len,
                    forall|t: int| i + 1 <= t < k ==> #[trigger] s[t] != '[',
                decreases len - k,
            {
                k = k + 1;
            }
            let st = string_of_range(&cs, i, k);
            let ghost before = out@;
            out.push(ScanToken::Raw(st));
            proof {
                lemma_tokenize_raw_step(s, i as int, k as int);
                assert(out@.map_values(|t: ScanToken| token_view(t)) =~= before.map_values(
                    |t: ScanToken| token_view(t),
                ).push(SourceToken::Raw(s.subrange(i as int, k as int))));
                match spec_tokenize(s.skip(k as int)) {
                    Option::None => {},
                    Option::Some(rest) => {
                        assert(before.map_values(|t: ScanToken| token_view(t)) + (seq![
                            SourceToken::Raw(s.subrange(i as int, k as int)),
                        ] + rest) =~= out@.map_values(|t: ScanToken| token_view(t)) + rest);
                    },
                }
            }
            i = k;
        }
    }
    proof {
        assert(s.skip(len as int).len() == 0);
        assert(spec_tokenize(s.skip(len as int)) == Some(Seq::<SourceToken>::empty()));
        assert(out@.map_values(|t: ScanToken| token_view(t)) + Seq::<SourceToken>::empty()
            =~= out@.map_values(|t: ScanToken| token_view(t)));
    }
    Some(out)
}

/// Appends `[` + the identifier's textual form + `]`.
fn push_id_bracket(out: &mut String, id: &ObjectId)
    ensures
        final(out)@ == old(out)@ + bracketed(id.value),
{
    push_char(out, '[');
    let id_chars = id.text_chars();
    let mut k: usize = 0;
    let ghost before = out@;
    while k < id_chars.len()
        invariant
            k <= id_chars@.len(),
            id_chars@ == id_text(id.value),
            out@ == before + id_chars@.subrange(0, k as int),
        decreases id_chars@.len() - k,
    {
        push_char(out, id_chars[k]);
        assert(out@ =~= before + id_chars@.subrange(0, k + 1 as int));
        k = k + 1;
    }
    push_char(out, ']');
    proof {
        assert(id_chars@.subrange(0, id_chars@.len() as int) =~= id_chars@);
        assert(out@ =~= old(out)@ + bracketed(id.value));
    }
}

} // verus!
