//! Thesis content and its identity: the canonical binary encoding of the
//! content, hashed to a 128-bit identifier. The identity depends on the
//! content alone, never on an alias or on tags.
//!
//! Canonical layout: a one-byte variant discriminator (0 for text, 1 for a
//! relation); strings as a little-endian 64-bit byte length followed by the
//! UTF-8 bytes; identifiers as 16 big-endian bytes; sequences as a
//! little-endian 64-bit count followed by the elements.

use vstd::prelude::*;
use vstd::utf8::encode_utf8;
use crate::errors::SweaterError;
use crate::ids::ObjectId;
use crate::relation::{Relation, RelationModel};
use crate::text::{Text, TextModel};

verus! {

/// 256^k.
pub open spec fn p256(k: nat) -> int
    decreases k,
{
    if k == 0 {
        1
    } else {
        256 * p256((k - 1) as nat)
    }
}

/// The 8 little-endian bytes of a 64-bit length.
pub open spec fn le8(n: nat) -> Seq<u8> {
    Seq::new(8, |i: int| ((n as int / p256(i as nat)) % 256) as u8)
}

/// The 16 big-endian bytes of a 128-bit identifier value.
pub open spec fn be16(v: u128) -> Seq<u8> {
    Seq::new(16, |i: int| ((v as int / p256((15 - i) as nat)) % 256) as u8)
}

/// A canonically encoded string: its UTF-8 byte length, then its bytes.
pub open spec fn canon_string(s: Seq<char>) -> Seq<u8> {
    le8(encode_utf8(s).len()) + encode_utf8(s)
}

/// The canonically encoded raw segments from index `i` on.
pub open spec fn canon_parts(parts: Seq<Seq<char>>, i: int) -> Seq<u8>
    decreases parts.len() - i,
{
    if i < 0 || i >= parts.len() {
        Seq::empty()
    } else {
        canon_string(parts[i]) + canon_parts(parts, i + 1)
    }
}

/// The canonically encoded reference identifiers from index `i` on.
pub open spec fn canon_refs(refs: Seq<u128>, i: int) -> Seq<u8>
    decreases refs.len() - i,
{
    if i < 0 || i >= refs.len() {
        Seq::empty()
    } else {
        be16(refs[i]) + canon_refs(refs, i + 1)
    }
}

/// The ghost shape of a content value.
pub enum ContentModel {
    Text(TextModel),
    Relation(RelationModel),
}

impl ContentModel {
    /// Whether the content is well-formed: a text's raw segments all are, or
    /// a relation's kind is.
    pub open spec fn is_valid(self) -> bool {
        match self {
            ContentModel::Text(t) => t.is_valid(),
            ContentModel::Relation(r) => crate::relation::is_kind_text(r.kind),
        }
    }
}

/// The canonical binary encoding of a content value.
pub open spec fn canon_content(c: ContentModel) -> Seq<u8> {
    match c {
        ContentModel::Text(t) => seq![0u8] + seq![
            if t.start_with_reference {
                1u8
            } else {
                0u8
            },
        ] + le8(t.parts.len()) + canon_parts(t.parts, 0) + le8(t.refs.len()) + canon_refs(
            t.refs,
            0,
        ),
        ContentModel::Relation(r) => seq![1u8] + be16(r.from) + be16(r.to) + canon_string(r.kind),
    }
}

/// The 128-bit hash that xxh3 assigns to a byte sequence.
pub uninterp spec fn xxh3_128_of(bytes: Seq<u8>) -> u128;

/// The identity of a content value: the hash of its canonical encoding.
pub open spec fn content_id(c: ContentModel) -> u128 {
    xxh3_128_of(canon_content(c))
}

/// Relies on xxhash_rust::xxh3::xxh3_128: the 128-bit hash of the input
/// bytes, a function of the bytes alone.
#[verifier::external_body]
fn hash_bytes(bytes: &Vec<u8>) -> (r: u128)
    ensures
        r == xxh3_128_of(bytes@),
{
    xxhash_rust::xxh3::xxh3_128(bytes.as_slice())
}

/// The content of a thesis: text with references, or a typed relation.
#[derive(PartialEq, Eq, Debug)]
pub enum Content {
    Text(Text),
    Relation(Relation),
}

impl View for Content {
    type V = ContentModel;

    open spec fn view(&self) -> ContentModel {
        match self {
            Content::Text(t) => ContentModel::Text(t@),
            Content::Relation(r) => ContentModel::Relation(r@),
        }
    }
}

impl Clone for Content {
    fn clone(&self) -> (r: Self)
        ensures
            r@ == self@,
    {
        match self {
            Content::Text(t) => Content::Text(t.clone()),
            Content::Relation(r) => Content::Relation(r.clone()),
        }
    }
}

/// Appends the 8 little-endian bytes of `n`.
fn push_le8(out: &mut Vec<u8>, n: u64)
    ensures
        final(out)@ == old(out)@ + le8(n as nat),
{
    let mut x: u64 = n;
    let mut i: usize = 0;
    while i < 8
        invariant
            i <= 8,
            x as int == n as int / p256(i as nat),
            out@.len() == old(out)@.len() + i,
            out@.subrange(0, old(out)@.len() as int) == old(out)@,
            forall|k: int|
                0 <= k < i ==> #[trigger] out@[old(out)@.len() + k] == ((n as int / p256(k as nat))
                    % 256) as u8,
        decreases 8 - i,
    {
        proof {
            lemma_p256_pos(i as nat);
            vstd::arithmetic::div_mod::lemma_div_denominator(n as int, p256(i as nat), 256);
        }
        out.push((x % 256) as u8);
        x = x / 256;
        proof {
            assert(out@.subrange(0, old(out)@.len() as int) =~= old(out)@);
        }
        i = i + 1;
    }
    proof {
        assert forall|m: int| 0 <= m < out@.len() implies out@[m] == (old(out)@ + le8(
            n as nat,
        ))[m] by {
            if m < old(out)@.len() {
                assert(out@.subrange(0, old(out)@.len() as int)[m] == out@[m]);
            } else {
                let k = m - old(out)@.len();
                assert(out@[old(out)@.len() + k] == ((n as int / p256(k as nat)) % 256) as u8);
            }
        }
        assert(out@ =~= old(out)@ + le8(n as nat));
    }
}

/// Appends the 16 big-endian bytes of `v`.
fn push_be16(out: &mut Vec<u8>, v: u128)
    ensures
        final(out)@ == old(out)@ + be16(v),
{
    let mut tmp: Vec<u8> = Vec::new();
    let mut x: u128 = v;
    let mut i: usize = 0;
    while i < 16
        invariant
            i <= 16,
            x as int == v as int / p256(i as nat),
            tmp@.len() == i,
            forall|k: int| 0 <= k < i ==> tmp@[k] == ((v as int / p256(k as nat)) % 256) as u8,
        decreases 16 - i,
    {
        proof {
            lemma_p256_pos(i as nat);
            vstd::arithmetic::div_mod::lemma_div_denominator(v as int, p256(i as nat), 256);
        }
        tmp.push((x % 256) as u8);
        x = x / 256;
        i = i + 1;
    }
    let mut j: usize = 0;
    while j < 16
        invariant
            j <= 16,
            tmp@.len() == 16,
            forall|k: int| 0 <= k < 16 ==> tmp@[k] == ((v as int / p256(k as nat)) % 256) as u8,
            out@.len() == old(out)@.len() + j,
            out@.subrange(0, old(out)@.len() as int) == old(out)@,
            forall|k: int| 0 <= k < j ==> out@[old(out)@.len() + k] == be16(v)[k],
        decreases 16 - j,
    {
        out.push(tmp[15 - j]);
        proof {
            assert(out@.subrange(0, old(out)@.len() as int) =~= old(out)@);
        }
        j = j + 1;
    }
    proof {
        assert forall|m: int| 0 <= m < out@.len() implies out@[m] == (old(out)@ + be16(v))[m] by {
            if m < old(out)@.len() {
                assert(out@.subrange(0, old(out)@.len() as int)[m] == out@[m]);
            } else {
                let k = m - old(out)@.len();
                assert(out@[old(out)@.len() + k] == be16(v)[k]);
            }
        }
        assert(out@ =~= old(out)@ + be16(v));
    }
}

/// Appends the canonical encoding of a string.
fn push_string(out: &mut Vec<u8>, s: &str)
    ensures
        final(out)@ == old(out)@ + canon_string(s@),
{
    let bytes = s.as_bytes();
    push_le8(out, bytes.len() as u64);
    let ghost mid = out@;
    let mut i: usize = 0;
    while i < bytes.len()
        invariant
            i <= bytes@.len(),
            bytes@ == encode_utf8(s@),
            out@ == mid + bytes@.subrange(0, i as int),
        decreases bytes@.len() - i,
    {
        out.push(bytes[i]);
        proof {
            assert(out@ =~= mid + bytes@.subrange(0, i + 1 as int));
        }
        i = i + 1;
    }
    proof {
        assert(bytes@.subrange(0, bytes@.len() as int) =~= bytes@);
        assert(out@ =~= old(out)@ + canon_string(s@));
    }
}

proof fn lemma_p256_pos(k: nat)
    ensures
        p256(k) >= 1,
    decreases k,
{
    if k > 0 {
        lemma_p256_pos((k - 1) as nat);
    }
}

/// The canonical binary encoding of a content value, as specified by
/// `canon_content`.
pub fn canonical_encode(c: &Content) -> (r: Vec<u8>)
    ensures
        r@ == canon_content(c@),
{
    let mut out: Vec<u8> = Vec::new();
    match c {
        Content::Text(t) => {
            out.push(0u8);
            out.push(if t.start_with_reference {
                1u8
            } else {
                0u8
            });
            push_le8(&mut out, t.raw_text_parts.len() as u64);
            let ghost head = out@;
            let mut i: usize = 0;
            while i < t.raw_text_parts.len()
                invariant
                    i <= t.raw_text_parts@.len(),
                    out@ + canon_parts(t@.parts, i as int) == head + canon_parts(t@.parts, 0),
                decreases t.raw_text_parts@.len() - i,
            {
                push_string(&mut out, t.raw_text_parts[i].0.as_str());
                proof {
                    assert(t@.parts[i as int] == t.raw_text_parts@[i as int].0@);
                    assert(out@ + canon_parts(t@.parts, i + 1) =~= head + canon_parts(t@.parts, 0));
                }
                i = i + 1;
            }
            push_le8(&mut out, t.references.len() as u64);
            let ghost head2 = out@;
            let mut j: usize = 0;
            while j < t.references.len()
                invariant
                    j <= t.references@.len(),
                    out@ + canon_refs(t@.refs, j as int) == head2 + canon_refs(t@.refs, 0),
                decreases t.references@.len() - j,
            {
                push_be16(&mut out, t.references[j].value);
                proof {
                    assert(t@.refs[j as int] == t.references@[j as int].value);
                    assert(out@ + canon_refs(t@.refs, j + 1) =~= head2 + canon_refs(t@.refs, 0));
                }
                j = j + 1;
            }
            proof {
                assert(out@ =~= canon_content(c@));
            }
        },
        Content::Relation(r) => {
            out.push(1u8);
            push_be16(&mut out, r.from.value);
            push_be16(&mut out, r.to.value);
            push_string(&mut out, r.kind.0.as_str());
            proof {
                assert(out@ =~= canon_content(c@));
            }
        },
    }
    out
}

impl Content {
    /// Whether this content is well-formed: its text segments or its
    /// relation kind are.
    pub open spec fn is_valid(&self) -> bool {
        self@.is_valid()
    }

    /// The identity of this content: the hash of its canonical encoding.
    pub fn id(&self) -> (r: ObjectId)
        ensures
            r.value == content_id(self@),
    {
        let bytes = canonical_encode(self);
        ObjectId { value: hash_bytes(&bytes) }
    }

    /// Checks well-formedness, returning the content itself on success.
    pub fn validated(&self) -> (r: Result<&Self, SweaterError>)
        ensures
            r is Ok <==> self.is_valid(),
            r is Ok ==> r->Ok_0 == self,
            r is Err ==> r->Err_0 == SweaterError::InvalidSyntax,
    {
        match self {
            Content::Text(t) => match t.validated() {
                Ok(_) => Ok(self),
                Err(e) => Err(e),
            },
            Content::Relation(r) => match r.validate() {
                Ok(_) => Ok(self),
                Err(e) => Err(e),
            },
        }
    }
}

} // verus!
