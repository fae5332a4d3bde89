//! The canonical serialization of input facts: the bytes that their content
//! identifiers are computed from.
//!
//! A length is written as eight bytes, little end first. Bytes are written
//! as their length and then themselves. A value is written as the byte of
//! its tag and then its content: `0` and a byte for a boolean, `1` and the
//! eight bytes of the two's complement for an integer, `2` and the UTF-8
//! bytes for a string, `3` and the bytes for a content identifier. An input
//! fact is written as its columns in the order of their names, which is
//! attribute, entity, value, and then its links: their number, and each in
//! the order given.

use vstd::prelude::*;
use vstd::bytes::{
    lemma_auto_spec_u64_to_from_le_bytes, spec_u64_from_le_bytes, spec_u64_to_le_bytes,
    u64_to_le_bytes,
};
use vstd::utf8::{encode_utf8, encode_utf8_decode_utf8};
use crate::tuple::{InputTuple, InputTupleView};
use crate::value::{views, Cid, Value, ValueView};

verus! {

/// The bytes of a length.
pub open spec fn enc_len(len: nat) -> Seq<u8> {
    spec_u64_to_le_bytes(len as u64)
}

/// The bytes of a byte string: its length, then itself.
pub open spec fn enc_bytes(bytes: Seq<u8>) -> Seq<u8> {
    enc_len(bytes.len()) + bytes
}

/// The bytes of a value: the byte of its tag, then its content.
pub open spec fn enc_value(value: ValueView) -> Seq<u8> {
    match value {
        ValueView::Bool(b) => seq![0u8, if b { 1u8 } else { 0u8 }],
        ValueView::I64(i) => seq![1u8] + spec_u64_to_le_bytes(i as u64),
        ValueView::Str(s) => seq![2u8] + enc_bytes(encode_utf8(s)),
        ValueView::Cid(c) => seq![3u8] + enc_bytes(c),
    }
}

/// The bytes of content identifiers, one after the other.
pub open spec fn enc_links(links: Seq<Seq<u8>>) -> Seq<u8>
    decreases links.len(),
{
    if links.len() == 0 {
        seq![]
    } else {
        enc_bytes(links[0]) + enc_links(links.drop_first())
    }
}

/// The canonical bytes of an input fact.
pub open spec fn canonical(tuple: InputTupleView) -> Seq<u8> {
    enc_value(tuple.attribute) + (enc_value(tuple.entity) + (enc_value(tuple.value) + (enc_len(
        tuple.links.len(),
    ) + enc_links(tuple.links))))
}

/// Whether the machine can write the value: its string or its content
/// identifier has a length that fits eight bytes.
pub open spec fn value_fits(value: ValueView) -> bool {
    match value {
        ValueView::Str(s) => encode_utf8(s).len() <= u64::MAX,
        ValueView::Cid(c) => c.len() <= u64::MAX,
        _ => true,
    }
}

/// Whether the machine can write the input fact: every length in it fits
/// eight bytes.
pub open spec fn fits(tuple: InputTupleView) -> bool {
    &&& value_fits(tuple.attribute)
    &&& value_fits(tuple.entity)
    &&& value_fits(tuple.value)
    &&& tuple.links.len() <= u64::MAX
    &&& forall|i: int| 0 <= i < tuple.links.len() ==> (#[trigger] tuple.links[i]).len() <= u64::MAX
}

/// Two lengths that are written the same, before whatever follows, are the
/// same, and so is what follows.
pub proof fn lemma_len_prefix(a: nat, b: nat, r1: Seq<u8>, r2: Seq<u8>)
    requires
        a <= u64::MAX,
        b <= u64::MAX,
        enc_len(a) + r1 == enc_len(b) + r2,
    ensures
        a == b,
        r1 == r2,
{
    lemma_auto_spec_u64_to_from_le_bytes();
    let x = enc_len(a) + r1;
    let y = enc_len(b) + r2;
    assert(x.take(8) =~= enc_len(a));
    assert(y.take(8) =~= enc_len(b));
    assert(spec_u64_from_le_bytes(spec_u64_to_le_bytes(a as u64)) == a as u64);
    assert(spec_u64_from_le_bytes(spec_u64_to_le_bytes(b as u64)) == b as u64);
    assert(x.skip(8) =~= r1);
    assert(y.skip(8) =~= r2);
}

/// Two byte strings that are written the same, before whatever follows, are
/// the same, and so is what follows.
pub proof fn lemma_bytes_prefix(a: Seq<u8>, b: Seq<u8>, r1: Seq<u8>, r2: Seq<u8>)
    requires
        a.len() <= u64::MAX,
        b.len() <= u64::MAX,
        enc_bytes(a) + r1 == enc_bytes(b) + r2,
    ensures
        a == b,
        r1 == r2,
{
    assert(enc_bytes(a) + r1 =~= enc_len(a.len()) + (a + r1));
    assert(enc_bytes(b) + r2 =~= enc_len(b.len()) + (b + r2));
    lemma_len_prefix(a.len(), b.len(), a + r1, b + r2);
    let x = a + r1;
    let y = b + r2;
    assert(x.take(a.len() as int) =~= a);
    assert(y.take(b.len() as int) =~= b);
    assert(x.skip(a.len() as int) =~= r1);
    assert(y.skip(b.len() as int) =~= r2);
}

/// Two integers with the same two's complement are the same.
pub proof fn lemma_twos_complement(a: i64, b: i64)
    requires
        a as u64 == b as u64,
    ensures
        a == b,
{
    assert(a as u64 == b as u64 ==> a == b) by (bit_vector);
}

/// Two values that are written the same, before whatever follows, are the
/// same, and so is what follows.
pub proof fn lemma_value_prefix(a: ValueView, b: ValueView, r1: Seq<u8>, r2: Seq<u8>)
    requires
        value_fits(a),
        value_fits(b),
        enc_value(a) + r1 == enc_value(b) + r2,
    ensures
        a == b,
        r1 == r2,
{
    let x = enc_value(a) + r1;
    let y = enc_value(b) + r2;
    assert(x[0] == enc_value(a)[0]);
    assert(y[0] == enc_value(b)[0]);
    match (a, b) {
        (ValueView::Bool(p), ValueView::Bool(q)) => {
            assert(x[1] == enc_value(a)[1]);
            assert(y[1] == enc_value(b)[1]);
            assert(x.skip(2) =~= r1);
            assert(y.skip(2) =~= r2);
        },
        (ValueView::I64(p), ValueView::I64(q)) => {
            lemma_auto_spec_u64_to_from_le_bytes();
            assert(x.subrange(1, 9) =~= spec_u64_to_le_bytes(p as u64));
            assert(y.subrange(1, 9) =~= spec_u64_to_le_bytes(q as u64));
            assert(spec_u64_from_le_bytes(spec_u64_to_le_bytes(p as u64)) == p as u64);
            assert(spec_u64_from_le_bytes(spec_u64_to_le_bytes(q as u64)) == q as u64);
            lemma_twos_complement(p, q);
            assert(x.skip(9) =~= r1);
            assert(y.skip(9) =~= r2);
        },
        (ValueView::Str(p), ValueView::Str(q)) => {
            assert(x.skip(1) =~= enc_bytes(encode_utf8(p)) + r1);
            assert(y.skip(1) =~= enc_bytes(encode_utf8(q)) + r2);
            lemma_bytes_prefix(encode_utf8(p), encode_utf8(q), r1, r2);
            encode_utf8_decode_utf8(p);
            encode_utf8_decode_utf8(q);
        },
        (ValueView::Cid(p), ValueView::Cid(q)) => {
            assert(x.skip(1) =~= enc_bytes(p) + r1);
            assert(y.skip(1) =~= enc_bytes(q) + r2);
            lemma_bytes_prefix(p, q, r1, r2);
        },
        _ => {},
    }
}

/// Two lists of content identifiers of one length that are written the same
/// are the same.
pub proof fn lemma_links(a: Seq<Seq<u8>>, b: Seq<Seq<u8>>)
    requires
        a.len() == b.len(),
        forall|i: int| 0 <= i < a.len() ==> (#[trigger] a[i]).len() <= u64::MAX,
        forall|i: int| 0 <= i < b.len() ==> (#[trigger] b[i]).len() <= u64::MAX,
        enc_links(a) == enc_links(b),
    ensures
        a == b,
    decreases a.len(),
{
    if a.len() > 0 {
        lemma_bytes_prefix(a[0], b[0], enc_links(a.drop_first()), enc_links(b.drop_first()));
        assert forall|i: int| 0 <= i < a.drop_first().len() implies (#[trigger] a.drop_first()[i]).len()
            <= u64::MAX by {
            assert(a.drop_first()[i] == a[i + 1]);
        }
        assert forall|i: int| 0 <= i < b.drop_first().len() implies (#[trigger] b.drop_first()[i]).len()
            <= u64::MAX by {
            assert(b.drop_first()[i] == b[i + 1]);
        }
        lemma_links(a.drop_first(), b.drop_first());
        assert(a =~= seq![a[0]] + a.drop_first());
        assert(b =~= seq![b[0]] + b.drop_first());
    } else {
        assert(a =~= b);
    }
}

/// Two input facts have the same canonical bytes exactly when they are the
/// same: the same entity, attribute and value, and the same links in the
/// same order. So a content identifier that is computed from the canonical
/// bytes is the same for two facts that are the same, and can only be the
/// same for two facts that differ where the computation of the identifier
/// from the bytes gives one result for different bytes.
pub proof fn canonical_injective(a: InputTupleView, b: InputTupleView)
    requires
        fits(a),
        fits(b),
    ensures
        canonical(a) == canonical(b) <==> a == b,
{
    if canonical(a) == canonical(b) {
        let ra = enc_value(a.entity) + (enc_value(a.value) + (enc_len(a.links.len()) + enc_links(
            a.links,
        )));
        let rb = enc_value(b.entity) + (enc_value(b.value) + (enc_len(b.links.len()) + enc_links(
            b.links,
        )));
        lemma_value_prefix(a.attribute, b.attribute, ra, rb);
        let sa = enc_value(a.value) + (enc_len(a.links.len()) + enc_links(a.links));
        let sb = enc_value(b.value) + (enc_len(b.links.len()) + enc_links(b.links));
        lemma_value_prefix(a.entity, b.entity, sa, sb);
        let ta = enc_len(a.links.len()) + enc_links(a.links);
        let tb = enc_len(b.links.len()) + enc_links(b.links);
        lemma_value_prefix(a.value, b.value, ta, tb);
        lemma_len_prefix(a.links.len(), b.links.len(), enc_links(a.links), enc_links(b.links));
        lemma_links(a.links, b.links);
    }
}

/// Writes a length.
fn write_len(out: &mut Vec<u8>, len: usize)
    ensures
        final(out)@ == old(out)@ + enc_len(len as nat),
{
    let bytes = u64_to_le_bytes(len as u64);
    out.extend_from_slice(bytes.as_slice());
}

/// Writes a byte string.
fn write_bytes(out: &mut Vec<u8>, bytes: &[u8])
    ensures
        final(out)@ == old(out)@ + enc_bytes(bytes@),
        bytes@.len() <= u64::MAX,
{
    let ghost before = out@;
    write_len(out, bytes.len());
    out.extend_from_slice(bytes);
    assert(out@ =~= before + enc_bytes(bytes@));
}

/// Writes a value.
fn write_value(out: &mut Vec<u8>, value: &Value)
    ensures
        final(out)@ == old(out)@ + enc_value(value@),
        value_fits(value@),
{
    let ghost before = out@;
    match value {
        Value::Bool(b) => {
            out.push(0u8);
            out.push(if *b { 1u8 } else { 0u8 });
            assert(out@ =~= before + enc_value(value@));
        },
        Value::I64(i) => {
            out.push(1u8);
            let bytes = u64_to_le_bytes(#[verifier::truncate] (*i as u64));
            out.extend_from_slice(bytes.as_slice());
            assert(out@ =~= before + enc_value(value@));
        },
        Value::Str(s) => {
            out.push(2u8);
            write_bytes(out, s.as_str().as_bytes());
            assert(out@ =~= before + enc_value(value@));
        },
        Value::Cid(c) => {
            out.push(3u8);
            let bytes = c.to_bytes();
            write_bytes(out, bytes.as_slice());
            assert(out@ =~= before + enc_value(value@));
        },
    }
}

impl InputTuple {
    /// The canonical bytes of the fact.
    pub fn canonical_bytes(&self) -> (bytes: Vec<u8>)
        ensures
            bytes@ == canonical(self@),
            fits(self@),
    {
        let mut out: Vec<u8> = Vec::new();
        write_value(&mut out, &self.attribute);
        write_value(&mut out, &self.entity);
        write_value(&mut out, &self.value);
        write_len(&mut out, self.links.len());
        let ghost head = out@;
        let ghost links = self@.links;
        let mut i: usize = 0;
        assert(links.skip(0) =~= links);
        while i < self.links.len()
            invariant
                i <= self.links.len(),
                links == views(self.links@),
                head + enc_links(links) == out@ + enc_links(links.skip(i as int)),
                forall|j: int| 0 <= j < i ==> (#[trigger] links[j]).len() <= u64::MAX,
            decreases self.links.len() - i,
        {
            let ghost before = out@;
            let bytes = self.links[i].to_bytes();
            write_bytes(&mut out, bytes.as_slice());
            proof {
                let rest = links.skip(i as int);
                assert(links[i as int] == self.links@[i as int]@);
                assert(rest[0] == links[i as int]);
                assert(rest.drop_first() =~= links.skip(i + 1));
                assert(before + enc_links(rest) =~= out@ + enc_links(links.skip(i + 1)));
            }
            i += 1;
        }
        assert(out@ =~= head + enc_links(links));
        assert(head =~= enc_value(self@.attribute) + enc_value(self@.entity) + enc_value(
            self@.value,
        ) + enc_len(links.len()));
        assert(out@ =~= canonical(self@));
        out
    }
}

} // verus!
