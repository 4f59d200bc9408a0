//! Decoding undoes encoding.

use crate::chars::lemma_scalars_of_encoded;
use crate::decode::{group_at, pad_group, unpack, Decoder};
use crate::emojis::Version;
use crate::encode::{byte_or_zero, lemma_pack_bounds, pack0, pack1, pack2, pack3};
use crate::error::DecodeError;
use vstd::prelude::*;
use vstd::utf8::*;

verus! {

/// Taking the four 10-bit values of five bytes apart again gives the five
/// bytes.
pub proof fn lemma_unpack_pack(b0: u8, b1: u8, b2: u8, b3: u8, b4: u8)
    ensures
        unpack(pack0(b0, b1), pack1(b1, b2), pack2(b2, b3), pack3(b3, b4)) == seq![
            b0,
            b1,
            b2,
            b3,
            b4,
        ],
{
    let v0 = pack0(b0, b1);
    let v1 = pack1(b1, b2);
    let v2 = pack2(b2, b3);
    let v3 = pack3(b3, b4);
    assert((v0 >> 2) as u8 == b0) by (bit_vector)
        requires
            v0 == ((b0 as u16) << 2) | ((b1 as u16) >> 6),
    ;
    assert((((v0 & 0x3) << 6) | (v1 >> 4)) as u8 == b1) by (bit_vector)
        requires
            v0 == ((b0 as u16) << 2) | ((b1 as u16) >> 6),
            v1 == (((b1 as u16) & 0x3f) << 4) | ((b2 as u16) >> 4),
    ;
    assert((((v1 & 0xf) << 4) | (v2 >> 6)) as u8 == b2) by (bit_vector)
        requires
            v1 == (((b1 as u16) & 0x3f) << 4) | ((b2 as u16) >> 4),
            v2 == (((b2 as u16) & 0x0f) << 6) | ((b3 as u16) >> 2),
    ;
    assert((((v2 & 0x3f) << 2) | (v3 >> 8)) as u8 == b3) by (bit_vector)
        requires
            v2 == (((b2 as u16) & 0x0f) << 6) | ((b3 as u16) >> 2),
            v3 == (((b3 as u16) & 0x03) << 8) | (b4 as u16),
    ;
    assert((v3 & 0xff) as u8 == b4) by (bit_vector)
        requires
            v3 == (((b3 as u16) & 0x03) << 8) | (b4 as u16),
    ;
    assert(unpack(v0, v1, v2, v3) =~= seq![b0, b1, b2, b3, b4]);
}

/// The last value of a chunk of four bytes is the number of its padding
/// scalar, moved up by eight bits.
proof fn lemma_numbered(b3: u8)
    ensures
        (b3 & 0x03) == 0 ==> pack3(b3, 0) == 0,
        (b3 & 0x03) == 1 ==> pack3(b3, 0) == 0x100,
        (b3 & 0x03) == 2 ==> pack3(b3, 0) == 0x200,
        (b3 & 0x03) == 3 ==> pack3(b3, 0) == 0x300,
        (b3 & 0x03) < 4,
{
    let v = pack3(b3, 0);
    let low = b3 & 0x03;
    assert(low < 4 && (low == 0 ==> v == 0) && (low == 1 ==> v == 0x100) && (low == 2 ==> v
        == 0x200) && (low == 3 ==> v == 0x300)) by (bit_vector)
        requires
            v == (((b3 as u16) & 0x03) << 8) | (0u8 as u16),
            low == b3 & 0x03,
    ;
}

impl Version {
    /// The 10-bit value of a symbol is its index, and that of the plain
    /// padding is zero.
    proof fn lemma_values(&self, i: int)
        requires
            self.wf(),
            0 <= i < 1024,
        ensures
            self.value_of(self.symbols()[i]) == i,
            self.last_value_of(self.symbols()[i]) == i,
            self.symbols()[i] != self.PADDING,
            !self.is_padding_spec(self.symbols()[i]),
            self.accepts(self.symbols()[i]),
    {
        self.lemma_symbol_is_no_padding(i);
    }

    /// A group of four scalars that agrees with the group written for a
    /// chunk, up to and with the place behind the data, decodes to the
    /// chunk.
    pub proof fn lemma_group_round_trip(&self, chunk: Seq<u8>, g: Seq<char>)
        requires
            self.wf(),
            1 <= chunk.len() <= 5,
            g.len() == 4,
            forall|i: int| 0 <= i < 4 && i <= chunk.len() ==> g[i] == self.group_of(chunk)[i],
        ensures
            self.group_bytes(g) == chunk,
    {
        let b0 = byte_or_zero(chunk, 0);
        let b1 = byte_or_zero(chunk, 1);
        let b2 = byte_or_zero(chunk, 2);
        let b3 = byte_or_zero(chunk, 3);
        let b4 = byte_or_zero(chunk, 4);
        let n = chunk.len();
        lemma_pack_bounds(b0, b1, b2, b3, b4);
        lemma_unpack_pack(b0, b1, b2, b3, b4);
        lemma_numbered(b3);
        self.lemma_values(pack0(b0, b1) as int);
        self.lemma_values(pack1(b1, b2) as int);
        self.lemma_values(pack2(b2, b3) as int);
        self.lemma_values(pack3(b3, b4) as int);
        let full = unpack(pack0(b0, b1), pack1(b1, b2), pack2(b2, b3), pack3(b3, b4));
        let got = unpack(
            self.value_of(g[0]),
            self.value_of(g[1]),
            self.value_of(g[2]),
            self.last_value_of(g[3]),
        );
        assert(g[0] == self.group_of(chunk)[0]);
        assert(g[1] == self.group_of(chunk)[1]);
        assert(self.paddings()[0] == self.PADDING);
        assert(self.paddings()[1] == self.PADDING_40);
        assert(self.paddings()[2] == self.PADDING_41);
        assert(self.paddings()[3] == self.PADDING_42);
        assert(self.paddings()[4] == self.PADDING_43);
        assert(self.group_len(g) == n) by {
            if n >= 2 {
                assert(g[2] == self.group_of(chunk)[2]);
            }
            if n >= 3 {
                assert(g[3] == self.group_of(chunk)[3]);
            }
        }
        assert(forall|i: int| 0 <= i < n ==> got[i] == full[i]) by {
            if n >= 2 {
                assert(g[2] == self.group_of(chunk)[2]);
            }
            if n >= 3 {
                assert(g[3] == self.group_of(chunk)[3]);
            }
        }
        assert(got.take(n as int) =~= chunk);
    }

    /// The scalars written for a chunk: how many there are, that the
    /// alphabet knows each of them, and that the plain padding closes a run
    /// of fewer than four.
    proof fn lemma_encoded_chunk(&self, chunk: Seq<u8>)
        requires
            self.wf(),
            1 <= chunk.len() <= 5,
        ensures
            self.encoded_chunk(chunk).len() == self.emitted(chunk.len()),
            2 <= self.emitted(chunk.len()) <= 4,
            chunk.len() == 5 ==> self.emitted(chunk.len()) == 4,
            forall|i: int|
                0 <= i < self.encoded_chunk(chunk).len() ==> self.accepts(
                    #[trigger] self.encoded_chunk(chunk)[i],
                ),
            forall|i: int|
                0 <= i < self.encoded_chunk(chunk).len() ==> self.encoded_chunk(chunk)[i]
                    == self.group_of(chunk)[i],
            self.emitted(chunk.len()) < 4 ==> self.encoded_chunk(chunk).last() == self.PADDING,
            self.emitted(chunk.len()) < 4 ==> self.emitted(chunk.len()) == chunk.len() + 1,
    {
        let b0 = byte_or_zero(chunk, 0);
        let b1 = byte_or_zero(chunk, 1);
        let b2 = byte_or_zero(chunk, 2);
        let b3 = byte_or_zero(chunk, 3);
        let b4 = byte_or_zero(chunk, 4);
        lemma_pack_bounds(b0, b1, b2, b3, b4);
        self.lemma_values(pack0(b0, b1) as int);
        self.lemma_values(pack1(b1, b2) as int);
        self.lemma_values(pack2(b2, b3) as int);
        self.lemma_values(pack3(b3, b4) as int);
        assert(self.paddings()[1] == self.PADDING_40);
        assert(self.paddings()[2] == self.PADDING_41);
        assert(self.paddings()[3] == self.PADDING_42);
        assert(self.paddings()[4] == self.PADDING_43);
    }

    /// Scalars that the alphabet in force knows leave it in force.
    proof fn lemma_checked_all_known(&self, other: &Version, d: Decoder, g: Seq<char>)
        requires
            forall|i: int| 0 <= i < g.len() ==> self.in_force(other, d).accepts(#[trigger] g[i]),
        ensures
            self.checked_all(other, d, g) == Ok::<Decoder, char>(d),
        decreases g.len(),
    {
        if g.len() > 0 {
            assert(self.in_force(other, d).accepts(g[0]));
            assert forall|i: int| 0 <= i < g.drop_first().len() implies self.in_force(
                other,
                d,
            ).accepts(#[trigger] g.drop_first()[i]) by {
                assert(g.drop_first()[i] == g[i + 1]);
            }
            self.lemma_checked_all_known(other, d, g.drop_first());
        }
    }

    /// Scalars of the fallback alphabet, the first of which the primary
    /// alphabet does not know, put the fallback in force.
    proof fn lemma_checked_all_unknown(&self, other: &Version, g: Seq<char>)
        requires
            g.len() > 0,
            !self.accepts(g[0]),
            forall|i: int| 0 <= i < g.len() ==> other.accepts(#[trigger] g[i]),
        ensures
            self.checked_all(other, Decoder::Primary, g) == Ok::<Decoder, char>(
                Decoder::Fallback,
            ),
    {
        assert(other.accepts(g[0]));
        assert forall|i: int| 0 <= i < g.drop_first().len() implies self.in_force(
            other,
            Decoder::Fallback,
        ).accepts(#[trigger] g.drop_first()[i]) by {
            assert(g.drop_first()[i] == g[i + 1]);
        }
        self.lemma_checked_all_known(other, Decoder::Fallback, g.drop_first());
    }

    /// A decoding reads back what the alphabet `v` has written, if `v` is in
    /// force from the start, or is the fallback and comes into force with
    /// the first scalar.
    proof fn lemma_decoded_encoded(
        &self,
        other: &Version,
        d: Decoder,
        v: &Version,
        bytes: Seq<u8>,
    )
        requires
            v.wf(),
            self.in_force(other, d) == *v || (d == Decoder::Primary && *other == *v && bytes.len()
                > 0 && !self.accepts(v.encoded(bytes)[0])),
        ensures
            self.decoded_from(other, d, v.encoded(bytes), true) == (None::<DecodeError>, bytes),
        decreases bytes.len(),
    {
        if bytes.len() == 0 {
            assert(bytes =~= Seq::<u8>::empty());
        } else {
            let n = if bytes.len() < 5 {
                bytes.len() as int
            } else {
                5
            };
            let chunk = bytes.take(n);
            let left = bytes.skip(n);
            let e = v.encoded_chunk(chunk);
            let s = v.encoded(bytes);
            assert(s == e + v.encoded(left));
            v.lemma_encoded_chunk(chunk);
            assert(s[0] == e[0]);
            if n < 5 {
                assert(left =~= Seq::<u8>::empty());
                assert(v.encoded(left) =~= Seq::<char>::empty());
                assert(s =~= e);
                assert(chunk =~= bytes);
            }
            let g = group_at(s);
            assert(g =~= e);
            let next = if self.in_force(other, d) == *v {
                d
            } else {
                Decoder::Fallback
            };
            if self.in_force(other, d) == *v {
                self.lemma_checked_all_known(other, d, g);
            } else {
                self.lemma_checked_all_unknown(other, g);
            }
            assert(self.checked_all(other, d, g) == Ok::<Decoder, char>(next));
            assert(self.in_force(other, next) == *v);
            if g.len() == 4 {
                assert(s.skip(4) =~= v.encoded(left));
                self.lemma_decoded_encoded(other, next, v, left);
                v.lemma_group_round_trip(chunk, g);
                assert(chunk + left =~= bytes);
            } else {
                assert(g.last() == v.PADDING);
                v.lemma_group_round_trip(chunk, pad_group(g));
            }
        }
    }

    /// Decoding what was encoded gives the input back: for every input and
    /// whatever the other alphabet is, the decoding of the encoded bytes
    /// ends without an error and has written the input.
    pub proof fn lemma_round_trip(&self, other: &Version, bytes: Seq<u8>)
        requires
            self.wf(),
        ensures
            self.decoded(other, encode_utf8(self.encoded(bytes))) == (None::<DecodeError>, bytes),
    {
        lemma_scalars_of_encoded(self.encoded(bytes));
        self.lemma_decoded_encoded(other, Decoder::Primary, self, bytes);
    }

    /// A decoding that starts with another alphabet reads back what this
    /// alphabet has written, if the alphabet it starts with does not know the
    /// first scalar: from there on it goes by this alphabet.
    pub proof fn lemma_cross_version(&self, start: &Version, bytes: Seq<u8>)
        requires
            self.wf(),
            bytes.len() > 0 ==> !start.accepts(self.encoded(bytes)[0]),
        ensures
            start.decoded(self, encode_utf8(self.encoded(bytes))) == (None::<DecodeError>, bytes),
    {
        lemma_scalars_of_encoded(self.encoded(bytes));
        if bytes.len() == 0 {
            assert(bytes =~= Seq::<u8>::empty());
        } else {
            start.lemma_decoded_encoded(self, Decoder::Primary, self, bytes);
        }
    }
}

} // verus!
