//! Bytes to symbols: five bytes become four 10-bit values, and each value
//! its symbol.

use crate::chars::{encode_char, lemma_encode_concat, lemma_encode_one, string_from_utf8};
use crate::emojis::Version;
use vstd::prelude::*;
use vstd::slice::slice_subrange;
use vstd::utf8::*;

verus! {

/// The byte at place `i` of a chunk, zero behind its end.
pub open spec fn byte_or_zero(chunk: Seq<u8>, i: int) -> u8 {
    if 0 <= i < chunk.len() {
        chunk[i]
    } else {
        0u8
    }
}

/// The first 10 of the 40 bits of five bytes.
pub open spec fn pack0(b0: u8, b1: u8) -> u16 {
    ((b0 as u16) << 2) | ((b1 as u16) >> 6)
}

/// The second 10 of the 40 bits of five bytes.
pub open spec fn pack1(b1: u8, b2: u8) -> u16 {
    (((b1 as u16) & 0x3f) << 4) | ((b2 as u16) >> 4)
}

/// The third 10 of the 40 bits of five bytes.
pub open spec fn pack2(b2: u8, b3: u8) -> u16 {
    (((b2 as u16) & 0x0f) << 6) | ((b3 as u16) >> 2)
}

/// The last 10 of the 40 bits of five bytes.
pub open spec fn pack3(b3: u8, b4: u8) -> u16 {
    (((b3 as u16) & 0x03) << 8) | (b4 as u16)
}

/// Each of the four values fits in 10 bits.
pub proof fn lemma_pack_bounds(b0: u8, b1: u8, b2: u8, b3: u8, b4: u8)
    ensures
        pack0(b0, b1) < 1024,
        pack1(b1, b2) < 1024,
        pack2(b2, b3) < 1024,
        pack3(b3, b4) < 1024,
        (b3 & 0x03) < 4,
{
    assert(((b0 as u16) << 2) | ((b1 as u16) >> 6) < 1024) by (bit_vector);
    assert((((b1 as u16) & 0x3f) << 4) | ((b2 as u16) >> 4) < 1024) by (bit_vector);
    assert((((b2 as u16) & 0x0f) << 6) | ((b3 as u16) >> 2) < 1024) by (bit_vector);
    assert((((b3 as u16) & 0x03) << 8) | (b4 as u16) < 1024) by (bit_vector);
    assert((b3 & 0x03) < 4) by (bit_vector);
}

impl Version {
    /// The four scalars that stand for a chunk of one to five bytes, with
    /// all of the padding.
    pub open spec fn group_of(&self, chunk: Seq<u8>) -> Seq<char> {
        let b0 = byte_or_zero(chunk, 0);
        let b1 = byte_or_zero(chunk, 1);
        let b2 = byte_or_zero(chunk, 2);
        let b3 = byte_or_zero(chunk, 3);
        let b4 = byte_or_zero(chunk, 4);
        seq![
            self.symbols()[pack0(b0, b1) as int],
            if chunk.len() >= 2 {
                self.symbols()[pack1(b1, b2) as int]
            } else {
                self.PADDING
            },
            if chunk.len() >= 3 {
                self.symbols()[pack2(b2, b3) as int]
            } else {
                self.PADDING
            },
            if chunk.len() >= 5 {
                self.symbols()[pack3(b3, b4) as int]
            } else if chunk.len() == 4 {
                self.paddings()[1 + (b3 & 0x03)]
            } else {
                self.PADDING
            },
        ]
    }

    /// How many scalars are written for a chunk of `n` bytes: version 2
    /// stops behind the first padding scalar, version 1 writes all four.
    pub open spec fn emitted(&self, n: nat) -> nat {
        if self.VERSION_NUMBER == 2 && n < 4 {
            n + 1
        } else {
            4
        }
    }

    /// The scalars written for a chunk of one to five bytes.
    pub open spec fn encoded_chunk(&self, chunk: Seq<u8>) -> Seq<char> {
        self.group_of(chunk).take(self.emitted(chunk.len()) as int)
    }

    /// The scalars written for a whole input: those of its chunks of five
    /// bytes, the last of which may be shorter.
    pub open spec fn encoded(&self, bytes: Seq<u8>) -> Seq<char>
        decreases bytes.len(),
    {
        if bytes.len() == 0 {
            seq![]
        } else {
            let n = if bytes.len() < 5 {
                bytes.len() as int
            } else {
                5
            };
            self.encoded_chunk(bytes.take(n)) + self.encoded(bytes.skip(n))
        }
    }

    /// The symbol of a 10-bit value.
    fn symbol(&self, v: u16) -> (c: char)
        requires
            v < 1024,
        ensures
            c == self.symbols()[v as int],
    {
        self.EMOJIS[v as usize]
    }

    /// Encodes one chunk of one to five bytes and appends the UTF-8 form of
    /// its scalars to `out`. Returns the number of bytes appended.
    pub fn encode_chunk(&self, s: &[u8], out: &mut Vec<u8>) -> (n: usize)
        requires
            self.wf(),
            1 <= s.len() <= 5,
        ensures
            final(out)@ == old(out)@ + encode_utf8(self.encoded_chunk(s@)),
            n == encode_utf8(self.encoded_chunk(s@)).len(),
    {
        let len = s.len();
        let b0: u8 = s[0];
        let b1: u8 = if len > 1 {
            s[1]
        } else {
            0
        };
        let b2: u8 = if len > 2 {
            s[2]
        } else {
            0
        };
        let b3: u8 = if len > 3 {
            s[3]
        } else {
            0
        };
        let b4: u8 = if len > 4 {
            s[4]
        } else {
            0
        };
        proof {
            lemma_pack_bounds(b0, b1, b2, b3, b4);
        }
        let mut chars: [char; 4] = [
            self.symbol(((b0 as u16) << 2) | ((b1 as u16) >> 6)),
            self.PADDING,
            self.PADDING,
            self.PADDING,
        ];
        if len >= 2 {
            chars[1] = self.symbol((((b1 as u16) & 0x3f) << 4) | ((b2 as u16) >> 4));
        }
        if len >= 3 {
            chars[2] = self.symbol((((b2 as u16) & 0x0f) << 6) | ((b3 as u16) >> 2));
        }
        if len == 4 {
            let low: u8 = b3 & 0x03;
            chars[3] =
            if low == 0 {
                self.PADDING_40
            } else if low == 1 {
                self.PADDING_41
            } else if low == 2 {
                self.PADDING_42
            } else {
                self.PADDING_43
            };
        } else if len == 5 {
            chars[3] = self.symbol((((b3 as u16) & 0x03) << 8) | (b4 as u16));
        }
        assert(chars@ =~= self.group_of(s@));
        proof {
            self.lemma_group_padding(s@);
        }

        let ghost group = chars@;
        let ghost before = out@;
        let start = out.len();
        let mut k: usize = 0;
        while k < 4
            invariant_except_break
                k <= self.emitted(s@.len()),
                k < 4 ==> k < self.emitted(s@.len()),
            invariant
                0 <= k <= 4,
                1 <= s@.len() <= 5,
                self.wf(),
                chars@ == group,
                group == self.group_of(s@),
                forall|i: int|
                    0 <= i < 4 ==> (self.is_padding_spec(#[trigger] group[i]) <==> i >= s@.len()
                        || (i == 3 && s@.len() == 4)),
                out@ == before + encode_utf8(group.take(k as int)),
            ensures
                k == self.emitted(s@.len()),
            decreases 4 - k,
        {
            let c = chars[k];
            encode_char(c, out);
            proof {
                lemma_encode_one(c);
                lemma_encode_concat(group.take(k as int), seq![c]);
                assert(group.take(k as int) + seq![c] =~= group.take(k + 1));
                assert(out@ =~= before + encode_utf8(group.take(k + 1)));
            }
            k += 1;
            if self.VERSION_NUMBER == 2 && self.is_padding(c) {
                break;
            }
        }
        out.len() - start
    }

    /// Which places of a group hold padding: those behind the data, and the
    /// last one of a chunk of four bytes.
    proof fn lemma_group_padding(&self, chunk: Seq<u8>)
        requires
            self.wf(),
            1 <= chunk.len() <= 5,
        ensures
            forall|i: int|
                0 <= i < 4 ==> (self.is_padding_spec(#[trigger] self.group_of(chunk)[i]) <==> i
                    >= chunk.len() || (i == 3 && chunk.len() == 4)),
    {
        let b0 = byte_or_zero(chunk, 0);
        let b1 = byte_or_zero(chunk, 1);
        let b2 = byte_or_zero(chunk, 2);
        let b3 = byte_or_zero(chunk, 3);
        let b4 = byte_or_zero(chunk, 4);
        lemma_pack_bounds(b0, b1, b2, b3, b4);
        self.lemma_symbol_is_no_padding(pack0(b0, b1) as int);
        self.lemma_symbol_is_no_padding(pack1(b1, b2) as int);
        self.lemma_symbol_is_no_padding(pack2(b2, b3) as int);
        self.lemma_symbol_is_no_padding(pack3(b3, b4) as int);
    }

    /// No symbol is a padding scalar.
    pub proof fn lemma_symbol_is_no_padding(&self, i: int)
        requires
            self.wf(),
            0 <= i < 1024,
        ensures
            !self.is_padding_spec(self.symbols()[i]),
            self.reverse().contains_key(self.symbols()[i]),
            self.reverse()[self.symbols()[i]] == i,
    {
        let c = self.symbols()[i];
        assert(self.symbols().contains(c));
        assert(self.symbols().to_set().contains(c));
        assert(self.reverse()[self.symbols()[i]] == i);
        assert(c != self.paddings()[0]);
        assert(c != self.paddings()[1]);
        assert(c != self.paddings()[2]);
        assert(c != self.paddings()[3]);
        assert(c != self.paddings()[4]);
    }

    /// Encodes all of `source` and appends the UTF-8 form of the scalars to
    /// `destination`. Returns the number of bytes appended. Every input can
    /// be encoded.
    pub fn encode(&self, source: &[u8], destination: &mut Vec<u8>) -> (n: usize)
        requires
            self.wf(),
        ensures
            final(destination)@ == old(destination)@ + encode_utf8(self.encoded(source@)),
            n == encode_utf8(self.encoded(source@)).len(),
    {
        let len = source.len();
        let ghost before = destination@;
        let ghost mut done: Seq<char> = Seq::empty();
        let start = destination.len();
        let mut pos: usize = 0;
        assert(source@.skip(0) =~= source@);
        assert(before + encode_utf8(done) =~= before);
        while pos < len
            invariant
                0 <= pos <= len == source@.len(),
                self.wf(),
                self.encoded(source@) == done + self.encoded(source@.skip(pos as int)),
                destination@ == before + encode_utf8(done),
            decreases len - pos,
        {
            let n: usize = if len - pos < 5 {
                len - pos
            } else {
                5
            };
            let chunk = slice_subrange(source, pos, pos + n);
            let ghost rest = source@.skip(pos as int);
            proof {
                assert(rest.take(n as int) =~= chunk@);
                assert(rest.skip(n as int) =~= source@.skip(pos + n));
                lemma_encode_concat(done, self.encoded_chunk(chunk@));
            }
            self.encode_chunk(chunk, destination);
            proof {
                done = done + self.encoded_chunk(chunk@);
                assert(self.encoded(source@) =~= done + self.encoded(source@.skip(pos + n)));
                assert(destination@ =~= before + encode_utf8(done));
            }
            pos += n;
        }
        assert(done + Seq::<char>::empty() =~= done);
        destination.len() - start
    }

    /// Encodes all of `source` into a new string.
    pub fn encode_to_string(&self, source: &[u8]) -> (text: String)
        requires
            self.wf(),
        ensures
            text@ == self.encoded(source@),
    {
        let mut output: Vec<u8> = Vec::new();
        self.encode(source, &mut output);
        proof {
            let scalars = self.encoded(source@);
            assert(output@ =~= encode_utf8(scalars));
            encode_utf8_valid_utf8(scalars);
            encode_utf8_decode_utf8(scalars);
        }
        match string_from_utf8(output) {
            Some(text) => text,
            None => unreached(),
        }
    }
}

} // verus!
