//! Symbols to bytes: four scalars give four 10-bit values, and those up to
//! five bytes. A decoding starts with one alphabet and changes over to the
//! other one at the first scalar that its own alphabet does not know.

use crate::chars::{
    decode_char,
    lemma_scalars_step,
    lemma_scalars_stop,
    scalars,
    string_from_utf8,
};
use crate::emojis::Version;
use crate::error::DecodeError;
use vstd::prelude::*;
use vstd::utf8::*;

verus! {

/// Which of the two alphabets a decoding goes by.
#[derive(Clone, Copy, Debug, PartialEq, Eq, Structural)]
pub enum Decoder {
    /// The alphabet that the decoding was started with.
    Primary,
    /// The other alphabet. There is no way back from it.
    Fallback,
}

/// The five bytes that are spread over four 10-bit values.
pub open spec fn unpack(v0: u16, v1: u16, v2: u16, v3: u16) -> Seq<u8> {
    seq![
        (v0 >> 2) as u8,
        (((v0 & 0x3) << 6) | (v1 >> 4)) as u8,
        (((v1 & 0xf) << 4) | (v2 >> 6)) as u8,
        (((v2 & 0x3f) << 2) | (v3 >> 8)) as u8,
        (v3 & 0xff) as u8,
    ]
}

/// A group that ended early, filled up to four places with the scalar zero.
pub open spec fn pad_group(g: Seq<char>) -> Seq<char> {
    Seq::new(
        4,
        |i: int|
            if i < g.len() {
                g[i]
            } else {
                '\0'
            },
    )
}

/// The scalars of the first group of `s`: the first four, or all where
/// there are fewer.
pub open spec fn group_at(s: Seq<char>) -> Seq<char> {
    if s.len() < 4 {
        s
    } else {
        s.take(4)
    }
}

impl Version {
    /// The 10-bit value that `c` stands for: its index if it is a symbol,
    /// zero if it is none.
    pub open spec fn value_of(&self, c: char) -> u16 {
        match self.index_of_spec(c) {
            Some(i) => i as u16,
            None => 0u16,
        }
    }

    /// The 10-bit value of the last scalar of a group. A numbered padding
    /// carries its number in the two upper bits.
    pub open spec fn last_value_of(&self, c: char) -> u16 {
        if c == self.PADDING_40 {
            0u16
        } else if c == self.PADDING_41 {
            0x100u16
        } else if c == self.PADDING_42 {
            0x200u16
        } else if c == self.PADDING_43 {
            0x300u16
        } else {
            self.value_of(c)
        }
    }

    /// How many bytes a group of four scalars holds, which its first padding
    /// scalar tells.
    pub open spec fn group_len(&self, g: Seq<char>) -> int {
        if g[1] == self.PADDING {
            1
        } else if g[2] == self.PADDING {
            2
        } else if g[3] == self.PADDING {
            3
        } else if g[3] == self.PADDING_40 || g[3] == self.PADDING_41 || g[3] == self.PADDING_42
            || g[3] == self.PADDING_43 {
            4
        } else {
            5
        }
    }

    /// The bytes that a group of four scalars holds.
    pub open spec fn group_bytes(&self, g: Seq<char>) -> Seq<u8> {
        unpack(
            self.value_of(g[0]),
            self.value_of(g[1]),
            self.value_of(g[2]),
            self.last_value_of(g[3]),
        ).take(self.group_len(g))
    }

    /// The alphabet that `d` names, where `self` is the one that the
    /// decoding started with and `other` its sibling.
    pub open spec fn in_force(&self, other: &Version, d: Decoder) -> Version {
        match d {
            Decoder::Primary => *self,
            Decoder::Fallback => *other,
        }
    }

    /// What reading `c` does to the choice of alphabet: the alphabet that the
    /// decoding goes by from `c` on, or `None` where `c` is refused. A scalar
    /// that the primary alphabet does not know moves the decoding to the
    /// fallback, for good.
    pub open spec fn checked(&self, other: &Version, d: Decoder, c: char) -> Option<Decoder> {
        match d {
            Decoder::Primary => if self.accepts(c) {
                Some(Decoder::Primary)
            } else if other.accepts(c) {
                Some(Decoder::Fallback)
            } else {
                None
            },
            Decoder::Fallback => if other.accepts(c) {
                Some(Decoder::Fallback)
            } else {
                None
            },
        }
    }

    /// Reading the scalars of `g` in turn: the alphabet in force behind the
    /// last of them, or the first scalar that is refused.
    pub open spec fn checked_all(&self, other: &Version, d: Decoder, g: Seq<char>) -> Result<
        Decoder,
        char,
    >
        decreases g.len(),
    {
        if g.len() == 0 {
            Ok(d)
        } else {
            match self.checked(other, d, g[0]) {
                None => Err(g[0]),
                Some(next) => self.checked_all(other, next, g.drop_first()),
            }
        }
    }

    /// What decoding the scalars `s` comes to when it starts with `d` in
    /// force: the error that ends it, if one does, and the bytes written
    /// until then. `complete` says that the input ends behind `s`; where it
    /// does not, bytes that are no UTF-8 follow.
    ///
    /// The scalars are read in groups of four. A group is decoded by the
    /// alphabet that is in force behind its last scalar. The input may end
    /// inside a group only behind a padding scalar that is not the first of
    /// the group.
    pub open spec fn decoded_from(
        &self,
        other: &Version,
        d: Decoder,
        s: Seq<char>,
        complete: bool,
    ) -> (Option<DecodeError>, Seq<u8>)
        decreases s.len(),
    {
        if s.len() == 0 {
            (
                if complete {
                    None
                } else {
                    Some(DecodeError::InvalidUtf8)
                },
                Seq::empty(),
            )
        } else {
            let g = group_at(s);
            match self.checked_all(other, d, g) {
                Err(c) => (Some(DecodeError::InvalidCharacter(c)), Seq::empty()),
                Ok(next) => {
                    let v = self.in_force(other, next);
                    if g.len() == 4 {
                        let rest = self.decoded_from(other, next, s.skip(4), complete);
                        (rest.0, v.group_bytes(g) + rest.1)
                    } else if !complete {
                        (Some(DecodeError::InvalidUtf8), Seq::empty())
                    } else if g.len() >= 2 && v.is_padding_spec(g.last()) {
                        (None, v.group_bytes(pad_group(g)))
                    } else {
                        (Some(DecodeError::UnexpectedEof), Seq::empty())
                    }
                },
            }
        }
    }

    /// What decoding the bytes of `source` comes to, with `self` as the
    /// alphabet to start with and `other` as the one to fall back to: the
    /// error that ends it, if one does, and the bytes written until then.
    pub open spec fn decoded(&self, other: &Version, source: Seq<u8>) -> (
        Option<DecodeError>,
        Seq<u8>,
    ) {
        self.decoded_from(other, Decoder::Primary, scalars(source), valid_utf8(source))
    }

    /// Reading a run of scalars is reading its first part and then, with the
    /// alphabet that this left in force, the rest.
    proof fn lemma_checked_all_split(
        &self,
        other: &Version,
        d: Decoder,
        a: Seq<char>,
        b: Seq<char>,
    )
        ensures
            self.checked_all(other, d, a + b) == match self.checked_all(other, d, a) {
                Err(c) => Err(c),
                Ok(next) => self.checked_all(other, next, b),
            },
        decreases a.len(),
    {
        if a.len() == 0 {
            assert(a + b =~= b);
        } else {
            assert((a + b).drop_first() =~= a.drop_first() + b);
            assert((a + b)[0] == a[0]);
            match self.checked(other, d, a[0]) {
                None => {},
                Some(next) => {
                    self.lemma_checked_all_split(other, next, a.drop_first(), b);
                },
            }
        }
    }

    /// Reading a single scalar.
    proof fn lemma_checked_all_one(&self, other: &Version, d: Decoder, c: char)
        ensures
            self.checked_all(other, d, seq![c]) == match self.checked(other, d, c) {
                None => Err::<Decoder, char>(c),
                Some(next) => Ok(next),
            },
    {
        reveal_with_fuel(Version::checked_all, 2);
        assert(seq![c].drop_first() =~= Seq::<char>::empty());
    }

    /// The 10-bit value of a scalar.
    fn value(&self, c: char) -> (v: u16)
        requires
            self.wf(),
        ensures
            v == self.value_of(c),
            v < 1024,
    {
        match self.index_of(c) {
            Some(i) => i as u16,
            None => 0,
        }
    }

    /// Appends the bytes that the group `chars` holds to `destination` and
    /// returns their number.
    pub fn decode_group(&self, chars: &[char; 4], destination: &mut Vec<u8>) -> (n: usize)
        requires
            self.wf(),
        ensures
            final(destination)@ == old(destination)@ + self.group_bytes(chars@),
            n == self.group_bytes(chars@).len(),
            1 <= n <= 5,
    {
        let bits1: u16 = self.value(chars[0]);
        let bits2: u16 = self.value(chars[1]);
        let bits3: u16 = self.value(chars[2]);
        let bits4: u16 = if chars[3] == self.PADDING_40 {
            0
        } else if chars[3] == self.PADDING_41 {
            0x100
        } else if chars[3] == self.PADDING_42 {
            0x200
        } else if chars[3] == self.PADDING_43 {
            0x300
        } else {
            self.value(chars[3])
        };
        let out: [u8; 5] = [
            (bits1 >> 2) as u8,
            (((bits1 & 0x3) << 6) | (bits2 >> 4)) as u8,
            (((bits2 & 0xf) << 4) | (bits3 >> 6)) as u8,
            (((bits3 & 0x3f) << 2) | (bits4 >> 8)) as u8,
            (bits4 & 0xff) as u8,
        ];
        assert(out@ =~= unpack(bits1, bits2, bits3, bits4));
        let count: usize = if chars[1] == self.PADDING {
            1
        } else if chars[2] == self.PADDING {
            2
        } else if chars[3] == self.PADDING {
            3
        } else if chars[3] == self.PADDING_40 || chars[3] == self.PADDING_41 || chars[3]
            == self.PADDING_42 || chars[3] == self.PADDING_43 {
            4
        } else {
            5
        };
        let ghost before = destination@;
        let mut i: usize = 0;
        while i < count
            invariant
                0 <= i <= count <= 5,
                destination@ == before + out@.take(i as int),
            decreases count - i,
        {
            destination.push(out[i]);
            assert(out@.take(i as int).push(out@[i as int]) =~= out@.take(i + 1));
            i += 1;
        }
        count
    }

    /// Decides whether the scalar `c` can be decoded. A scalar that the
    /// alphabet in force knows is passed on. One that the primary alphabet
    /// does not know makes the fallback the alphabet in force, and is passed
    /// on if the fallback knows it. Any other scalar is refused.
    pub fn check_char(&self, other: &Version, decoder: &mut Decoder, c: char) -> (r: Result<
        char,
        DecodeError,
    >)
        requires
            self.wf(),
            other.wf(),
        ensures
            match self.checked(other, *old(decoder), c) {
                Some(next) => r == Ok::<char, DecodeError>(c) && *final(decoder) == next,
                None => r == Err::<char, DecodeError>(DecodeError::InvalidCharacter(c))
                    && *final(decoder) == Decoder::Fallback,
            },
    {
        match *decoder {
            Decoder::Primary => {
                if self.is_valid_alphabet_char(c) {
                    return Ok(c);
                }
                *decoder = Decoder::Fallback;
                if other.is_valid_alphabet_char(c) {
                    return Ok(c);
                }
            },
            Decoder::Fallback => {
                if other.is_valid_alphabet_char(c) {
                    return Ok(c);
                }
            },
        }
        Err(DecodeError::InvalidCharacter(c))
    }

    /// Reads the scalars of the next group, four of them unless the input
    /// ends or stops being UTF-8 before, and passes each one through
    /// [`Version::check_char`]. Returns the group, filled up with the scalar
    /// zero, and the number of scalars read, and moves `pos` behind them.
    fn read_group(
        &self,
        other: &Version,
        source: &[u8],
        pos: &mut usize,
        decoder: &mut Decoder,
    ) -> (r: Result<([char; 4], usize), DecodeError>)
        requires
            self.wf(),
            other.wf(),
            *old(pos) < source.len(),
        ensures
            ({
                let s = scalars(source@.skip(*old(pos) as int));
                let complete = valid_utf8(source@.skip(*old(pos) as int));
                let g = group_at(s);
                match r {
                    Ok((chars, k)) => {
                        &&& 1 <= k <= 4
                        &&& k == g.len()
                        &&& chars@ == pad_group(g)
                        &&& self.checked_all(other, *old(decoder), g) == Ok::<Decoder, char>(
                            *final(decoder),
                        )
                        &&& *old(pos) < *final(pos) <= source.len()
                        &&& k < 4 ==> *final(pos) == source.len()
                        &&& scalars(source@.skip(*final(pos) as int)) == s.skip(k as int)
                        &&& valid_utf8(source@.skip(*final(pos) as int)) == complete
                    },
                    Err(e) => self.decoded_from(other, *old(decoder), s, complete) == (
                        Some(e),
                        Seq::<u8>::empty(),
                    ),
                }
            }),
    {
        let len = source.len();
        let ghost pos0 = *pos;
        let ghost d0 = *decoder;
        let ghost s = scalars(source@.skip(*pos as int));
        let ghost complete = valid_utf8(source@.skip(*pos as int));
        let mut chars: [char; 4] = ['\0';4];
        let mut k: usize = 0;
        assert(chars@.take(0) + s =~= s);
        while k < 4 && *pos < len
            invariant
                0 <= k <= 4,
                pos0 <= *pos <= len == source@.len(),
                k == 0 ==> *pos == pos0,
                k > 0 ==> *pos > pos0,
                pos0 < len,
                pos0 == *old(pos),
                d0 == *old(decoder),
                s == scalars(source@.skip(pos0 as int)),
                complete == valid_utf8(source@.skip(pos0 as int)),
                self.wf(),
                other.wf(),
                s == chars@.take(k as int) + scalars(source@.skip(*pos as int)),
                complete == valid_utf8(source@.skip(*pos as int)),
                self.checked_all(other, d0, chars@.take(k as int)) == Ok::<Decoder, char>(
                    *decoder,
                ),
                forall|i: int| k <= i < 4 ==> chars@[i] == '\0',
            decreases 4 - k,
        {
            let ghost read = chars@.take(k as int);
            let ghost was = *decoder;
            match decode_char(source, *pos) {
                None => {
                    proof {
                        lemma_scalars_stop(source@, *pos as int);
                        assert(s =~= read);
                    }
                    return Err(DecodeError::InvalidUtf8);
                },
                Some((c, n)) => {
                    let ghost tail = scalars(source@.skip(*pos + n));
                    proof {
                        lemma_scalars_step(source@, *pos as int);
                        self.lemma_checked_all_one(other, was, c);
                        assert(s =~= read + (seq![c] + tail));
                    }
                    match self.check_char(other, decoder, c) {
                        Err(e) => {
                            proof {
                                let g = group_at(s);
                                let more = g.skip(k + 1);
                                assert(g =~= read + (seq![c] + more));
                                self.lemma_checked_all_split(other, d0, read, seq![c] + more);
                                self.lemma_checked_all_split(other, was, seq![c], more);
                            }
                            return Err(e);
                        },
                        Ok(c) => {
                            chars[k] = c;
                            proof {
                                self.lemma_checked_all_split(other, d0, read, seq![c]);
                                assert(chars@.take(k + 1) =~= read + seq![c]);
                                assert(s =~= chars@.take(k + 1) + tail);
                            }
                            *pos += n;
                            k += 1;
                        },
                    }
                },
            }
        }
        proof {
            let g = chars@.take(k as int);
            if k < 4 {
                lemma_scalars_stop(source@, *pos as int);
                assert(s =~= g);
                assert(pad_group(g) =~= chars@);
                assert(s.skip(k as int) =~= Seq::<char>::empty());
            } else {
                assert(g =~= chars@);
                assert(s.take(4) =~= chars@);
                assert(pad_group(chars@) =~= chars@);
                assert(s.skip(4) =~= scalars(source@.skip(*pos as int)));
            }
        }
        Ok((chars, k))
    }

    /// Decodes `source`, which holds scalars in UTF-8, and appends the bytes
    /// to `destination`. Returns the number of bytes appended.
    ///
    /// `self` is the alphabet that the decoding starts with, `other` the one
    /// that it falls back to. The groups that were complete before an error
    /// are appended all the same.
    pub fn decode(&self, other: &Version, source: &[u8], destination: &mut Vec<u8>) -> (r: Result<
        usize,
        DecodeError,
    >)
        requires
            self.wf(),
            other.wf(),
        ensures
            final(destination)@ == old(destination)@ + self.decoded(other, source@).1,
            match r {
                Ok(n) => self.decoded(other, source@).0 is None && n == self.decoded(
                    other,
                    source@,
                ).1.len(),
                Err(e) => self.decoded(other, source@).0 == Some(e),
            },
    {
        let len = source.len();
        let start = destination.len();
        let ghost mut done: Seq<u8> = Seq::empty();
        let mut decoder = Decoder::Primary;
        let mut pos: usize = 0;
        assert(source@.skip(0) =~= source@);
        assert(destination@ + done =~= destination@);
        while pos < len
            invariant
                0 <= pos <= len == source@.len(),
                self.wf(),
                other.wf(),
                destination@ == old(destination)@ + done,
                start == old(destination)@.len(),
                ({
                    let rest = self.decoded_from(
                        other,
                        decoder,
                        scalars(source@.skip(pos as int)),
                        valid_utf8(source@.skip(pos as int)),
                    );
                    self.decoded(other, source@) == (rest.0, done + rest.1)
                }),
            decreases len - pos,
        {
            let (chars, k) = match self.read_group(other, source, &mut pos, &mut decoder) {
                Ok(group) => group,
                Err(e) => {
                    assert(done + Seq::<u8>::empty() =~= done);
                    return Err(e);
                },
            };
            let v: &Version = match decoder {
                Decoder::Primary => self,
                Decoder::Fallback => other,
            };
            if k < 4 && !(k >= 2 && v.is_padding(chars[k - 1])) {
                assert(done + Seq::<u8>::empty() =~= done);
                return Err(DecodeError::UnexpectedEof);
            }
            v.decode_group(&chars, destination);
            proof {
                let bytes = v.group_bytes(chars@);
                let rest = self.decoded_from(
                    other,
                    decoder,
                    scalars(source@.skip(pos as int)),
                    valid_utf8(source@.skip(pos as int)),
                );
                assert((done + bytes) + rest.1 =~= done + (bytes + rest.1));
                if k < 4 {
                    lemma_scalars_stop(source@, pos as int);
                    assert(bytes + rest.1 =~= bytes);
                }
                done = done + bytes;
            }
        }
        proof {
            lemma_scalars_stop(source@, pos as int);
            assert(done + Seq::<u8>::empty() =~= done);
        }
        Ok(destination.len() - start)
    }

    /// Decodes `source` into a new vector of bytes.
    pub fn decode_to_vec(&self, other: &Version, source: &[u8]) -> (r: Result<Vec<u8>, DecodeError>)
        requires
            self.wf(),
            other.wf(),
        ensures
            match r {
                Ok(bytes) => self.decoded(other, source@).0 is None && bytes@ == self.decoded(
                    other,
                    source@,
                ).1,
                Err(e) => self.decoded(other, source@).0 == Some(e),
            },
    {
        let mut output: Vec<u8> = Vec::new();
        match self.decode(other, source, &mut output) {
            Ok(_) => {
                assert(Seq::<u8>::empty() + self.decoded(other, source@).1 =~= self.decoded(
                    other,
                    source@,
                ).1);
                Ok(output)
            },
            Err(e) => Err(e),
        }
    }

    /// Decodes `source` into a new string. Beyond what stops `decode`, this
    /// fails where the decoded bytes are not UTF-8.
    pub fn decode_to_string(&self, other: &Version, source: &[u8]) -> (r: Result<
        String,
        DecodeError,
    >)
        requires
            self.wf(),
            other.wf(),
        ensures
            match r {
                Ok(text) => {
                    &&& self.decoded(other, source@).0 is None
                    &&& valid_utf8(self.decoded(other, source@).1)
                    &&& text@ == decode_utf8(self.decoded(other, source@).1)
                },
                Err(e) => match self.decoded(other, source@).0 {
                    Some(stopped) => e == stopped,
                    None => e == DecodeError::InvalidText && !valid_utf8(
                        self.decoded(other, source@).1,
                    ),
                },
            },
    {
        let output = match self.decode_to_vec(other, source) {
            Ok(bytes) => bytes,
            Err(e) => {
                return Err(e);
            },
        };
        match string_from_utf8(output) {
            Some(text) => Ok(text),
            None => Err(DecodeError::InvalidText),
        }
    }
}

} // verus!
