//! Scalars to UTF-8 bytes and back, one scalar at a time.

use vstd::prelude::*;
use vstd::utf8::*;

verus! {

/// `char::from_u32`: the scalar with the given value, where the value is
/// one that a `char` can hold, that is below 0x110000 and no surrogate.
pub assume_specification[ char::from_u32 ](v: u32) -> (r: Option<char>)
    ensures
        r == if is_scalar(v) {
            Some(v as char)
        } else {
            None::<char>
        },
;

/// `String::from_utf8`, with its error left out: the text that the bytes
/// are the UTF-8 form of, or `None` where they are not UTF-8.
#[verifier::external_body]
pub(crate) fn string_from_utf8(bytes: Vec<u8>) -> (r: Option<String>)
    ensures
        r is Some <==> valid_utf8(bytes@),
        r matches Some(text) ==> text@ == decode_utf8(bytes@),
{
    String::from_utf8(bytes).ok()
}

/// The scalars that a reader gets out of `bytes` one after the other until
/// the bytes end or stop being UTF-8.
pub open spec fn scalars(bytes: Seq<u8>) -> Seq<char>
    decreases bytes.len(),
{
    if bytes.len() > 0 && valid_first_scalar(bytes) {
        seq![decode_first_scalar(bytes) as char] + scalars(pop_first_scalar(bytes))
    } else {
        seq![]
    }
}

/// Of bytes that are UTF-8 throughout, the reader gets every scalar.
pub proof fn lemma_scalars_of_valid(bytes: Seq<u8>)
    requires
        valid_utf8(bytes),
    ensures
        scalars(bytes) == decode_utf8(bytes),
    decreases bytes.len(),
{
    if bytes.len() > 0 {
        lemma_scalars_of_valid(pop_first_scalar(bytes));
    }
}

/// The bytes of a text are UTF-8, and reading them gives the text back.
pub proof fn lemma_scalars_of_encoded(text: Seq<char>)
    ensures
        valid_utf8(encode_utf8(text)),
        scalars(encode_utf8(text)) == text,
{
    encode_utf8_valid_utf8(text);
    encode_utf8_decode_utf8(text);
    lemma_scalars_of_valid(encode_utf8(text));
}

/// The bytes of two texts in a row are the bytes of the first and then
/// those of the second.
pub proof fn lemma_encode_concat(a: Seq<char>, b: Seq<char>)
    ensures
        encode_utf8(a + b) == encode_utf8(a) + encode_utf8(b),
    decreases a.len(),
{
    if a.len() == 0 {
        assert(a + b =~= b);
        assert(encode_utf8(a) + encode_utf8(b) =~= encode_utf8(b));
    } else {
        lemma_encode_concat(a.drop_first(), b);
        assert((a + b).drop_first() =~= a.drop_first() + b);
        assert(encode_utf8(a + b) =~= encode_utf8(a) + encode_utf8(b));
    }
}

/// The bytes of a text of one scalar.
pub proof fn lemma_encode_one(c: char)
    ensures
        encode_utf8(seq![c]) == encode_scalar(c as u32),
{
    reveal_with_fuel(encode_utf8, 2);
    assert(seq![c].drop_first() =~= Seq::<char>::empty());
    assert(encode_scalar(c as u32) + Seq::<u8>::empty() =~= encode_scalar(c as u32));
}

/// Reading on after one scalar: what is read from `pos` on is that scalar
/// and then what is read behind it, and the bytes from `pos` on are UTF-8
/// exactly if those behind the scalar are.
pub proof fn lemma_scalars_step(bytes: Seq<u8>, pos: int)
    requires
        0 <= pos < bytes.len(),
        valid_first_scalar(bytes.skip(pos)),
    ensures
        pos + length_of_first_scalar(bytes.skip(pos)) <= bytes.len(),
        scalars(bytes.skip(pos)) == seq![decode_first_scalar(bytes.skip(pos)) as char] + scalars(
            bytes.skip(pos + length_of_first_scalar(bytes.skip(pos))),
        ),
        valid_utf8(bytes.skip(pos)) == valid_utf8(
            bytes.skip(pos + length_of_first_scalar(bytes.skip(pos))),
        ),
{
    let tail = bytes.skip(pos);
    let n = length_of_first_scalar(tail);
    assert(pop_first_scalar(tail) =~= bytes.skip(pos + n));
}

/// Where the bytes end or the next bytes are no scalar, the reader gets
/// nothing more.
pub proof fn lemma_scalars_stop(bytes: Seq<u8>, pos: int)
    requires
        0 <= pos <= bytes.len(),
        pos < bytes.len() ==> !valid_first_scalar(bytes.skip(pos)),
    ensures
        scalars(bytes.skip(pos)) == Seq::<char>::empty(),
        valid_utf8(bytes.skip(pos)) == (pos == bytes.len()),
{
}

/// Reads the scalar that starts at `pos`. Gives the scalar and the number of
/// bytes it takes, or `None` where the bytes at `pos` are not the UTF-8 form
/// of a scalar.
pub fn decode_char(source: &[u8], pos: usize) -> (r: Option<(char, usize)>)
    requires
        pos < source.len(),
    ensures
        r is Some <==> valid_first_scalar(source@.skip(pos as int)),
        r matches Some((c, n)) ==> c == decode_first_scalar(source@.skip(pos as int)) as char && n
            == length_of_first_scalar(source@.skip(pos as int)) && 1 <= n <= 4 && pos + n
            <= source.len(),
{
    let ghost tail = source@.skip(pos as int);
    let left: usize = source.len() - pos;
    let b0: u8 = source[pos];
    assert(tail[0] == b0);
    if b0 < 0x80 {
        let v: u32 = (b0 & 0x7F) as u32;
        assert(v == b0 && v <= 0x7F) by (bit_vector)
            requires
                v == (b0 & 0x7F) as u32,
                b0 < 0x80,
        ;
        return match char::from_u32(v) {
            Some(c) => Some((c, 1)),
            None => None,
        };
    }
    if b0 < 0xC0 || b0 >= 0xF8 {
        return None;
    }
    if left < 2 {
        return None;
    }
    let b1: u8 = source[pos + 1];
    assert(tail[1] == b1);
    if b1 < 0x80 || b1 > 0xBF {
        return None;
    }
    if b0 < 0xE0 {
        let v: u32 = (((b0 & 0x1F) as u32) << 6) | ((b1 & 0x3F) as u32);
        assert(v <= 0x7FF) by (bit_vector)
            requires
                v == (((b0 & 0x1F) as u32) << 6) | ((b1 & 0x3F) as u32),
        ;
        if v < 0x80 {
            return None;
        }
        return match char::from_u32(v) {
            Some(c) => Some((c, 2)),
            None => None,
        };
    }
    if left < 3 {
        return None;
    }
    let b2: u8 = source[pos + 2];
    assert(tail[2] == b2);
    if b2 < 0x80 || b2 > 0xBF {
        return None;
    }
    if b0 < 0xF0 {
        let v: u32 = (((b0 & 0x0F) as u32) << 12) | (((b1 & 0x3F) as u32) << 6) | ((b2
            & 0x3F) as u32);
        assert(v <= 0xFFFF) by (bit_vector)
            requires
                v == (((b0 & 0x0F) as u32) << 12) | (((b1 & 0x3F) as u32) << 6) | ((b2
                    & 0x3F) as u32),
        ;
        if v < 0x800 || (0xD800 <= v && v <= 0xDFFF) {
            return None;
        }
        return match char::from_u32(v) {
            Some(c) => Some((c, 3)),
            None => None,
        };
    }
    if left < 4 {
        return None;
    }
    let b3: u8 = source[pos + 3];
    assert(tail[3] == b3);
    if b3 < 0x80 || b3 > 0xBF {
        return None;
    }
    let v: u32 = (((b0 & 0x07) as u32) << 18) | (((b1 & 0x3F) as u32) << 12) | (((b2
        & 0x3F) as u32) << 6) | ((b3 & 0x3F) as u32);
    if v < 0x10000 || v > 0x10FFFF {
        return None;
    }
    match char::from_u32(v) {
        Some(c) => Some((c, 4)),
        None => None,
    }
}

/// Appends the UTF-8 form of `c` to `destination` and gives the number of
/// bytes that it took.
pub fn encode_char(c: char, destination: &mut Vec<u8>) -> (n: usize)
    ensures
        final(destination)@ == old(destination)@ + encode_scalar(c as u32),
        n == encode_scalar(c as u32).len(),
        1 <= n <= 4,
{
    let v: u32 = c as u32;
    if v <= 0x7F {
        destination.push((v & 0x7F) as u8);
        assert(destination@ =~= old(destination)@ + encode_scalar(v));
        1
    } else if v <= 0x7FF {
        destination.push(0xC0 | ((v >> 6) & 0x1F) as u8);
        destination.push(0x80 | (v & 0x3F) as u8);
        assert(destination@ =~= old(destination)@ + encode_scalar(v));
        2
    } else if v <= 0xFFFF {
        destination.push(0xE0 | ((v >> 12) & 0x0F) as u8);
        destination.push(0x80 | ((v >> 6) & 0x3F) as u8);
        destination.push(0x80 | (v & 0x3F) as u8);
        assert(destination@ =~= old(destination)@ + encode_scalar(v));
        3
    } else {
        destination.push(0xF0 | ((v >> 18) & 0x7) as u8);
        destination.push(0x80 | ((v >> 12) & 0x3F) as u8);
        destination.push(0x80 | ((v >> 6) & 0x3F) as u8);
        destination.push(0x80 | (v & 0x3F) as u8);
        assert(destination@ =~= old(destination)@ + encode_scalar(v));
        4
    }
}

} // verus!
