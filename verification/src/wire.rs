//! The bytes of the two kinds of value a record is made of: an unsigned integer
//! and a text. Both are written and read by postcard; this module states the
//! format and proves that reading undoes writing.

use vstd::prelude::*;
use vstd::utf8::{decode_utf8, encode_utf8, encode_utf8_decode_utf8, encode_utf8_valid_utf8, valid_utf8};

verus! {

/// An unsigned integer on the wire: its base-128 digits, least significant
/// first, each in the low seven bits of one byte. The high bit is set on every
/// byte but the last.
pub open spec fn varint(n: nat) -> Seq<u8>
    decreases n,
{
    if n < 128 {
        seq![n as u8]
    } else {
        seq![(128 + n % 128) as u8] + varint(n / 128)
    }
}

/// Reading an unsigned integer that must not exceed `max` from the front of
/// `bytes`: the value and the number of bytes it took.
///
/// Any byte below 128 ends the integer, so digits of zero at the top are read
/// without complaint. Running out of bytes is `DeserializeUnexpectedEnd`; a
/// digit that would carry the value past `max` is `DeserializeBadVarint`.
pub open spec fn read_varint(bytes: Seq<u8>, max: nat) -> Result<(nat, nat), postcard::Error>
    decreases bytes.len(),
{
    if bytes.len() == 0 {
        Err(postcard::Error::DeserializeUnexpectedEnd)
    } else if bytes[0] < 128 {
        if bytes[0] <= max {
            Ok((bytes[0] as nat, 1))
        } else {
            Err(postcard::Error::DeserializeBadVarint)
        }
    } else if max < 128 {
        Err(postcard::Error::DeserializeBadVarint)
    } else {
        match read_varint(bytes.skip(1), max / 128) {
            Ok((high, taken)) => Ok(((bytes[0] - 128) as nat + 128 * high, taken + 1)),
            Err(e) => Err(e),
        }
    }
}

/// A text on the wire: the length of its UTF-8 form as a varint, then the
/// UTF-8 bytes themselves.
pub open spec fn text_bytes(text: Seq<char>) -> Seq<u8> {
    varint(encode_utf8(text).len()) + encode_utf8(text)
}

/// Whether a text is short enough for its length to be written down.
pub open spec fn fits(text: Seq<char>) -> bool {
    encode_utf8(text).len() <= usize::MAX
}

/// Reading a text from the front of `bytes`: the text and the number of bytes
/// it took.
///
/// The length comes first and fails as `read_varint` does. Fewer bytes left
/// than the length asks for is `DeserializeUnexpectedEnd`; bytes that are not
/// UTF-8 are `DeserializeBadUtf8`.
pub open spec fn read_text(bytes: Seq<u8>) -> Result<(Seq<char>, nat), postcard::Error> {
    match read_varint(bytes, usize::MAX as nat) {
        Err(e) => Err(e),
        Ok((len, taken)) => {
            if bytes.len() - taken < len {
                Err(postcard::Error::DeserializeUnexpectedEnd)
            } else if !valid_utf8(bytes.subrange(taken as int, (taken + len) as int)) {
                Err(postcard::Error::DeserializeBadUtf8)
            } else {
                Ok((decode_utf8(bytes.subrange(taken as int, (taken + len) as int)), taken + len))
            }
        },
    }
}

/// A varint that is read takes at least one byte and no more than there are.
pub proof fn lemma_read_varint_taken(bytes: Seq<u8>, max: nat)
    requires
        read_varint(bytes, max) is Ok,
    ensures
        1 <= read_varint(bytes, max)->Ok_0.1 <= bytes.len(),
    decreases bytes.len(),
{
    if bytes[0] >= 128 {
        lemma_read_varint_taken(bytes.skip(1), max / 128);
    }
}

/// What was read as a varint is read the same whatever is put behind it.
pub proof fn lemma_read_varint_extend(bytes: Seq<u8>, max: nat, more: Seq<u8>)
    requires
        read_varint(bytes, max) is Ok,
    ensures
        read_varint(bytes + more, max) == read_varint(bytes, max),
    decreases bytes.len(),
{
    assert((bytes + more)[0] == bytes[0]);
    if bytes[0] >= 128 {
        assert((bytes + more).skip(1) =~= bytes.skip(1) + more);
        lemma_read_varint_extend(bytes.skip(1), max / 128, more);
    }
}

/// Reading a written integer gives it back and stops where its bytes end.
pub proof fn lemma_read_varint_of_varint(n: nat, max: nat, rest: Seq<u8>)
    requires
        n <= max,
    ensures
        read_varint(varint(n) + rest, max) == Ok::<(nat, nat), postcard::Error>(
            (n, varint(n).len()),
        ),
    decreases n,
{
    let bytes = varint(n) + rest;
    if n < 128 {
        assert(bytes[0] == n as u8);
    } else {
        assert(bytes[0] == (128 + n % 128) as u8);
        assert(bytes.skip(1) =~= varint(n / 128) + rest);
        lemma_read_varint_of_varint(n / 128, max / 128, rest);
    }
}

/// Whether `max` is the largest number of some count of bits: below 128, or
/// 127 more than a multiple of 128 whose quotient is such a number again.
pub open spec fn all_ones(max: nat) -> bool
    decreases max,
{
    if max < 128 {
        max == 0 || max == 1 || max == 3 || max == 7 || max == 15 || max == 31 || max == 63 || max
            == 127
    } else {
        max % 128 == 127 && all_ones(max / 128)
    }
}

/// A varint that is read never exceeds the largest number of its width, so it
/// is a value of the integer type it was read for.
pub proof fn lemma_read_varint_bound(bytes: Seq<u8>, max: nat)
    requires
        all_ones(max),
        read_varint(bytes, max) is Ok,
    ensures
        read_varint(bytes, max)->Ok_0.0 <= max,
    decreases bytes.len(),
{
    if bytes[0] >= 128 {
        lemma_read_varint_bound(bytes.skip(1), max / 128);
    }
}

/// The largest `u32` and the largest `usize` are numbers of all ones.
pub proof fn lemma_widths_all_ones()
    ensures
        all_ones(u32::MAX as nat),
        all_ones(usize::MAX as nat),
{
    reveal_with_fuel(all_ones, 11);
}

/// A text that is read takes at least one byte and no more than there are.
pub proof fn lemma_read_text_taken(bytes: Seq<u8>)
    requires
        read_text(bytes) is Ok,
    ensures
        1 <= read_text(bytes)->Ok_0.1 <= bytes.len(),
{
    lemma_read_varint_taken(bytes, usize::MAX as nat);
}

/// What was read as a text is read the same whatever is put behind it.
pub proof fn lemma_read_text_extend(bytes: Seq<u8>, more: Seq<u8>)
    requires
        read_text(bytes) is Ok,
    ensures
        read_text(bytes + more) == read_text(bytes),
{
    let max = usize::MAX as nat;
    lemma_read_varint_taken(bytes, max);
    lemma_read_varint_extend(bytes, max, more);
    let (len, taken) = read_varint(bytes, max)->Ok_0;
    assert((bytes + more).subrange(taken as int, (taken + len) as int) =~= bytes.subrange(
        taken as int,
        (taken + len) as int,
    ));
}

/// Reading a written text gives it back and stops where its bytes end.
pub proof fn lemma_read_text_of_text(text: Seq<char>, rest: Seq<u8>)
    requires
        fits(text),
    ensures
        read_text(text_bytes(text) + rest) == Ok::<(Seq<char>, nat), postcard::Error>(
            (text, text_bytes(text).len()),
        ),
{
    let body = encode_utf8(text);
    let head = varint(body.len());
    let bytes = text_bytes(text) + rest;
    assert(bytes =~= head + (body + rest));
    lemma_read_varint_of_varint(body.len(), usize::MAX as nat, body + rest);
    assert(bytes.subrange(head.len() as int, (head.len() + body.len()) as int) =~= body);
    encode_utf8_valid_utf8(text);
    encode_utf8_decode_utf8(text);
}

/// A text held in memory fits: a `usize` counts its bytes.
pub fn text_fits(text: &str)
    ensures
        fits(text@),
{
    let bytes = text.as_bytes();
    proof {
        vstd::slice::axiom_spec_len(bytes);
    }
}

/// `postcard::to_stdvec` on a `u32`. It cannot fail, and the bytes are the
/// varint of the number.
#[verifier::external_body]
pub(crate) fn tag_to_bytes(tag: u32) -> (r: Result<Vec<u8>, postcard::Error>)
    ensures
        r is Ok,
        r->Ok_0@ == varint(tag as nat),
{
    postcard::to_stdvec(&tag)
}

/// `postcard::to_stdvec` on a `str`. It cannot fail, and the bytes are the
/// length of the text in bytes as a varint, followed by the text.
#[verifier::external_body]
pub(crate) fn text_to_bytes(text: &str) -> (r: Result<Vec<u8>, postcard::Error>)
    ensures
        r is Ok,
        r->Ok_0@ == text_bytes(text@),
{
    postcard::to_stdvec(text)
}

/// `postcard::take_from_bytes` for a `u32`. Its outcome is that of
/// `read_varint` for the largest `u32`: the number read and what follows its
/// bytes in the buffer, or postcard's error for running out of bytes or for a
/// number that is too large.
#[verifier::external_body]
pub(crate) fn tag_from_bytes<'a>(buf: &'a [u8]) -> (r: Result<(u32, &'a [u8]), postcard::Error>)
    ensures
        match read_varint(buf@, u32::MAX as nat) {
            Ok((tag, taken)) => r is Ok && r->Ok_0.0 == tag && r->Ok_0.1@ == buf@.skip(
                taken as int,
            ),
            Err(e) => r == Err::<(u32, &[u8]), postcard::Error>(e),
        },
{
    postcard::take_from_bytes::<u32>(buf)
}

/// `postcard::take_from_bytes` for a `String`. Its outcome is that of
/// `read_text`: it reads a length as a varint of a `usize`, takes that many
/// bytes and checks that they are UTF-8. It hands back the text and what
/// follows it in the buffer, or postcard's error for the step that failed.
#[verifier::external_body]
pub(crate) fn text_from_bytes<'a>(buf: &'a [u8]) -> (r: Result<
    (String, &'a [u8]),
    postcard::Error,
>)
    ensures
        match read_text(buf@) {
            Ok((text, taken)) => r is Ok && r->Ok_0.0@ == text && r->Ok_0.1@ == buf@.skip(
                taken as int,
            ),
            Err(e) => r == Err::<(String, &[u8]), postcard::Error>(e),
        },
{
    postcard::take_from_bytes::<String>(buf)
}

} // verus!
