use vstd::prelude::*;
use vstd::string::StringSliceAdditionalSpecFns;
use vstd::utf8::*;

verus! {

/// Declares `simdutf8::basic::Utf8Error`, the zero-sized error that the
/// SIMD validator hands back for malformed input.
#[verifier::external_type_specification]
#[verifier::external_body]
pub struct ExSimdUtf8Error(simdutf8::basic::Utf8Error);

/// The error of [`validate_utf8`]: the bytes are not well-formed UTF-8.
#[derive(Clone, Copy, Debug, PartialEq, Eq)]
pub struct InvalidUtf8;

/// Calls `simdutf8::basic::from_utf8`, which checks the bytes with SIMD and
/// reinterprets them as a `&str` when they are well-formed.  Trusted to
/// succeed exactly on well-formed UTF-8 and to return a string whose bytes
/// are the input bytes (the crate documents it as the analogue of
/// `std::str::from_utf8`).
#[verifier::external_body]
fn simd_from_utf8(input: &[u8]) -> (r: Result<&str, simdutf8::basic::Utf8Error>)
    ensures
        r is Ok <==> valid_utf8(input@),
        r matches Ok(s) ==> s.spec_bytes() == input@,
{
    simdutf8::basic::from_utf8(input)
}

/// Checks that `bytes` are well-formed UTF-8 and, if so, views them as text.
pub fn validate_utf8(bytes: &[u8]) -> (r: Result<&str, InvalidUtf8>)
    ensures
        r is Ok <==> valid_utf8(bytes@),
        r matches Ok(s) ==> s.spec_bytes() == bytes@,
{
    match simd_from_utf8(bytes) {
        Ok(s) => Ok(s),
        Err(_) => Err(InvalidUtf8),
    }
}

/// The text to open the editor on for the bytes of a file: the bytes as text
/// when they are well-formed UTF-8, and a notice that the file is
/// unavailable otherwise.
pub fn text_or_invalid_notice(bytes: &[u8]) -> (r: String)
    ensures
        valid_utf8(bytes@) ==> encode_utf8(r@) == bytes@,
        !valid_utf8(bytes@) ==> r@ == "[file unavailable: invalid UTF-8]"@,
{
    match validate_utf8(bytes) {
        Ok(text) => text.to_owned(),
        Err(_) => "[file unavailable: invalid UTF-8]".to_owned(),
    }
}

/// The bytes of any text are well-formed UTF-8 that decodes back to the
/// text, so [`validate_utf8`] accepts them.
pub proof fn lemma_text_bytes_validate(chars: Seq<char>)
    ensures
        valid_utf8(encode_utf8(chars)),
        decode_utf8(encode_utf8(chars)) == chars,
{
    encode_utf8_valid_utf8(chars);
    encode_utf8_decode_utf8(chars);
}

/// The UTF-8 encoding of a concatenation is the concatenation of the encodings.
pub proof fn lemma_encode_concat(a: Seq<char>, b: Seq<char>)
    ensures
        encode_utf8(a + b) == encode_utf8(a) + encode_utf8(b),
    decreases a.len(),
{
    if a.len() == 0 {
        assert(a + b =~= b);
        assert(encode_utf8(a) + encode_utf8(b) =~= encode_utf8(b));
    } else {
        assert((a + b).drop_first() =~= a.drop_first() + b);
        lemma_encode_concat(a.drop_first(), b);
        assert(encode_utf8(a + b) =~= encode_utf8(a) + encode_utf8(b));
    }
}

/// The encoding of a single character is the encoding of its scalar value.
pub proof fn lemma_encode_one(c: char)
    ensures
        encode_utf8(seq![c]) == encode_scalar(c as u32),
{
    reveal_with_fuel(encode_utf8, 2);
    assert(seq![c].drop_first() =~= Seq::<char>::empty());
    assert(encode_scalar(c as u32) + Seq::<u8>::empty() =~= encode_scalar(c as u32));
}

/// The number of bytes in the UTF-8 encoding of a scalar value, read off
/// its magnitude.
pub open spec fn scalar_width(v: u32) -> int {
    if v < 0x80 {
        1
    } else if v < 0x800 {
        2
    } else if v < 0x10000 {
        3
    } else {
        4
    }
}

/// The encoding of a scalar value is `scalar_width` bytes long; its first
/// byte is a leading byte and the rest are continuation bytes.
pub proof fn lemma_scalar_bytes(v: u32)
    requires
        is_scalar(v),
    ensures
        encode_scalar(v).len() == scalar_width(v),
        !is_continuation_byte(encode_scalar(v)[0]),
        forall|j: int| 1 <= j < encode_scalar(v).len() ==> is_continuation_byte(#[trigger] encode_scalar(v)[j]),
{
    if has_width_1_encoding(v) {
        assert(leading_byte_width_1(v) <= 0x7f) by (bit_vector)
            requires
                v <= 0x7f,
        ;
    } else if has_width_2_encoding(v) {
        assert(leading_byte_width_2(v) >= 0xc0) by (bit_vector);
        assert(0x80 <= last_continuation_byte(v) <= 0xbf) by (bit_vector);
    } else if has_width_3_encoding(v) {
        assert(leading_byte_width_3(v) >= 0xe0) by (bit_vector);
        assert(0x80 <= last_continuation_byte(v) <= 0xbf) by (bit_vector);
        assert(0x80 <= second_last_continuation_byte(v) <= 0xbf) by (bit_vector);
    } else {
        assert(leading_byte_width_4(v) >= 0xf0) by (bit_vector);
        assert(0x80 <= last_continuation_byte(v) <= 0xbf) by (bit_vector);
        assert(0x80 <= second_last_continuation_byte(v) <= 0xbf) by (bit_vector);
        assert(0x80 <= third_last_continuation_byte(v) <= 0xbf) by (bit_vector);
    }
}

/// In well-formed UTF-8, the position just after an ASCII byte starts a
/// character (or is the end of the bytes).
pub proof fn lemma_boundary_after_ascii(bytes: Seq<u8>, i: int)
    requires
        valid_utf8(bytes),
        0 <= i < bytes.len(),
        bytes[i] < 0x80,
    ensures
        is_char_boundary(bytes, i + 1),
{
    broadcast use group_utf8_lib;

    if i + 1 == bytes.len() {
        is_char_boundary_start_end_of_seq(bytes);
    } else {
        is_char_boundary_iff_not_is_continuation_byte(bytes, i);
        valid_utf8_split(bytes, i);
        let rest = bytes.subrange(i, bytes.len() as int);
        assert(valid_utf8(rest));
        assert(rest[0] == bytes[i]);
        assert(length_of_first_scalar(rest) == 1);
        let after = pop_first_scalar(rest);
        assert(after =~= bytes.subrange(i + 1, bytes.len() as int));
        assert(valid_utf8(after));
        assert(after.len() > 0);
        assert(valid_first_scalar(after));
        assert(after[0] == bytes[i + 1]);
        is_char_boundary_iff_not_is_continuation_byte(bytes, i + 1);
    }
}

/// A position of well-formed UTF-8 starts a character exactly when it is the
/// end of the bytes or does not hold a continuation byte.
pub proof fn lemma_boundary_iff(bytes: Seq<u8>, i: int)
    requires
        valid_utf8(bytes),
        0 <= i <= bytes.len(),
    ensures
        is_char_boundary(bytes, i) <==> (i == bytes.len() || !is_continuation_byte(bytes[i])),
{
    if i == bytes.len() {
        is_char_boundary_start_end_of_seq(bytes);
    } else {
        is_char_boundary_iff_not_is_continuation_byte(bytes, i);
    }
}

} // verus!
