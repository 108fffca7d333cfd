//! Text checks on request fields: UTF-8 decoding, whitespace trimming, ASCII
//! case-insensitive comparison, header-name tokens and path segments.

use vstd::prelude::*;
use vstd::utf8::{decode_utf8, encode_utf8, is_char_boundary, valid_utf8};

use crate::scan::{index_of, lemma_index_of, position, split_on};

verus! {

/// Calls `core::str::from_utf8`, which accepts `bytes` exactly when they
/// are well-formed UTF-8 and then returns a string slice over the same bytes.
#[verifier::external_body]
pub(crate) fn str_from_utf8<'a>(bytes: &'a [u8]) -> (res: Option<&'a str>)
    ensures
        res is Some <==> valid_utf8(bytes@),
        res matches Some(s) ==> encode_utf8(s@) == bytes@,
{
    core::str::from_utf8(bytes).ok()
}

/// A string whose UTF-8 encoding is `bytes` holds the decoding of `bytes`.
pub proof fn lemma_decoded(s: Seq<char>, bytes: Seq<u8>)
    requires
        encode_utf8(s) == bytes,
    ensures
        valid_utf8(bytes),
        decode_utf8(bytes) == s,
{
    vstd::utf8::encode_utf8_valid_utf8(s);
    vstd::utf8::encode_utf8_decode_utf8(s);
}

/// In valid UTF-8, an ASCII byte at a character boundary is a whole
/// character: the next index is a boundary too.
pub proof fn lemma_boundary_after_ascii(bytes: Seq<u8>, i: int)
    requires
        valid_utf8(bytes),
        0 <= i < bytes.len(),
        bytes[i] < 128,
    ensures
        is_char_boundary(bytes, i),
        is_char_boundary(bytes, i + 1),
{
    vstd::utf8::is_char_boundary_iff_not_is_continuation_byte(bytes, i);
    if i + 1 == bytes.len() {
        vstd::utf8::is_char_boundary_start_end_of_seq(bytes);
    } else {
        vstd::utf8::valid_utf8_split(bytes, i);
        let suffix = bytes.subrange(i, bytes.len() as int);
        reveal_with_fuel(valid_utf8, 2);
        assert(vstd::utf8::pop_first_scalar(suffix) =~= suffix.subrange(1, suffix.len() as int));
        assert(suffix[1] == bytes[i + 1]);
        vstd::utf8::is_char_boundary_iff_not_is_continuation_byte(bytes, i + 1);
    }
}

/// `c` has the Unicode `White_Space` property, which is what
/// `char::is_whitespace` tests.
pub open spec fn is_whitespace(c: char) -> bool {
    ||| '\u{9}' <= c <= '\u{d}'
    ||| c == ' '
    ||| c == '\u{85}'
    ||| c == '\u{a0}'
    ||| c == '\u{1680}'
    ||| '\u{2000}' <= c <= '\u{200a}'
    ||| c == '\u{2028}'
    ||| c == '\u{2029}'
    ||| c == '\u{202f}'
    ||| c == '\u{205f}'
    ||| c == '\u{3000}'
}

/// `s` without its leading whitespace.
pub open spec fn trim_start(s: Seq<char>) -> Seq<char>
    decreases s.len(),
{
    if s.len() > 0 && is_whitespace(s[0]) {
        trim_start(s.drop_first())
    } else {
        s
    }
}

/// `s` without its trailing whitespace.
pub open spec fn trim_end(s: Seq<char>) -> Seq<char>
    decreases s.len(),
{
    if s.len() > 0 && is_whitespace(s.last()) {
        trim_end(s.drop_last())
    } else {
        s
    }
}

/// `s` without leading and trailing whitespace.
pub open spec fn trim(s: Seq<char>) -> Seq<char> {
    trim_end(trim_start(s))
}

/// Calls `str::trim`, which returns the subslice of `s` left after removing
/// the leading and the trailing characters that have the `White_Space`
/// property.
#[verifier::external_body]
pub(crate) fn str_trim<'a>(s: &'a str) -> (res: &'a str)
    ensures
        res@ == trim(s@),
{
    s.trim()
}

/// `b` with an ASCII upper-case letter mapped to lower case.
pub open spec fn ascii_lower(b: u8) -> u8 {
    if 65 <= b <= 90 {
        (b + 32) as u8
    } else {
        b
    }
}

/// `a` and `b` are equal once ASCII letters are compared without case,
/// which is how `str::eq_ignore_ascii_case` compares the UTF-8 bytes of two
/// strings.
pub open spec fn eq_ignore_ascii_case(a: Seq<u8>, b: Seq<u8>) -> bool {
    &&& a.len() == b.len()
    &&& forall|i: int| 0 <= i < a.len() ==> ascii_lower(#[trigger] a[i]) == ascii_lower(b[i])
}

/// Compares two byte strings ignoring ASCII case.
pub(crate) fn bytes_eq_ignore_ascii_case(a: &[u8], b: &[u8]) -> (res: bool)
    ensures
        res == eq_ignore_ascii_case(a@, b@),
{
    if a.len() != b.len() {
        return false;
    }
    let mut i: usize = 0;
    while i < a.len()
        invariant
            a@.len() == b@.len(),
            i <= a@.len(),
            forall|j: int| 0 <= j < i ==> ascii_lower(#[trigger] a@[j]) == ascii_lower(b@[j]),
        decreases a.len() - i,
    {
        let x = a[i];
        let y = b[i];
        let lx = if 65 <= x && x <= 90 { x + 32 } else { x };
        let ly = if 65 <= y && y <= 90 { y + 32 } else { y };
        if lx != ly {
            return false;
        }
        i = i + 1;
    }
    true
}

/// `b` may stand in a header field name: an RFC 9110 token character.
pub open spec fn is_token_byte(b: u8) -> bool {
    ||| 48 <= b <= 57
    ||| 65 <= b <= 90
    ||| 97 <= b <= 122
    ||| b == 33u8  // !
    ||| b == 35u8  // #
    ||| b == 36u8  // $
    ||| b == 37u8  // %
    ||| b == 38u8  // &
    ||| b == 39u8  // '
    ||| b == 42u8  // *
    ||| b == 43u8  // +
    ||| b == 45u8  // -
    ||| b == 46u8  // .
    ||| b == 94u8  // ^
    ||| b == 95u8  // _
    ||| b == 96u8  // `
    ||| b == 124u8  // |
    ||| b == 126u8  // ~
}

/// `name` is a non-empty run of token characters.
pub open spec fn is_header_name(name: Seq<u8>) -> bool {
    &&& name.len() > 0
    &&& forall|i: int| 0 <= i < name.len() ==> is_token_byte(#[trigger] name[i])
}

/// Tests whether `name` is a valid header field name.
pub(crate) fn valid_header_name(name: &str) -> (res: bool)
    ensures
        res == is_header_name(encode_utf8(name@)),
{
    let bytes = name.as_bytes();
    if bytes.len() == 0 {
        return false;
    }
    let mut i: usize = 0;
    while i < bytes.len()
        invariant
            bytes@ == encode_utf8(name@),
            i <= bytes@.len(),
            forall|j: int| 0 <= j < i ==> is_token_byte(#[trigger] bytes@[j]),
        decreases bytes.len() - i,
    {
        let b = bytes[i];
        let ok = (48 <= b && b <= 57) || (65 <= b && b <= 90) || (97 <= b && b <= 122) || b == 33
            || b == 35 || b == 36 || b == 37 || b == 38 || b == 39 || b == 42 || b == 43 || b
            == 45 || b == 46 || b == 94 || b == 95 || b == 96 || b == 124 || b == 126;
        if !ok {
            assert(!is_token_byte(bytes@[i as int]));
            return false;
        }
        i = i + 1;
    }
    true
}

/// A path segment that neither climbs to the parent (`..`) nor holds a NUL.
pub open spec fn is_safe_segment(segment: Seq<u8>) -> bool {
    &&& segment != seq![46u8, 46u8]
    &&& !segment.contains(0u8)
}

/// No `/`-separated segment of `path` is `..` or holds a NUL.
pub open spec fn is_safe_path(path: Seq<u8>) -> bool {
    forall|k: int|
        0 <= k < split_on(path, 47u8).len() ==> is_safe_segment(
            #[trigger] split_on(path, 47u8)[k],
        )
}

fn safe_segment(segment: &[u8]) -> (res: bool)
    ensures
        res == is_safe_segment(segment@),
{
    if segment.len() == 2 && segment[0] == 46 && segment[1] == 46 {
        assert(segment@ =~= seq![46u8, 46u8]);
        return false;
    }
    proof {
        lemma_index_of(segment@, 0u8);
    }
    match position(segment, 0) {
        Some(_) => false,
        None => {
            assert(!segment@.contains(0u8));
            true
        },
    }
}

/// Tests whether `path` has no `..` segment and no NUL.
pub(crate) fn safe_path(path: &str) -> (res: bool)
    ensures
        res == is_safe_path(encode_utf8(path@)),
{
    let bytes = path.as_bytes();
    let mut rest: &[u8] = bytes;
    loop
        invariant
            bytes@ == encode_utf8(path@),
            is_safe_path(bytes@) <==> is_safe_path(rest@),
        decreases rest@.len(),
    {
        proof {
            lemma_index_of(rest@, 47u8);
        }
        let ghost pieces = split_on(rest@, 47u8);
        match position(rest, 47) {
            Some(i) => {
                assert(i < rest.len());
                let ghost tail = split_on(rest@.skip(i + 1), 47u8);
                assert(pieces == seq![rest@.take(i as int)] + tail);
                let segment = &rest[0..i];
                assert(segment@ == pieces[0]);
                if !safe_segment(segment) {
                    assert(!is_safe_segment(split_on(rest@, 47u8)[0]));
                    return false;
                }
                let next = &rest[i + 1..rest.len()];
                assert(next@ == rest@.skip(i + 1));
                assert(is_safe_path(rest@) <==> is_safe_path(next@)) by {
                    if is_safe_path(next@) {
                        assert forall|k: int| 0 <= k < pieces.len() implies is_safe_segment(
                            #[trigger] pieces[k],
                        ) by {
                            if k > 0 {
                                assert(pieces[k] == tail[k - 1]);
                            }
                        }
                    }
                    if is_safe_path(rest@) {
                        assert forall|k: int| 0 <= k < tail.len() implies is_safe_segment(
                            #[trigger] tail[k],
                        ) by {
                            assert(pieces[k + 1] == tail[k]);
                        }
                    }
                }
                rest = next;
            },
            None => {
                assert(pieces == seq![rest@]);
                assert(pieces.len() == 1 && pieces[0] == rest@);
                let ok = safe_segment(rest);
                assert(ok == is_safe_segment(split_on(rest@, 47u8)[0]));
                return ok;
            },
        }
    }
}

} // verus!
