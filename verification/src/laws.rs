//! Properties that hold of every input: what the parser promises of the
//! requests it accepts, how it treats bytes beyond a header block, how
//! headers are looked up, how responses declare their length, and how a
//! file's media type is chosen.

use vstd::prelude::*;
use vstd::utf8::{decode_utf8, encode_utf8, valid_utf8};

use crate::request::{
    has_header, header_value, name_matches, parse_head, parse_header_lines, parse_target,
    spec_parse_request, ParseError, ParseOutcome, RequestView, Version, MAX_HEADERS,
    MAX_REQUEST_BYTES,
};
use crate::response::{decimal, response_head, text, Status};
use crate::service::content_type_of;
use crate::scan::{
    first_blank_line_from, header_end, index_of, is_blank_line_at, lemma_first_blank_line_from,
    lemma_index_of, split_on, without_cr,
};
use crate::text::{
    ascii_lower, eq_ignore_ascii_case, is_header_name, is_token_byte, is_safe_path, is_whitespace,
    lemma_boundary_after_ascii, trim, trim_end, trim_start,
};

verus! {

/// A header as the parser keeps it: a token name, and a value with no
/// whitespace at either end.
pub open spec fn is_clean_header(header: (Seq<char>, Seq<char>)) -> bool {
    &&& is_header_name(encode_utf8(header.0))
    &&& header.1.len() > 0 ==> !is_whitespace(header.1[0]) && !is_whitespace(header.1.last())
}

proof fn lemma_trim_start(s: Seq<char>)
    ensures
        trim_start(s).len() > 0 ==> !is_whitespace(trim_start(s)[0]),
    decreases s.len(),
{
    if s.len() > 0 && is_whitespace(s[0]) {
        lemma_trim_start(s.drop_first());
    }
}

proof fn lemma_trim_end(s: Seq<char>)
    ensures
        trim_end(s).len() <= s.len(),
        trim_end(s) == s.take(trim_end(s).len() as int),
        trim_end(s).len() > 0 ==> !is_whitespace(trim_end(s).last()),
    decreases s.len(),
{
    if s.len() > 0 && is_whitespace(s.last()) {
        lemma_trim_end(s.drop_last());
        assert(s.drop_last().take(trim_end(s).len() as int) =~= s.take(trim_end(s).len() as int));
    } else {
        assert(s.take(s.len() as int) =~= s);
    }
}

/// Trimming leaves no whitespace at either end.
pub proof fn lemma_trim(s: Seq<char>)
    ensures
        trim(s).len() > 0 ==> !is_whitespace(trim(s)[0]) && !is_whitespace(trim(s).last()),
{
    lemma_trim_start(s);
    lemma_trim_end(trim_start(s));
    let start = trim_start(s);
    let t = trim_end(start);
    if t.len() > 0 {
        assert(t == start.take(t.len() as int));
        assert(t[0] == start[0]);
    }
}

proof fn lemma_header_lines(lines: Seq<Seq<u8>>, headers: Seq<(Seq<char>, Seq<char>)>)
    requires
        headers.len() <= MAX_HEADERS,
        forall|k: int| 0 <= k < headers.len() ==> is_clean_header(#[trigger] headers[k]),
    ensures
        match parse_header_lines(lines, headers) {
            Ok(all) => all.len() <= MAX_HEADERS && forall|k: int|
                0 <= k < all.len() ==> is_clean_header(#[trigger] all[k]),
            Err(e) => e == ParseError::InvalidHeader || e == ParseError::TooManyHeaders,
        },
    decreases lines.len(),
{
    if lines.len() > 0 {
        let line = without_cr(lines[0]);
        if line.len() == 0 {
            lemma_header_lines(lines.drop_first(), headers);
        } else {
            match index_of(line, 58u8) {
                None => {},
                Some(colon) => {
                    let name = line.take(colon);
                    let value = line.skip(colon + 1);
                    if headers.len() < MAX_HEADERS && valid_utf8(name) && is_header_name(name)
                        && valid_utf8(value) {
                        let h = (decode_utf8(name), trim(decode_utf8(value)));
                        vstd::utf8::decode_utf8_encode_utf8(name);
                        lemma_trim(decode_utf8(value));
                        assert(is_clean_header(h));
                        let more = headers.push(h);
                        assert forall|k: int| 0 <= k < more.len() implies is_clean_header(
                            #[trigger] more[k],
                        ) by {
                            if k < headers.len() {
                                assert(more[k] == headers[k]);
                            }
                        }
                        lemma_header_lines(lines.drop_first(), more);
                    }
                },
            }
        }
    }
}

proof fn lemma_target(target: Seq<u8>)
    ensures
        parse_target(target) matches Ok((path, _)) ==> {
            let bytes = encode_utf8(path);
            &&& bytes.len() > 0
            &&& bytes[0] == 47u8
            &&& !bytes.contains(63u8)
            &&& is_safe_path(bytes)
        },
        parse_target(target) matches Err(e) ==> e == ParseError::InvalidTarget,
{
    if let Ok((path, _)) = parse_target(target) {
        lemma_index_of(target, 63u8);
        let bytes = match index_of(target, 63u8) {
            Some(q) => {
                lemma_boundary_after_ascii(target, q);
                vstd::utf8::valid_utf8_split(target, q);
                target.take(q)
            },
            None => target,
        };
        assert(valid_utf8(bytes));
        vstd::utf8::decode_utf8_encode_utf8(bytes);
        assert(encode_utf8(path) == bytes);
        assert(bytes[0] == target[0]);
        assert(!bytes.contains(63u8));
    }
}

/// Every request that parses completely stays within the configured bounds:
/// its header block is complete and at most `MAX_REQUEST_BYTES` long; its
/// path starts with `/`, holds no `?` (the query is kept apart from it) and
/// has no `..` segment and no NUL; it has at most `MAX_HEADERS` headers, each
/// with a token name and a value without surrounding whitespace; and an
/// HTTP/1.1 request names a host.
pub proof fn lemma_complete_request_is_well_formed(input: Seq<u8>)
    ensures
        spec_parse_request(input) matches ParseOutcome::Complete(r) ==> {
            &&& input.len() <= MAX_REQUEST_BYTES
            &&& header_end(input) is Some
            &&& encode_utf8(r.path).len() > 0
            &&& encode_utf8(r.path)[0] == 47u8
            &&& !encode_utf8(r.path).contains(63u8)
            &&& is_safe_path(encode_utf8(r.path))
            &&& r.headers.len() <= MAX_HEADERS
            &&& forall|k: int| 0 <= k < r.headers.len() ==> is_clean_header(#[trigger] r.headers[k])
            &&& r.version == Version::Http11 ==> has_header(r.headers, text("host"))
        },
{
    if let ParseOutcome::Complete(r) = spec_parse_request(input) {
        let head = input.take(header_end(input)->0);
        let lines = split_on(head, 10u8);
        let fields = split_on(without_cr(lines[0]), 32u8);
        lemma_target(fields[1]);
        lemma_header_lines(lines.drop_first(), seq![]);
    }
}

proof fn lemma_blank_line_in_prefix(s: Seq<u8>, t: Seq<u8>, from: int)
    requires
        0 <= from,
        s.len() <= t.len(),
        t.take(s.len() as int) == s,
        first_blank_line_from(s, from) is Some,
    ensures
        first_blank_line_from(t, from) == first_blank_line_from(s, from),
    decreases s.len() - from,
{
    assert(t[from] == s[from] && t[from + 1] == s[from + 1] && t[from + 2] == s[from + 2] && t[from
        + 3] == s[from + 3]) by {
        assert(t.take(s.len() as int)[from] == t[from]);
        assert(t.take(s.len() as int)[from + 1] == t[from + 1]);
        assert(t.take(s.len() as int)[from + 2] == t[from + 2]);
        assert(t.take(s.len() as int)[from + 3] == t[from + 3]);
    }
    if !is_blank_line_at(s, from) {
        lemma_blank_line_in_prefix(s, t, from + 1);
    }
}

/// Once a header block is complete, the bytes that follow it do not change
/// what the input parses to, as long as the whole stays within
/// `MAX_REQUEST_BYTES`.
pub proof fn lemma_bytes_after_head_are_ignored(input: Seq<u8>, extra: Seq<u8>)
    requires
        header_end(input) is Some,
        input.len() + extra.len() <= MAX_REQUEST_BYTES,
    ensures
        spec_parse_request(input + extra) == spec_parse_request(input),
{
    let whole = input + extra;
    assert(whole.take(input.len() as int) =~= input);
    lemma_blank_line_in_prefix(input, whole, 0);
    let end = header_end(input)->0;
    lemma_first_blank_line_from(input, 0);
    assert(whole.take(end) =~= input.take(end));
}

/// An input is incomplete exactly when it is within `MAX_REQUEST_BYTES` and
/// holds no blank line (CR LF CR LF) yet.
pub proof fn lemma_incomplete_iff_no_blank_line(input: Seq<u8>)
    ensures
        spec_parse_request(input) is Incomplete <==> input.len() <= MAX_REQUEST_BYTES && forall|
            i: int,
        | 0 <= i ==> !is_blank_line_at(input, i),
{
    lemma_first_blank_line_from(input, 0);
    if input.len() <= MAX_REQUEST_BYTES && header_end(input) is Some {
        lemma_head_never_too_large(input.take(header_end(input)->0));
    }
}

proof fn lemma_head_never_too_large(head: Seq<u8>)
    ensures
        parse_head(head) != ParseOutcome::Rejected(ParseError::TooLarge),
        parse_head(head) != ParseOutcome::Incomplete,
{
    let lines = split_on(head, 10u8);
    let fields = split_on(without_cr(lines[0]), 32u8);
    lemma_target(fields[1]);
    lemma_header_lines(lines.drop_first(), seq![]);
}

/// An input is refused as too large exactly when it is longer than
/// `MAX_REQUEST_BYTES`.
pub proof fn lemma_too_large_iff_over_limit(input: Seq<u8>)
    ensures
        spec_parse_request(input) == ParseOutcome::Rejected(ParseError::TooLarge) <==> input.len()
            > MAX_REQUEST_BYTES,
{
    if input.len() <= MAX_REQUEST_BYTES && header_end(input) is Some {
        lemma_head_never_too_large(input.take(header_end(input)->0));
    }
}

/// Header lookup ignores ASCII case: names that differ only in the case of
/// ASCII letters find the same value.
pub proof fn lemma_header_lookup_ignores_case(
    headers: Seq<(Seq<char>, Seq<char>)>,
    a: Seq<u8>,
    b: Seq<u8>,
)
    requires
        eq_ignore_ascii_case(a, b),
    ensures
        header_value(headers, a) == header_value(headers, b),
    decreases headers.len(),
{
    if headers.len() > 0 {
        let name = encode_utf8(headers[0].0);
        assert(name_matches(headers[0], a) <==> name_matches(headers[0], b)) by {
            if name.len() == a.len() {
                assert forall|i: int| 0 <= i < name.len() implies (ascii_lower(name[i])
                    == ascii_lower(a[i]) <==> ascii_lower(name[i]) == ascii_lower(b[i])) by {
                    assert(ascii_lower(a[i]) == ascii_lower(b[i]));
                }
            }
        }
        lemma_header_lookup_ignores_case(headers.drop_first(), a, b);
    }
}

/// The value that ASCII decimal digits denote.
pub open spec fn decimal_value(digits: Seq<u8>) -> int
    decreases digits.len(),
{
    if digits.len() == 0 {
        0
    } else {
        decimal_value(digits.drop_last()) * 10 + (digits.last() - 48)
    }
}

/// The decimal form of a number is a run of digits, without a leading zero
/// unless the number is zero, that reads back as the number.
pub proof fn lemma_decimal_round_trip(n: nat)
    ensures
        decimal(n).len() > 0,
        forall|i: int| 0 <= i < decimal(n).len() ==> 48 <= #[trigger] decimal(n)[i] <= 57,
        decimal(n)[0] == 48u8 ==> n == 0,
        decimal_value(decimal(n)) == n,
    decreases n,
{
    let d = decimal(n);
    if n >= 10 {
        lemma_decimal_round_trip(n / 10);
        assert(d.drop_last() =~= decimal(n / 10));
        assert(d[0] == decimal(n / 10)[0]);
        assert((n / 10) * 10 + n % 10 == n) by (nonlinear_arith);
        assert(d.last() == 48 + n % 10);
        assert(decimal_value(d) == decimal_value(decimal(n / 10)) * 10 + (d.last() - 48));
    } else {
        assert(d.last() == 48 + n);
        assert(d.drop_last() =~= Seq::<u8>::empty());
        assert(decimal_value(d.drop_last()) == 0);
    }
}

/// A HEAD response is the GET response for the same file without its body:
/// the same status line and headers, declaring the same content length.
pub proof fn lemma_head_response_is_get_without_body(
    status: Status,
    content_type: Seq<u8>,
    body: Seq<u8>,
)
    ensures
        (response_head(status, content_type, body.len()) + body).take(
            response_head(status, content_type, body.len()).len() as int,
        ) == response_head(status, content_type, body.len()),
        (response_head(status, content_type, body.len()) + body).skip(
            response_head(status, content_type, body.len()).len() as int,
        ) == body,
{
    let head = response_head(status, content_type, body.len());
    assert((head + body).take(head.len() as int) =~= head);
    assert((head + body).skip(head.len() as int) =~= body);
}

/// A byte with an ASCII capital letter folded to lower case.
pub open spec fn fold_case(b: u8) -> int {
    if 65 <= b <= 90 {
        b + 32
    } else {
        b as int
    }
}

/// `a` is the whole of `b`, up to the case of ASCII letters: same length,
/// and equal byte for byte once letters are folded.
pub open spec fn same_name(a: Seq<u8>, b: Seq<u8>) -> bool {
    &&& a.len() == b.len()
    &&& forall|i: int| 0 <= i < a.len() ==> fold_case(#[trigger] a[i]) == fold_case(b[i])
}

/// Looking up `name` finds the value of the first header whose whole name
/// equals `name` up to ASCII case; when no header's whole name does, it finds
/// nothing. A header whose name merely begins with `name` is no match.
pub proof fn lemma_header_lookup_is_first_whole_name_match(
    headers: Seq<(Seq<char>, Seq<char>)>,
    name: Seq<u8>,
)
    ensures
        match header_value(headers, name) {
            Some(v) => exists|k: int|
                0 <= k < headers.len() && #[trigger] headers[k].1 == v && same_name(
                    encode_utf8(headers[k].0),
                    name,
                ) && forall|j: int|
                    0 <= j < k ==> !same_name(encode_utf8(#[trigger] headers[j].0), name),
            None => forall|k: int|
                0 <= k < headers.len() ==> !same_name(encode_utf8(#[trigger] headers[k].0), name),
        },
    decreases headers.len(),
{
    if headers.len() > 0 {
        let first = encode_utf8(headers[0].0);
        assert(name_matches(headers[0], name) <==> same_name(first, name)) by {
            if first.len() == name.len() {
                assert forall|i: int| 0 <= i < first.len() implies (ascii_lower(first[i])
                    == ascii_lower(name[i]) <==> fold_case(first[i]) == fold_case(name[i])) by {}
            }
        }
        let rest = headers.drop_first();
        lemma_header_lookup_is_first_whole_name_match(rest, name);
        if !name_matches(headers[0], name) {
            match header_value(rest, name) {
                Some(v) => {
                    let k = choose|k: int|
                        0 <= k < rest.len() && #[trigger] rest[k].1 == v && same_name(
                            encode_utf8(rest[k].0),
                            name,
                        ) && forall|j: int|
                            0 <= j < k ==> !same_name(encode_utf8(#[trigger] rest[j].0), name);
                    assert(headers[k + 1] == rest[k]);
                    assert forall|j: int| 0 <= j < k + 1 implies !same_name(
                        encode_utf8(#[trigger] headers[j].0),
                        name,
                    ) by {
                        if j > 0 {
                            assert(headers[j] == rest[j - 1]);
                        }
                    }
                },
                None => {
                    assert forall|k: int| 0 <= k < headers.len() implies !same_name(
                        encode_utf8(#[trigger] headers[k].0),
                        name,
                    ) by {
                        if k > 0 {
                            assert(headers[k] == rest[k - 1]);
                        }
                    }
                },
            }
        } else {
            assert(headers[0].1 == headers[0].1);
        }
    }
}

/// Bytes that are all ASCII are well-formed UTF-8.
proof fn lemma_ascii_is_utf8(bytes: Seq<u8>)
    requires
        forall|i: int| 0 <= i < bytes.len() ==> bytes[i] < 128,
    ensures
        valid_utf8(bytes),
    decreases bytes.len(),
{
    if bytes.len() > 0 {
        let rest = vstd::utf8::pop_first_scalar(bytes);
        assert(rest =~= bytes.skip(1));
        assert forall|i: int| 0 <= i < rest.len() implies rest[i] < 128 by {
            assert(rest[i] == bytes[i + 1]);
        }
        lemma_ascii_is_utf8(rest);
    }
}

/// The first occurrence of `b` is where it occurs with none before it.
proof fn lemma_index_of_at(s: Seq<u8>, b: u8, i: int)
    requires
        0 <= i < s.len(),
        s[i] == b,
        forall|j: int| 0 <= j < i ==> s[j] != b,
    ensures
        index_of(s, b) == Some(i),
{
    lemma_index_of(s, b);
}

/// A header line made of a token name, a colon and any UTF-8 text (that
/// does not end in CR) adds one header: the decoded name, and the trimmed text
/// after the first colon, later colons included. The lines after it are
/// parsed as if it had not been there.
pub proof fn lemma_header_line_splits_at_first_colon(
    name: Seq<u8>,
    value: Seq<u8>,
    rest: Seq<Seq<u8>>,
    headers: Seq<(Seq<char>, Seq<char>)>,
)
    requires
        is_header_name(name),
        valid_utf8(value),
        value.len() > 0 ==> value.last() != 13u8,
        headers.len() < MAX_HEADERS,
    ensures
        parse_header_lines(seq![name + seq![58u8] + value] + rest, headers) == parse_header_lines(
            rest,
            headers.push((decode_utf8(name), trim(decode_utf8(value)))),
        ),
{
    assert forall|i: int| 0 <= i < name.len() implies name[i] < 128 by {
        assert(is_token_byte(name[i]));
    }
    lemma_ascii_is_utf8(name);
    let line = name + seq![58u8] + value;
    let lines = seq![line] + rest;
    assert(lines[0] == line);
    assert(lines.drop_first() =~= rest);
    assert(without_cr(line) == line);
    assert forall|j: int| 0 <= j < name.len() implies line[j] != 58u8 by {
        assert(line[j] == name[j]);
    }
    lemma_index_of_at(line, 58u8, name.len() as int);
    assert(line.take(name.len() as int) =~= name);
    assert(line.skip(name.len() as int + 1) =~= value);
}

/// A request target is given back by its path, followed, when there is a
/// query, by `?` and the query: the query is all the text after the first
/// `?`, and the path holds none.
pub proof fn lemma_target_is_path_then_query(target: Seq<u8>)
    ensures
        parse_target(target) matches Ok((path, query)) ==> {
            &&& !encode_utf8(path).contains(63u8)
            &&& target == encode_utf8(path) + match query {
                Some(q) => seq![63u8] + encode_utf8(q),
                None => Seq::<u8>::empty(),
            }
        },
{
    if let Ok((path, query)) = parse_target(target) {
        lemma_target(target);
        lemma_index_of(target, 63u8);
        match index_of(target, 63u8) {
            Some(q) => {
                lemma_boundary_after_ascii(target, q);
                vstd::utf8::valid_utf8_split(target, q);
                vstd::utf8::valid_utf8_split(target, q + 1);
                vstd::utf8::decode_utf8_encode_utf8(target.take(q));
                vstd::utf8::decode_utf8_encode_utf8(target.skip(q + 1));
                assert(target =~= target.take(q) + seq![63u8] + target.skip(q + 1));
            },
            None => {
                vstd::utf8::decode_utf8_encode_utf8(target);
                assert(target =~= target + Seq::<u8>::empty());
            },
        }
    }
}

/// `path` ends with `ext`.
pub open spec fn path_ends_with(path: Seq<u8>, ext: Seq<u8>) -> bool {
    &&& ext.len() <= path.len()
    &&& path.skip(path.len() - ext.len()) == ext
}

proof fn lemma_extension_bytes()
    ensures
        text(".html") == seq![46u8, 104u8, 116u8, 109u8, 108u8],
        text(".css") == seq![46u8, 99u8, 115u8, 115u8],
        text(".js") == seq![46u8, 106u8, 115u8],
        text(".json") == seq![46u8, 106u8, 115u8, 111u8, 110u8],
{
    reveal_strlit(".html");
    reveal_strlit(".css");
    reveal_strlit(".js");
    reveal_strlit(".json");
    vstd::utf8::is_ascii_chars_encode_utf8(".html"@);
    vstd::utf8::is_ascii_chars_encode_utf8(".css"@);
    vstd::utf8::is_ascii_chars_encode_utf8(".js"@);
    vstd::utf8::is_ascii_chars_encode_utf8(".json"@);
    assert(text(".html") =~= seq![46u8, 104u8, 116u8, 109u8, 108u8]);
    assert(text(".css") =~= seq![46u8, 99u8, 115u8, 115u8]);
    assert(text(".js") =~= seq![46u8, 106u8, 115u8]);
    assert(text(".json") =~= seq![46u8, 106u8, 115u8, 111u8, 110u8]);
}

/// The media type of a file depends only on how its path ends: a path that
/// ends in `.html`, `.css`, `.js` or `.json` gets the matching type, whatever
/// dots come earlier in it, and any other path gets
/// `application/octet-stream`.
pub proof fn lemma_content_type_follows_final_extension(path: Seq<u8>)
    ensures
        path_ends_with(path, text(".html")) ==> content_type_of(path)@
            == "text/html; charset=utf-8"@,
        path_ends_with(path, text(".css")) ==> content_type_of(path)@
            == "text/css; charset=utf-8"@,
        path_ends_with(path, text(".js")) ==> content_type_of(path)@
            == "text/javascript; charset=utf-8"@,
        path_ends_with(path, text(".json")) ==> content_type_of(path)@ == "application/json"@,
        !path_ends_with(path, text(".html")) && !path_ends_with(path, text(".css"))
            && !path_ends_with(path, text(".js")) && !path_ends_with(path, text(".json"))
            ==> content_type_of(path)@ == "application/octet-stream"@,
{
    lemma_extension_bytes();
    let n = path.len() as int;
    if n >= 5 {
        assert(path.skip(n - 5)[4] == path[n - 1]);
    }
    if n >= 4 {
        assert(path.skip(n - 4)[3] == path[n - 1]);
        assert(path.skip(n - 4)[2] == path[n - 2]);
    }
    if n >= 3 {
        assert(path.skip(n - 3)[2] == path[n - 1]);
        assert(path.skip(n - 3)[1] == path[n - 2]);
    }
}

/// `r[i..]` starts with the header label `Content-Length: ` (after its line
/// break), followed by a run of `d` decimal digits that ends at a non-digit
/// and reads as `n`.
pub open spec fn declares_length_at(r: Seq<u8>, i: int, d: int, n: nat) -> bool {
    let label = text("\r\nContent-Length: ");
    let start = i + label.len();
    &&& 0 <= i
    &&& 0 < d
    &&& start + d < r.len()
    &&& r.subrange(i, start) == label
    &&& forall|k: int| start <= k < start + d ==> 48 <= #[trigger] r[k] <= 57
    &&& !(48 <= r[start + d] <= 57)
    &&& decimal_value(r.subrange(start, start + d)) == n
}

/// Every full response declares, in its `Content-Length` header, as a
/// decimal number, the length of the body that ends it, whatever the status,
/// media type and body.
pub proof fn lemma_content_length_is_body_length(
    status: Status,
    content_type: Seq<u8>,
    body: Seq<u8>,
)
    ensures
        ({
            let r = response_head(status, content_type, body.len()) + body;
            &&& r.len() >= body.len()
            &&& r.skip(r.len() - body.len()) == body
            &&& exists|i: int, d: int|
                #![trigger declares_length_at(r, i, d, body.len())]
                i + d < r.len() - body.len() && declares_length_at(r, i, d, body.len())
        }),
{
    let prefix = text("HTTP/1.1 ") + decimal(crate::response::status_code(status) as nat) + text(
        " ",
    ) + text(crate::response::reason_phrase(status));
    let label = text("\r\nContent-Length: ");
    let digits = decimal(body.len());
    let next = text("\r\nContent-Type: ");
    let head = response_head(status, content_type, body.len());
    let r = head + body;
    reveal_strlit("\r\nContent-Type: ");
    vstd::utf8::is_ascii_chars_encode_utf8("\r\nContent-Type: "@);
    assert(next[0] == 13u8);
    lemma_decimal_round_trip(body.len());
    let i = prefix.len() as int;
    let start = i + label.len();
    let d = digits.len() as int;
    let tail = next + content_type + text("\r\nConnection: close\r\n\r\n");
    assert(head =~= prefix + label + digits + tail);
    assert(r =~= prefix + label + digits + tail + body);
    assert(r.subrange(i, start) =~= label);
    assert(r.subrange(start, start + d) =~= digits);
    assert forall|k: int| start <= k < start + d implies 48 <= #[trigger] r[k] <= 57 by {
        assert(r[k] == digits[k - start]);
    }
    assert(r[start + d] == next[0]);
    assert(r.skip(r.len() - body.len()) =~= body);
    assert(declares_length_at(r, i, d, body.len()));
}

/// The request target that a request's path and query give back: the path,
/// then `?` and the query when there is one.
pub open spec fn rebuilt_target(r: RequestView) -> Seq<u8> {
    encode_utf8(r.path) + match r.query {
        Some(q) => seq![63u8] + encode_utf8(q),
        None => Seq::<u8>::empty(),
    }
}

/// For every request that parses completely, its path followed by `?` and its
/// query (when there is one) is exactly the text of the input between the
/// first space of the request line and the second.
pub proof fn lemma_target_stands_in_request_line(input: Seq<u8>)
    ensures
        spec_parse_request(input) matches ParseOutcome::Complete(r) ==> {
            let target = rebuilt_target(r);
            exists|i: int|
                #![trigger input.subrange(i + 1, i + 1 + target.len())]
                0 <= i && i + 1 + target.len() < input.len() && input[i] == 32u8
                    && input.subrange(i + 1, i + 1 + target.len()) == target && input[i + 1
                    + target.len()] == 32u8 && forall|j: int|
                    0 <= j < i ==> input[j] != 32u8 && input[j] != 10u8
        },
{
    if let ParseOutcome::Complete(r) = spec_parse_request(input) {
        let end = header_end(input)->0;
        lemma_first_blank_line_from(input, 0);
        let head = input.take(end);
        crate::scan::lemma_split_on(head, 10u8);
        lemma_index_of(head, 10u8);
        let lines = split_on(head, 10u8);
        let first = lines[0];
        assert(first.len() <= head.len());
        assert forall|k: int| 0 <= k < first.len() implies first[k] == input[k] && first[k]
            != 10u8 by {
            assert(head[k] == input[k]);
        }
        let line = without_cr(first);
        assert forall|k: int| 0 <= k < line.len() implies line[k] == first[k] by {}
        let fields = split_on(line, 32u8);
        crate::scan::lemma_split_on(line, 32u8);
        lemma_index_of(line, 32u8);
        let i1 = index_of(line, 32u8)->0;
        let l2 = line.skip(i1 + 1);
        crate::scan::lemma_split_on(l2, 32u8);
        lemma_index_of(l2, 32u8);
        assert(fields.drop_first() == split_on(l2, 32u8));
        assert(split_on(l2, 32u8).len() == 2);
        let i2 = index_of(l2, 32u8)->0;
        assert(fields[1] == split_on(l2, 32u8)[0]);
        let target = fields[1];
        lemma_target_is_path_then_query(target);
        assert(rebuilt_target(r) == target);
        assert(input[i1] == 32u8);
        assert(input.subrange(i1 + 1, i1 + 1 + target.len()) =~= target) by {
            assert forall|k: int| 0 <= k < target.len() implies input.subrange(
                i1 + 1,
                i1 + 1 + target.len(),
            )[k] == target[k] by {
                assert(target[k] == l2[k]);
                assert(l2[k] == line[i1 + 1 + k]);
            }
        }
        assert(l2[i2] == line[i1 + 1 + i2]);
        assert(input[i1 + 1 + target.len()] == 32u8);
    }
}

} // verus!
