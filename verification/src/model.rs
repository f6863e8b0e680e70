//! Mathematical model of the wire format.
//!
//! Everything the parser promises is phrased over the functions in this
//! module.  [`spec_parse`] maps the full sequence of bytes delivered so far
//! (together with the end-of-stream flag) to a three-way outcome: a parsed
//! request, a definite failure, or "incomplete, more bytes are needed".
//! Because the outcome is a function of the delivered bytes alone, the way
//! those bytes were fragmented into chunks cannot influence the result.

use vstd::prelude::*;

verus! {

/// Carriage return, the first byte of a line terminator.
pub const CR: u8 = 13;

/// Line feed, the second byte of a line terminator.
pub const LF: u8 = 10;

/// ASCII space, the token separator of the request line.
pub const SP: u8 = 32;

/// ASCII colon, the separator of a header line.
pub const COLON: u8 = 58;

/// The request methods the parser accepts.  An unmatched token is a parse
/// error; there is no default.
#[derive(Clone, Copy, Debug, PartialEq, Eq, Structural)]
pub enum Method {
    GET,
    POST,
    PUT,
    DELETE,
}

/// The failures a parse can end in.  None is retried internally; the first
/// error encountered is the final outcome of the session.
#[derive(Clone, Copy, Debug, PartialEq, Eq, Structural)]
pub enum Error {
    /// The byte source itself failed.  The parser never produces this kind;
    /// it exists for the caller that drives the source.
    IOError,
    /// A malformed request line: unknown method token, or a missing space or
    /// route.
    SyntaxError,
    /// A header line without a colon, or with an empty name.
    MalformedHeader,
    /// The stream ended before a required line terminator or before the
    /// declared body length was reached.
    TruncatedInput,
    /// A `Content-Length` value that is not a plain decimal number fitting
    /// in `usize`.
    InvalidContentLength,
}

/// A fully parsed request, at the level of the model: the route, the header
/// names and values, and the body are byte sequences as they stood on the
/// wire.
pub ghost struct ReqModel {
    pub method: Method,
    pub route: Seq<u8>,
    pub headers: Map<Seq<u8>, Seq<u8>>,
    pub body: Seq<u8>,
}

/// The three-way outcome of parsing a byte sequence: more bytes are needed,
/// the parse failed, or a request was parsed.
pub ghost enum Outcome {
    Incomplete,
    Failed(Error),
    Parsed(ReqModel),
}

/// True when a CRLF pair sits at index `i` of `s`.
pub open spec fn crlf_at(s: Seq<u8>, i: int) -> bool {
    &&& 0 <= i
    &&& i + 2 <= s.len()
    &&& s[i] == CR
    &&& s[i + 1] == LF
}

/// The index of the first CRLF pair of `s`, if any.
pub open spec fn find_crlf(s: Seq<u8>) -> Option<int>
    decreases s.len(),
{
    if s.len() < 2 {
        None
    } else if s[0] == CR && s[1] == LF {
        Some(0)
    } else {
        match find_crlf(s.subrange(1, s.len() as int)) {
            Some(i) => Some(i + 1),
            None => None,
        }
    }
}

/// What `find_crlf` finds is a CRLF pair, and the first one.
pub proof fn lemma_find_crlf_some(s: Seq<u8>, i: int)
    requires
        find_crlf(s) == Some(i),
    ensures
        crlf_at(s, i),
        forall|j: int| 0 <= j < i ==> !crlf_at(s, j),
    decreases s.len(),
{
    if s.len() < 2 {
    } else if s[0] == CR && s[1] == LF {
    } else {
        let t = s.subrange(1, s.len() as int);
        lemma_find_crlf_some(t, i - 1);
        assert(crlf_at(t, i - 1));
        assert(crlf_at(s, i));
        assert forall|j: int| 0 <= j < i implies !crlf_at(s, j) by {
            if j == 0 {
                assert(!(s[0] == CR && s[1] == LF));
            } else {
                assert(!crlf_at(t, j - 1));
            }
        }
    }
}

/// Where a CRLF pair stands with none before it, `find_crlf` finds it.
pub proof fn lemma_find_crlf_from_parts(s: Seq<u8>, i: int)
    requires
        crlf_at(s, i),
        forall|j: int| 0 <= j < i ==> !crlf_at(s, j),
    ensures
        find_crlf(s) == Some(i),
    decreases s.len(),
{
    if i == 0 {
    } else {
        let t = s.subrange(1, s.len() as int);
        assert(crlf_at(t, i - 1));
        assert forall|j: int| 0 <= j < i - 1 implies !crlf_at(t, j) by {
            assert(!crlf_at(s, j + 1));
        }
        lemma_find_crlf_from_parts(t, i - 1);
        assert(!crlf_at(s, 0));
    }
}

/// Where no CRLF pair stands, `find_crlf` finds none.
pub proof fn lemma_find_crlf_absent(s: Seq<u8>)
    requires
        forall|j: int| !crlf_at(s, j),
    ensures
        find_crlf(s) is None,
    decreases s.len(),
{
    if s.len() < 2 {
    } else {
        assert(!crlf_at(s, 0));
        let t = s.subrange(1, s.len() as int);
        assert forall|j: int| !crlf_at(t, j) by {
            if 0 <= j && j + 2 <= t.len() {
                assert(!crlf_at(s, j + 1));
            }
        }
        lemma_find_crlf_absent(t);
    }
}

/// The index of the first occurrence of byte `b` in `s`, if any.
pub open spec fn find_byte(s: Seq<u8>, b: u8) -> Option<int>
    decreases s.len(),
{
    if s.len() == 0 {
        None
    } else if s[0] == b {
        Some(0)
    } else {
        match find_byte(s.subrange(1, s.len() as int), b) {
            Some(i) => Some(i + 1),
            None => None,
        }
    }
}

/// What `find_byte` finds is an occurrence of `b`, and the first one.
pub proof fn lemma_find_byte_some(s: Seq<u8>, b: u8, i: int)
    requires
        find_byte(s, b) == Some(i),
    ensures
        0 <= i < s.len(),
        s[i] == b,
        forall|j: int| 0 <= j < i ==> s[j] != b,
    decreases s.len(),
{
    if s.len() == 0 {
    } else if s[0] == b {
    } else {
        let t = s.subrange(1, s.len() as int);
        lemma_find_byte_some(t, b, i - 1);
        assert forall|j: int| 0 <= j < i implies s[j] != b by {
            if j > 0 {
                assert(t[j - 1] != b);
            }
        }
    }
}

/// Where `b` stands at `i` with no occurrence before it, `find_byte` finds it.
pub proof fn lemma_find_byte_from_parts(s: Seq<u8>, b: u8, i: int)
    requires
        0 <= i < s.len(),
        s[i] == b,
        forall|j: int| 0 <= j < i ==> s[j] != b,
    ensures
        find_byte(s, b) == Some(i),
    decreases s.len(),
{
    if i == 0 {
    } else {
        let t = s.subrange(1, s.len() as int);
        assert forall|j: int| 0 <= j < i - 1 implies t[j] != b by {
            assert(s[j + 1] != b);
        }
        lemma_find_byte_from_parts(t, b, i - 1);
    }
}

/// Where `b` does not occur, `find_byte` finds none.
pub proof fn lemma_find_byte_absent(s: Seq<u8>, b: u8)
    requires
        forall|j: int| 0 <= j < s.len() ==> s[j] != b,
    ensures
        find_byte(s, b) is None,
    decreases s.len(),
{
    if s.len() == 0 {
    } else {
        let t = s.subrange(1, s.len() as int);
        assert forall|j: int| 0 <= j < t.len() implies t[j] != b by {
            assert(s[j + 1] != b);
        }
        lemma_find_byte_absent(t, b);
    }
}

/// The fixed token of a method, as it stands on the wire.
pub open spec fn method_token(m: Method) -> Seq<u8> {
    match m {
        Method::GET => seq![71u8, 69u8, 84u8],
        Method::POST => seq![80u8, 79u8, 83u8, 84u8],
        Method::PUT => seq![80u8, 85u8, 84u8],
        Method::DELETE => seq![68u8, 69u8, 76u8, 69u8, 84u8, 69u8],
    }
}

/// True when `p` is a prefix of `s`.
pub open spec fn has_prefix(s: Seq<u8>, p: Seq<u8>) -> bool {
    p.len() <= s.len() && s.subrange(0, p.len() as int) == p
}

/// The method whose token begins `line`, checked in the fixed order
/// GET, POST, PUT, DELETE; the first match wins.
pub open spec fn spec_method(line: Seq<u8>) -> Option<Method> {
    if has_prefix(line, method_token(Method::GET)) {
        Some(Method::GET)
    } else if has_prefix(line, method_token(Method::POST)) {
        Some(Method::POST)
    } else if has_prefix(line, method_token(Method::PUT)) {
        Some(Method::PUT)
    } else if has_prefix(line, method_token(Method::DELETE)) {
        Some(Method::DELETE)
    } else {
        None
    }
}

/// The route token: everything up to, but not including, the next space,
/// or the whole rest of the line where no space follows.
pub open spec fn route_of(rest: Seq<u8>) -> Seq<u8> {
    match find_byte(rest, SP) {
        Some(i) => rest.subrange(0, i),
        None => rest,
    }
}

/// The request line `METHOD SP ROUTE [SP version]`: a known method token,
/// exactly one space, then a non-empty route.  The version token after the
/// route is neither required nor validated.
pub open spec fn spec_request_line(line: Seq<u8>) -> Option<(Method, Seq<u8>)> {
    match spec_method(line) {
        Some(m) => {
            let k = method_token(m).len() as int;
            if line.len() > k && line[k] == SP {
                let route = route_of(line.subrange(k + 1, line.len() as int));
                if route.len() > 0 {
                    Some((m, route))
                } else {
                    None
                }
            } else {
                None
            }
        },
        None => None,
    }
}

/// `s` with its leading ASCII spaces removed.
pub open spec fn drop_leading_spaces(s: Seq<u8>) -> Seq<u8>
    decreases s.len(),
{
    if s.len() > 0 && s[0] == SP {
        drop_leading_spaces(s.subrange(1, s.len() as int))
    } else {
        s
    }
}

/// A header line `Key: value`: split at the first colon, the non-empty part
/// before it is the name, and what follows with leading spaces stripped is
/// the value.  A line without a colon, or with nothing before it, is
/// malformed.
pub open spec fn spec_header_line(line: Seq<u8>) -> Option<(Seq<u8>, Seq<u8>)> {
    match find_byte(line, COLON) {
        Some(i) => if i > 0 {
            Some(
                (
                    line.subrange(0, i),
                    drop_leading_spaces(line.subrange(i + 1, line.len() as int)),
                ),
            )
        } else {
            None
        },
        None => None,
    }
}

/// True for an ASCII decimal digit.
pub open spec fn is_digit(b: u8) -> bool {
    48 <= b <= 57
}

/// True when `s` consists of digits only.
pub open spec fn all_digits(s: Seq<u8>) -> bool {
    forall|i: int| 0 <= i < s.len() ==> is_digit(s[i])
}

/// The value of `s` read as a decimal numeral.
pub open spec fn dec_value(s: Seq<u8>) -> int
    decreases s.len(),
{
    if s.len() == 0 {
        0
    } else {
        dec_value(s.drop_last()) * 10 + (s.last() - 48)
    }
}

/// A `Content-Length` value: a non-empty string of digits whose value fits
/// in `usize`.  Anything else is a numeric-format error.
pub open spec fn spec_content_length(s: Seq<u8>) -> Option<int> {
    if s.len() > 0 && all_digits(s) && dec_value(s) <= usize::MAX {
        Some(dec_value(s))
    } else {
        None
    }
}

/// The mapping that a sequence of header lines denotes: later entries for
/// the same name overwrite earlier ones.
pub open spec fn header_map(entries: Seq<(Seq<u8>, Seq<u8>)>) -> Map<Seq<u8>, Seq<u8>>
    decreases entries.len(),
{
    if entries.len() == 0 {
        Map::empty()
    } else {
        header_map(entries.drop_last()).insert(entries.last().0, entries.last().1)
    }
}

/// The bytes of the header name `Content-Length`.
pub open spec fn content_length_key() -> Seq<u8> {
    seq![67u8, 111u8, 110u8, 116u8, 101u8, 110u8, 116u8, 45u8, 76u8, 101u8, 110u8, 103u8, 116u8, 104u8]
}

/// The outcome of the body phase, once the request line and the headers are
/// consumed and `input` is what remains.  Without a `Content-Length` header
/// the body is empty and nothing more is read.  With one, exactly that many
/// bytes are taken once present; bytes beyond the declared length are left
/// unconsumed.
pub open spec fn body_phase(
    m: Method,
    route: Seq<u8>,
    hmap: Map<Seq<u8>, Seq<u8>>,
    input: Seq<u8>,
    ended: bool,
) -> Outcome {
    if !hmap.contains_key(content_length_key()) {
        Outcome::Parsed(ReqModel { method: m, route: route, headers: hmap, body: Seq::empty() })
    } else {
        match spec_content_length(hmap[content_length_key()]) {
            Some(n) => if input.len() >= n {
                Outcome::Parsed(
                    ReqModel { method: m, route: route, headers: hmap, body: input.subrange(0, n) },
                )
            } else if ended {
                Outcome::Failed(Error::TruncatedInput)
            } else {
                Outcome::Incomplete
            },
            None => Outcome::Failed(Error::InvalidContentLength),
        }
    }
}

/// The outcome of the header phase: lines are consumed until an empty line
/// closes the section, a malformed line fails the parse, or the input runs
/// out.
pub open spec fn headers_phase(
    m: Method,
    route: Seq<u8>,
    acc: Seq<(Seq<u8>, Seq<u8>)>,
    input: Seq<u8>,
    ended: bool,
) -> Outcome
    decreases input.len(),
    via headers_phase_decreases
{
    match find_crlf(input) {
        None => if ended {
            Outcome::Failed(Error::TruncatedInput)
        } else {
            Outcome::Incomplete
        },
        Some(i) => {
            let line = input.subrange(0, i);
            let rest = input.subrange(i + 2, input.len() as int);
            if line.len() == 0 {
                body_phase(m, route, header_map(acc), rest, ended)
            } else {
                match spec_header_line(line) {
                    Some(kv) => headers_phase(m, route, acc.push(kv), rest, ended),
                    None => Outcome::Failed(Error::MalformedHeader),
                }
            }
        },
    }
}

#[via_fn]
proof fn headers_phase_decreases(
    m: Method,
    route: Seq<u8>,
    acc: Seq<(Seq<u8>, Seq<u8>)>,
    input: Seq<u8>,
    ended: bool,
) {
    match find_crlf(input) {
        Some(i) => lemma_find_crlf_some(input, i),
        None => {},
    }
}

/// The outcome that the wire format assigns to a delivered byte sequence:
/// a request line, then header lines up to an empty line, then the body.
pub open spec fn spec_parse(input: Seq<u8>, ended: bool) -> Outcome {
    match find_crlf(input) {
        None => if ended {
            Outcome::Failed(Error::TruncatedInput)
        } else {
            Outcome::Incomplete
        },
        Some(i) => {
            let line = input.subrange(0, i);
            let rest = input.subrange(i + 2, input.len() as int);
            match spec_request_line(line) {
                Some((m, route)) => headers_phase(m, route, Seq::empty(), rest, ended),
                None => Outcome::Failed(Error::SyntaxError),
            }
        },
    }
}

/// A complete line followed by its terminator and arbitrary further bytes
/// decomposes back into that line and those bytes.
pub proof fn lemma_line_decomposition(line: Seq<u8>, rest: Seq<u8>)
    requires
        find_crlf(line) is None,
    ensures
        find_crlf(line + seq![CR, LF] + rest) == Some(line.len() as int),
        (line + seq![CR, LF] + rest).subrange(0, line.len() as int) == line,
        (line + seq![CR, LF] + rest).subrange(
            line.len() as int + 2,
            (line + seq![CR, LF] + rest).len() as int,
        ) == rest,
{
    let s = line + seq![CR, LF] + rest;
    let n = line.len() as int;
    lemma_find_crlf_absent_all(line);
    assert(crlf_at(s, n));
    assert forall|j: int| 0 <= j < n implies !crlf_at(s, j) by {
        if j + 2 <= n {
            assert(s[j] == line[j]);
            assert(s[j + 1] == line[j + 1]);
            assert(!crlf_at(line, j));
        } else {
            assert(j == n - 1);
            assert(s[j + 1] == CR);
        }
    }
    lemma_find_crlf_from_parts(s, n);
    assert(s.subrange(0, n) =~= line);
    assert(s.subrange(n + 2, s.len() as int) =~= rest);
}

/// From the absence of a first CRLF to the absence of any CRLF pair.
pub proof fn lemma_find_crlf_absent_all(s: Seq<u8>)
    requires
        find_crlf(s) is None,
    ensures
        forall|j: int| !crlf_at(s, j),
    decreases s.len(),
{
    if s.len() < 2 {
    } else {
        let t = s.subrange(1, s.len() as int);
        lemma_find_crlf_absent_all(t);
        assert forall|j: int| !crlf_at(s, j) by {
            if j >= 1 && j + 2 <= s.len() {
                assert(!crlf_at(t, j - 1));
            }
        }
    }
}

/// How `spec_parse` consumes its first line: parsing `line CRLF rest` reads
/// the request line out of `line` and continues into the header phase on
/// `rest`, for any `rest` and any end-of-stream flag.
pub proof fn lemma_spec_parse_step(line: Seq<u8>, rest: Seq<u8>, ended: bool)
    requires
        find_crlf(line) is None,
    ensures
        spec_parse(line + seq![CR, LF] + rest, ended) == match spec_request_line(line) {
            Some((m, route)) => headers_phase(m, route, Seq::empty(), rest, ended),
            None => Outcome::Failed(Error::SyntaxError),
        },
{
    lemma_line_decomposition(line, rest);
}

/// How the header phase consumes its first line: an empty line closes the
/// section and hands `rest` to the body phase; a header line extends the
/// accumulator; a malformed line fails.
pub proof fn lemma_headers_phase_step(
    m: Method,
    route: Seq<u8>,
    acc: Seq<(Seq<u8>, Seq<u8>)>,
    line: Seq<u8>,
    rest: Seq<u8>,
    ended: bool,
)
    requires
        find_crlf(line) is None,
    ensures
        headers_phase(m, route, acc, line + seq![CR, LF] + rest, ended) == (if line.len() == 0 {
            body_phase(m, route, header_map(acc), rest, ended)
        } else {
            match spec_header_line(line) {
                Some(kv) => headers_phase(m, route, acc.push(kv), rest, ended),
                None => Outcome::Failed(Error::MalformedHeader),
            }
        }),
{
    lemma_line_decomposition(line, rest);
}

/// The header phase never reports `Incomplete` once the stream has ended.
pub proof fn lemma_headers_phase_ended(
    m: Method,
    route: Seq<u8>,
    acc: Seq<(Seq<u8>, Seq<u8>)>,
    input: Seq<u8>,
    ended: bool,
)
    requires
        ended,
    ensures
        headers_phase(m, route, acc, input, ended) != Outcome::Incomplete,
    decreases input.len(),
{
    match find_crlf(input) {
        None => {},
        Some(i) => {
            lemma_find_crlf_some(input, i);
            let line = input.subrange(0, i);
            let rest = input.subrange(i + 2, input.len() as int);
            if line.len() == 0 {
            } else {
                match spec_header_line(line) {
                    Some(kv) => lemma_headers_phase_ended(m, route, acc.push(kv), rest, ended),
                    None => {},
                }
            }
        },
    }
}

} // verus!
