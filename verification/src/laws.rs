//! The guarantees the parser gives, stated over the model.
//!
//! [`HttpStream::parse_request_socket`](crate::request::HttpStream::parse_request_socket)
//! ties the executable parser to [`spec_parse`] on the bytes delivered so
//! far, and [`HttpStream::feed_chunk`](crate::request::HttpStream::feed_chunk)
//! delivers by pure concatenation; the laws here say what `spec_parse`
//! itself guarantees, so together they carry over to every session.

use vstd::prelude::*;

use crate::model::COLON;
use crate::model::CR;
use crate::model::Error;
use crate::model::LF;
use crate::model::Method;
use crate::model::Outcome;
use crate::model::ReqModel;
use crate::model::body_phase;
use crate::model::content_length_key;
use crate::model::find_byte;
use crate::model::find_crlf;
use crate::model::headers_phase;
use crate::model::lemma_headers_phase_step;
use crate::model::lemma_spec_parse_step;
use crate::model::spec_parse;
use crate::model::spec_request_line;

verus! {

/// The bytes that a sequence of chunks delivers, in order.
pub open spec fn concat_chunks(chunks: Seq<Seq<u8>>) -> Seq<u8>
    decreases chunks.len(),
{
    if chunks.len() == 0 {
        Seq::empty()
    } else {
        concat_chunks(chunks.drop_last()) + chunks.last()
    }
}

/// Fragmentation invariance: the outcome of a parse depends only on the
/// bytes delivered, never on how they were cut into chunks.  Two chunkings
/// that concatenate to the same bytes yield the same outcome -- the same
/// request, or the same error.  Feeding a session is concatenation, and the
/// parser's result is `spec_parse` of the concatenation, so a request split
/// at any byte boundary, a CRLF or a header straddling chunks included,
/// parses as in the unfragmented case.
pub proof fn lemma_fragmentation_invariance(a: Seq<Seq<u8>>, b: Seq<Seq<u8>>, ended: bool)
    requires
        concat_chunks(a) == concat_chunks(b),
    ensures
        spec_parse(concat_chunks(a), ended) == spec_parse(concat_chunks(b), ended),
{
}

/// Empty body: a request without a `Content-Length` header has the empty
/// body, whatever bytes follow the header section and whether or not the
/// stream has ended.  In particular the outcome is never `Incomplete`, so
/// the parser does not wait for body bytes that will never arrive.
pub proof fn lemma_no_content_length_empty_body(
    m: Method,
    route: Seq<u8>,
    hmap: Map<Seq<u8>, Seq<u8>>,
    input: Seq<u8>,
    ended: bool,
)
    requires
        !hmap.contains_key(content_length_key()),
    ensures
        body_phase(m, route, hmap, input, ended) == Outcome::Parsed(
            ReqModel { method: m, route: route, headers: hmap, body: Seq::empty() },
        ),
{
}

/// A malformed request line -- an unknown method token, a missing space, or
/// an empty route -- fails the parse with a syntax error: no default is
/// substituted and nothing further is read.
pub proof fn lemma_malformed_request_line_fails(line: Seq<u8>, rest: Seq<u8>, ended: bool)
    requires
        find_crlf(line) is None,
        spec_request_line(line) is None,
    ensures
        spec_parse(line + seq![CR, LF] + rest, ended) == Outcome::Failed(Error::SyntaxError),
{
    lemma_spec_parse_step(line, rest, ended);
}

/// A header line without a colon fails the parse with a malformed-header
/// error, whatever headers came before it and whatever follows.
pub proof fn lemma_header_without_colon_fails(
    m: Method,
    route: Seq<u8>,
    acc: Seq<(Seq<u8>, Seq<u8>)>,
    line: Seq<u8>,
    rest: Seq<u8>,
    ended: bool,
)
    requires
        find_crlf(line) is None,
        line.len() > 0,
        find_byte(line, COLON) is None,
    ensures
        headers_phase(m, route, acc, line + seq![CR, LF] + rest, ended) == Outcome::Failed(
            Error::MalformedHeader,
        ),
{
    lemma_headers_phase_step(m, route, acc, line, rest, ended);
}

/// A stream that ends mid-header -- no complete line remains and the blank
/// terminator line was never seen -- is a truncated-input error, never a
/// successful parse with partial headers.
pub proof fn lemma_truncated_headers_fail(
    m: Method,
    route: Seq<u8>,
    acc: Seq<(Seq<u8>, Seq<u8>)>,
    input: Seq<u8>,
    ended: bool,
)
    requires
        ended,
        find_crlf(input) is None,
    ensures
        headers_phase(m, route, acc, input, ended) == Outcome::Failed(Error::TruncatedInput),
{
}

/// Once the stream has ended, no outcome is `Incomplete`: the parse either
/// succeeds on the buffered bytes or fails as truncated, and never waits for
/// bytes that cannot arrive.
pub proof fn lemma_ended_not_incomplete(input: Seq<u8>, ended: bool)
    requires
        ended,
    ensures
        spec_parse(input, ended) != Outcome::Incomplete,
{
    match find_crlf(input) {
        None => {},
        Some(i) => {
            crate::model::lemma_find_crlf_some(input, i);
            let rest = input.subrange(i + 2, input.len() as int);
            match spec_request_line(input.subrange(0, i)) {
                Some((m, route)) => crate::model::lemma_headers_phase_ended(
                    m,
                    route,
                    Seq::empty(),
                    rest,
                    ended,
                ),
                None => {},
            }
        },
    }
}

} // verus!

