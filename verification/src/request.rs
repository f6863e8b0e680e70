//! The parsing session: a receive buffer, an end-of-stream flag, and a
//! strictly sequential state machine over the phases request line, headers,
//! body.
//!
//! The session is fed chunks of arbitrary size by its caller and is driven
//! by [`HttpStream::parse_request_socket`], which returns a three-way
//! result: a complete request, "incomplete, feed more bytes", or a definite
//! error.  Its contract ties the result to [`spec_parse`] applied to all
//! bytes delivered so far, so the outcome depends on those bytes alone and
//! not on how they were fragmented.

use vstd::prelude::*;

use crate::headers::Headers;
use crate::model::COLON;
use crate::model::CR;
use crate::model::Error;
use crate::model::LF;
use crate::model::Method;
use crate::model::Outcome;
use crate::model::ReqModel;
use crate::model::SP;
use crate::model::body_phase;
use crate::model::content_length_key;
use crate::model::crlf_at;
use crate::model::find_crlf;
use crate::model::headers_phase;
use crate::model::lemma_find_byte_some;
use crate::model::lemma_find_crlf_absent;
use crate::model::lemma_find_crlf_some;
use crate::model::lemma_headers_phase_step;
use crate::model::lemma_spec_parse_step;
use crate::model::method_token;
use crate::model::spec_header_line;
use crate::model::spec_method;
use crate::model::spec_parse;
use crate::model::spec_request_line;
use crate::scan::copy_range;
use crate::scan::find_byte_vec;
use crate::scan::find_crlf_vec;
use crate::scan::parse_content_length_vec;
use crate::scan::skip_leading_spaces;
use crate::scan::starts_with_vec;

verus! {

/// What lossy UTF-8 decoding makes of a byte sequence.
pub uninterp spec fn lossy_decode(bytes: Seq<u8>) -> Seq<char>;

/// Relies on String::from_utf8_lossy: the decoding is a function of the
/// bytes alone, each invalid sequence replaced rather than failing, and an
/// empty input decodes to the empty string.
#[verifier::external_body]
fn utf8_lossy(bytes: &Vec<u8>) -> (r: String)
    ensures
        r@ == lossy_decode(bytes@),
        bytes@.len() == 0 ==> r@.len() == 0,
{
    String::from_utf8_lossy(bytes.as_slice()).into_owned()
}

/// The three-way result of a parsing step: done, or more bytes are needed.
/// Errors travel beside it in a `Result`.
pub enum Step<T> {
    Complete(T),
    Incomplete,
}

/// The phase a parsing session is in.  The phases are strictly sequential;
/// `Done` and `Failed` are terminal.
#[derive(Clone, Copy, Debug, PartialEq, Eq, Structural)]
pub enum ParseState {
    AwaitingRequestLine,
    AwaitingHeaders,
    AwaitingBody,
    Done,
    Failed,
}

/// A fully parsed request.  It is constructed whole or not at all; no
/// partial request is ever exposed.
#[derive(Debug)]
pub struct HttpRequest {
    pub method: Method,
    pub route: String,
    pub headers: Headers,
    pub body: String,
}

/// True when `req` is the executable image of the model request `model`:
/// route and body are the lossy decodings of the wire bytes, and the header
/// mapping is the same.
pub open spec fn req_matches(req: HttpRequest, model: ReqModel) -> bool {
    &&& req.method == model.method
    &&& req.route@ == lossy_decode(model.route)
    &&& req.headers.hmap() == model.headers
    &&& req.body@ == lossy_decode(model.body)
}

/// A parsing session: the receive buffer of bytes delivered but not yet
/// consumed, the end-of-stream flag, and the parse state with the pieces
/// parsed so far.
pub struct HttpStream {
    received: Vec<u8>,
    stream_ended: bool,
    state: ParseState,
    method: Method,
    route: Vec<u8>,
    headers: Headers,
    consumed: Ghost<Seq<u8>>,
}

impl HttpStream {
    /// Every byte delivered to the session so far: the consumed prefix
    /// followed by the receive buffer.
    pub closed spec fn delivered(self) -> Seq<u8> {
        self.consumed@ + self.received@
    }

    /// Whether the stream has been marked ended.
    pub closed spec fn ended(self) -> bool {
        self.stream_ended
    }

    /// Whether the session still awaits the request line.
    pub closed spec fn awaiting_request_line(self) -> bool {
        self.state is AwaitingRequestLine
    }

    /// Whether the session is in the header phase.
    pub closed spec fn awaiting_headers(self) -> bool {
        self.state is AwaitingHeaders
    }

    /// Whether the session is in the body phase.
    pub closed spec fn awaiting_body(self) -> bool {
        self.state is AwaitingBody
    }

    /// Whether the session can still make progress: it is neither done nor
    /// failed.
    pub closed spec fn in_progress(self) -> bool {
        self.awaiting_request_line() || self.awaiting_headers() || self.awaiting_body()
    }

    /// Whether the session has produced a request.
    pub closed spec fn is_done(self) -> bool {
        self.state is Done
    }

    /// Whether the session has failed.
    pub closed spec fn is_failed(self) -> bool {
        self.state is Failed
    }

    /// The session invariant: what has been consumed is accounted for, so
    /// that parsing the full delivered sequence from scratch agrees with
    /// continuing from the current phase on the bytes still buffered --
    /// whatever those bytes turn out to be.
    pub closed spec fn wf(self) -> bool {
        match self.state {
            ParseState::AwaitingRequestLine => self.consumed@ == Seq::<u8>::empty(),
            ParseState::AwaitingHeaders => forall|rest: Seq<u8>, e: bool|
                #![trigger spec_parse(self.consumed@ + rest, e)]
                spec_parse(self.consumed@ + rest, e) == headers_phase(
                    self.method,
                    self.route@,
                    self.headers.entries(),
                    rest,
                    e,
                ),
            ParseState::AwaitingBody => forall|rest: Seq<u8>, e: bool|
                #![trigger spec_parse(self.consumed@ + rest, e)]
                spec_parse(self.consumed@ + rest, e) == body_phase(
                    self.method,
                    self.route@,
                    self.headers.hmap(),
                    rest,
                    e,
                ),
            ParseState::Done => true,
            ParseState::Failed => true,
        }
    }

    /// A fresh session: nothing delivered, nothing consumed, stream not
    /// ended, awaiting the request line.
    pub fn new() -> (r: HttpStream)
        ensures
            r.wf(),
            r.delivered() == Seq::<u8>::empty(),
            !r.ended(),
            r.in_progress(),
    {
        let r = HttpStream {
            received: Vec::new(),
            stream_ended: false,
            state: ParseState::AwaitingRequestLine,
            method: Method::GET,
            route: Vec::new(),
            headers: Headers::new(),
            consumed: Ghost(Seq::empty()),
        };
        proof {
            assert(r.delivered() =~= Seq::<u8>::empty());
        }
        r
    }

    /// Appends one chunk of newly read bytes to the tail of the receive
    /// buffer.  The chunk may have any size, including zero; delivery is
    /// pure concatenation.
    pub fn feed_chunk(&mut self, chunk: &[u8])
        requires
            old(self).wf(),
        ensures
            final(self).wf(),
            final(self).delivered() == old(self).delivered() + chunk@,
            final(self).ended() == old(self).ended(),
            final(self).in_progress() == old(self).in_progress(),
            final(self).is_done() == old(self).is_done(),
            final(self).is_failed() == old(self).is_failed(),
    {
        let ghost received0 = self.received@;
        let mut i: usize = 0;
        while i < chunk.len()
            invariant
                i <= chunk@.len(),
                self.received@ == received0 + chunk@.subrange(0, i as int),
                self.stream_ended == old(self).stream_ended,
                self.state == old(self).state,
                self.method == old(self).method,
                self.route == old(self).route,
                self.headers == old(self).headers,
                self.consumed == old(self).consumed,
            decreases chunk@.len() - i,
        {
            self.received.push(chunk[i]);
            i = i + 1;
            proof {
                assert(self.received@ =~= received0 + chunk@.subrange(0, i as int));
            }
        }
        proof {
            assert(self.received@ =~= received0 + chunk@);
            assert(self.delivered() =~= old(self).delivered() + chunk@);
        }
    }

    /// Pulls the next CRLF-terminated line out of the receive buffer: the
    /// line's bytes without their terminator, with line and terminator
    /// drained from the buffer head.  Without a complete line the buffer is
    /// untouched, and the result says whether more bytes can still arrive.
    fn fetch_next_line(&mut self) -> (r: Result<Step<Vec<u8>>, Error>)
        ensures
            final(self).stream_ended == old(self).stream_ended,
            final(self).state == old(self).state,
            final(self).method == old(self).method,
            final(self).route == old(self).route,
            final(self).headers == old(self).headers,
            final(self).delivered() == old(self).delivered(),
            match r {
                Ok(Step::Complete(line)) => {
                    &&& find_crlf(line@) is None
                    &&& old(self).received@ == line@ + seq![CR, LF] + final(self).received@
                    &&& final(self).consumed@ == old(self).consumed@ + line@ + seq![CR, LF]
                },
                Ok(Step::Incomplete) => {
                    &&& final(self).received == old(self).received
                    &&& final(self).consumed == old(self).consumed
                    &&& find_crlf(final(self).received@) is None
                    &&& !final(self).stream_ended
                },
                Err(e) => {
                    &&& e == Error::TruncatedInput
                    &&& final(self).received == old(self).received
                    &&& final(self).consumed == old(self).consumed
                    &&& find_crlf(final(self).received@) is None
                    &&& final(self).stream_ended
                },
            },
    {
        match find_crlf_vec(&self.received) {
            None => {
                if self.stream_ended {
                    Err(Error::TruncatedInput)
                } else {
                    Ok(Step::Incomplete)
                }
            },
            Some(i) => {
                let len = self.received.len();
                proof {
                    lemma_find_crlf_some(self.received@, i as int);
                    assert(i as int + 2 <= len);
                }
                let line = copy_range(&self.received, 0, i);
                let rest = copy_range(&self.received, i + 2, len);
                let ghost rec0 = self.received@;
                self.received = rest;
                self.consumed = Ghost(self.consumed@ + line@ + seq![CR, LF]);
                proof {
                    assert forall|j: int| !crlf_at(line@, j) by {
                        if 0 <= j && j + 2 <= line@.len() {
                            assert(line@[j] == rec0[j]);
                            assert(line@[j + 1] == rec0[j + 1]);
                            assert(!crlf_at(rec0, j));
                        }
                    }
                    lemma_find_crlf_absent(line@);
                    assert(rec0 =~= line@ + seq![CR, LF] + self.received@);
                    assert(self.delivered() =~= old(self).delivered());
                }
                Ok(Step::Complete(line))
            },
        }
    }

    /// Consumes the request line: a known method token, one space, a
    /// non-empty route.  On success the session moves to the header phase;
    /// any deviation is a syntax error.
    fn parse_request_line(&mut self) -> (r: Result<Step<()>, Error>)
        requires
            old(self).wf(),
            old(self).state is AwaitingRequestLine,
        ensures
            final(self).wf(),
            final(self).delivered() == old(self).delivered(),
            final(self).ended() == old(self).ended(),
            match r {
                Ok(Step::Complete(_)) => final(self).state is AwaitingHeaders,
                Ok(Step::Incomplete) => {
                    &&& spec_parse(final(self).delivered(), final(self).ended())
                        == Outcome::Incomplete
                    &&& !final(self).ended()
                    &&& final(self).state is AwaitingRequestLine
                },
                Err(e) => {
                    &&& spec_parse(final(self).delivered(), final(self).ended())
                        == Outcome::Failed(e)
                    &&& !(e is IOError)
                    &&& final(self).state is Failed
                },
            },
    {
        let line = match self.fetch_next_line() {
            Err(e) => {
                self.state = ParseState::Failed;
                proof {
                    assert(self.delivered() =~= self.received@);
                }
                return Err(e);
            },
            Ok(Step::Incomplete) => {
                proof {
                    assert(self.delivered() =~= self.received@);
                }
                return Ok(Step::Incomplete);
            },
            Ok(Step::Complete(l)) => l,
        };
        match parse_request_line_vec(&line) {
            Some((m, route)) => {
                self.method = m;
                self.route = route;
                self.headers = Headers::new();
                self.state = ParseState::AwaitingHeaders;
                proof {
                    assert forall|rest: Seq<u8>, e: bool|
                        #![trigger spec_parse(self.consumed@ + rest, e)]
                        spec_parse(self.consumed@ + rest, e) == headers_phase(
                            self.method,
                            self.route@,
                            self.headers.entries(),
                            rest,
                            e,
                        ) by {
                        assert(self.consumed@ + rest =~= line@ + seq![CR, LF] + rest);
                        lemma_spec_parse_step(line@, rest, e);
                    }
                }
                Ok(Step::Complete(()))
            },
            None => {
                self.state = ParseState::Failed;
                proof {
                    assert(self.delivered() =~= line@ + seq![CR, LF] + self.received@);
                    lemma_spec_parse_step(line@, self.received@, self.stream_ended);
                }
                Err(Error::SyntaxError)
            },
        }
    }

    /// Consumes header lines until an empty line closes the section.  Each
    /// line is split at its first colon into a name and a value with
    /// leading spaces stripped; a later line for the same name overwrites
    /// the earlier value.  A line without a colon, or with an empty name,
    /// is a malformed header.
    pub fn parse_headers(&mut self) -> (r: Result<Step<()>, Error>)
        requires
            old(self).wf(),
            old(self).awaiting_headers(),
        ensures
            final(self).wf(),
            final(self).delivered() == old(self).delivered(),
            final(self).ended() == old(self).ended(),
            match r {
                Ok(Step::Complete(_)) => final(self).awaiting_body(),
                Ok(Step::Incomplete) => {
                    &&& spec_parse(final(self).delivered(), final(self).ended())
                        == Outcome::Incomplete
                    &&& !final(self).ended()
                    &&& final(self).awaiting_headers()
                },
                Err(e) => {
                    &&& spec_parse(final(self).delivered(), final(self).ended())
                        == Outcome::Failed(e)
                    &&& !(e is IOError)
                    &&& final(self).is_failed()
                },
            },
    {
        let ghost delivered0 = self.delivered();
        let ghost ended0 = self.ended();
        loop
            invariant
                self.wf(),
                self.state is AwaitingHeaders,
                self.delivered() == delivered0,
                self.ended() == ended0,
                delivered0 == old(self).delivered(),
                ended0 == old(self).ended(),
            decreases self.received@.len(),
        {
            let ghost c0 = self.consumed@;
            let ghost acc0 = self.headers.entries();
            let line = match self.fetch_next_line() {
                Err(e) => {
                    self.state = ParseState::Failed;
                    proof {
                        assert(spec_parse(c0 + self.received@, self.stream_ended)
                            == headers_phase(
                            self.method,
                            self.route@,
                            acc0,
                            self.received@,
                            self.stream_ended,
                        ));
                        assert(self.delivered() == c0 + self.received@);
                    }
                    return Err(e);
                },
                Ok(Step::Incomplete) => {
                    proof {
                        assert(spec_parse(c0 + self.received@, self.stream_ended)
                            == headers_phase(
                            self.method,
                            self.route@,
                            acc0,
                            self.received@,
                            self.stream_ended,
                        ));
                        assert(self.delivered() == c0 + self.received@);
                    }
                    return Ok(Step::Incomplete);
                },
                Ok(Step::Complete(l)) => l,
            };
            if line.len() == 0 {
                self.state = ParseState::AwaitingBody;
                proof {
                    assert forall|rest: Seq<u8>, e: bool|
                        #![trigger spec_parse(self.consumed@ + rest, e)]
                        spec_parse(self.consumed@ + rest, e) == body_phase(
                            self.method,
                            self.route@,
                            self.headers.hmap(),
                            rest,
                            e,
                        ) by {
                        assert(self.consumed@ + rest =~= c0 + (line@ + seq![CR, LF] + rest));
                        assert(spec_parse(c0 + (line@ + seq![CR, LF] + rest), e)
                            == headers_phase(
                            self.method,
                            self.route@,
                            acc0,
                            line@ + seq![CR, LF] + rest,
                            e,
                        ));
                        lemma_headers_phase_step(
                            self.method,
                            self.route@,
                            acc0,
                            line@,
                            rest,
                            e,
                        );
                    }
                }
                return Ok(Step::Complete(()));
            }
            match parse_header_vec(&line) {
                None => {
                    self.state = ParseState::Failed;
                    proof {
                        assert(self.delivered() =~= c0 + (line@ + seq![CR, LF] + self.received@));
                        assert(spec_parse(c0 + (line@ + seq![CR, LF] + self.received@),
                            self.stream_ended) == headers_phase(
                            self.method,
                            self.route@,
                            acc0,
                            line@ + seq![CR, LF] + self.received@,
                            self.stream_ended,
                        ));
                        lemma_headers_phase_step(
                            self.method,
                            self.route@,
                            acc0,
                            line@,
                            self.received@,
                            self.stream_ended,
                        );
                    }
                    return Err(Error::MalformedHeader);
                },
                Some((name, value)) => {
                    self.headers.insert(name, value);
                    proof {
                        assert forall|rest: Seq<u8>, e: bool|
                            #![trigger spec_parse(self.consumed@ + rest, e)]
                            spec_parse(self.consumed@ + rest, e) == headers_phase(
                                self.method,
                                self.route@,
                                self.headers.entries(),
                                rest,
                                e,
                            ) by {
                            assert(self.consumed@ + rest =~= c0 + (line@ + seq![CR, LF] + rest));
                            assert(spec_parse(c0 + (line@ + seq![CR, LF] + rest), e)
                                == headers_phase(
                                self.method,
                                self.route@,
                                acc0,
                                line@ + seq![CR, LF] + rest,
                                e,
                            ));
                            lemma_headers_phase_step(
                                self.method,
                                self.route@,
                                acc0,
                                line@,
                                rest,
                                e,
                            );
                        }
                    }
                },
            }
        }
    }

    /// Determines the required body length from the `Content-Length` header
    /// (absent means empty) and, once the buffer holds that many bytes,
    /// takes exactly them as the body and assembles the request.  Bytes
    /// beyond the declared length stay in the buffer.  A non-numeric length
    /// is a numeric-format error; a stream that ended short is truncated
    /// input.
    pub fn parse_body(&mut self) -> (r: Result<Step<HttpRequest>, Error>)
        requires
            old(self).wf(),
            old(self).awaiting_body(),
        ensures
            final(self).wf(),
            final(self).delivered() == old(self).delivered(),
            final(self).ended() == old(self).ended(),
            match r {
                Ok(Step::Complete(req)) => {
                    &&& (spec_parse(old(self).delivered(), old(self).ended()) matches
                        Outcome::Parsed(model) && req_matches(req, model) && (model.body.len() == 0
                        ==> req.body@.len() == 0))
                    &&& final(self).is_done()
                },
                Ok(Step::Incomplete) => {
                    &&& spec_parse(final(self).delivered(), final(self).ended())
                        == Outcome::Incomplete
                    &&& !final(self).ended()
                    &&& final(self).awaiting_body()
                },
                Err(e) => {
                    &&& spec_parse(final(self).delivered(), final(self).ended())
                        == Outcome::Failed(e)
                    &&& !(e is IOError)
                    &&& final(self).is_failed()
                },
            },
    {
        let ghost c0 = self.consumed@;
        let ghost rec0 = self.received@;
        let ghost hm0 = self.headers.hmap();
        let ghost m0 = self.method;
        let ghost r0 = self.route@;
        proof {
            assert(spec_parse(c0 + rec0, self.stream_ended) == body_phase(
                m0,
                r0,
                hm0,
                rec0,
                self.stream_ended,
            ));
            assert(self.delivered() == c0 + rec0);
        }
        let key = content_length_key_vec();
        let cl: Option<Option<usize>> = match self.headers.get(&key) {
            Some(v) => Some(parse_content_length_vec(v)),
            None => None,
        };
        match cl {
            None => {
                let empty: Vec<u8> = Vec::new();
                let body = utf8_lossy(&empty);
                let route_s = utf8_lossy(&self.route);
                let mut hs = Headers::new();
                core::mem::swap(&mut hs, &mut self.headers);
                self.state = ParseState::Done;
                let req = HttpRequest {
                    method: self.method,
                    route: route_s,
                    headers: hs,
                    body: body,
                };
                proof {
                    assert(empty@ =~= Seq::<u8>::empty());
                    assert(spec_parse(c0 + rec0, self.stream_ended) == Outcome::Parsed(
                        ReqModel { method: m0, route: r0, headers: hm0, body: Seq::empty() },
                    ));
                }
                Ok(Step::Complete(req))
            },
            Some(None) => {
                self.state = ParseState::Failed;
                Err(Error::InvalidContentLength)
            },
            Some(Some(n)) => {
                if n <= self.received.len() {
                    let len = self.received.len();
                    let body_bytes = copy_range(&self.received, 0, n);
                    let rest = copy_range(&self.received, n, len);
                    self.received = rest;
                    self.consumed = Ghost(self.consumed@ + body_bytes@);
                    let body = utf8_lossy(&body_bytes);
                    let route_s = utf8_lossy(&self.route);
                    let mut hs = Headers::new();
                    core::mem::swap(&mut hs, &mut self.headers);
                    self.state = ParseState::Done;
                    let req = HttpRequest {
                        method: self.method,
                        route: route_s,
                        headers: hs,
                        body: body,
                    };
                    proof {
                        assert(self.delivered() =~= c0 + rec0);
                        assert(spec_parse(c0 + rec0, self.stream_ended) == Outcome::Parsed(
                            ReqModel {
                                method: m0,
                                route: r0,
                                headers: hm0,
                                body: rec0.subrange(0, n as int),
                            },
                        ));
                    }
                    Ok(Step::Complete(req))
                } else if self.stream_ended {
                    self.state = ParseState::Failed;
                    Err(Error::TruncatedInput)
                } else {
                    Ok(Step::Incomplete)
                }
            },
        }
    }

    /// Drives the phases in order -- request line, headers, body -- as far
    /// as the buffered bytes allow.  The result is exactly what the model
    /// assigns to all bytes delivered so far: a complete request, a definite
    /// error, or `Incomplete`, in which case more bytes can still arrive and
    /// the caller should feed the next chunk and call again.
    pub fn parse_request_socket(&mut self) -> (r: Result<Step<HttpRequest>, Error>)
        requires
            old(self).wf(),
            old(self).in_progress(),
        ensures
            final(self).wf(),
            final(self).delivered() == old(self).delivered(),
            final(self).ended() == old(self).ended(),
            match r {
                Ok(Step::Complete(req)) => {
                    &&& (spec_parse(final(self).delivered(), final(self).ended()) matches
                        Outcome::Parsed(model) && req_matches(req, model) && (model.body.len() == 0
                        ==> req.body@.len() == 0))
                    &&& final(self).is_done()
                },
                Ok(Step::Incomplete) => {
                    &&& spec_parse(final(self).delivered(), final(self).ended())
                        == Outcome::Incomplete
                    &&& !final(self).ended()
                    &&& final(self).in_progress()
                },
                Err(e) => {
                    &&& spec_parse(final(self).delivered(), final(self).ended())
                        == Outcome::Failed(e)
                    &&& !(e is IOError)
                    &&& final(self).is_failed()
                },
            },
    {
        let ghost delivered0 = self.delivered();
        let ghost ended0 = self.ended();
        loop
            invariant
                self.wf(),
                self.in_progress(),
                self.delivered() == delivered0,
                self.ended() == ended0,
                delivered0 == old(self).delivered(),
                ended0 == old(self).ended(),
            decreases (if self.awaiting_request_line() {
                2int
            } else if self.awaiting_headers() {
                1int
            } else {
                0int
            }),
        {
            if matches!(self.state, ParseState::AwaitingRequestLine) {
                match self.parse_request_line() {
                    Err(e) => {
                        return Err(e);
                    },
                    Ok(Step::Incomplete) => {
                        return Ok(Step::Incomplete);
                    },
                    Ok(Step::Complete(_)) => {},
                }
            } else if matches!(self.state, ParseState::AwaitingHeaders) {
                match self.parse_headers() {
                    Err(e) => {
                        return Err(e);
                    },
                    Ok(Step::Incomplete) => {
                        return Ok(Step::Incomplete);
                    },
                    Ok(Step::Complete(_)) => {},
                }
            } else {
                match self.parse_body() {
                    Err(e) => {
                        return Err(e);
                    },
                    Ok(Step::Incomplete) => {
                        return Ok(Step::Incomplete);
                    },
                    Ok(Step::Complete(req)) => {
                        return Ok(Step::Complete(req));
                    },
                }
            }
        }
    }

    /// Marks the stream as ended: no byte will arrive after this.
    pub fn mark_ended(&mut self)
        requires
            old(self).wf(),
        ensures
            final(self).wf(),
            final(self).delivered() == old(self).delivered(),
            final(self).ended(),
            final(self).in_progress() == old(self).in_progress(),
            final(self).is_done() == old(self).is_done(),
            final(self).is_failed() == old(self).is_failed(),
    {
        self.stream_ended = true;
    }
}

/// The bytes of a method's fixed token.
fn token_of(m: Method) -> (r: Vec<u8>)
    ensures
        r@ == method_token(m),
{
    let mut v: Vec<u8> = Vec::new();
    match m {
        Method::GET => {
            v.push(71);
            v.push(69);
            v.push(84);
        },
        Method::POST => {
            v.push(80);
            v.push(79);
            v.push(83);
            v.push(84);
        },
        Method::PUT => {
            v.push(80);
            v.push(85);
            v.push(84);
        },
        Method::DELETE => {
            v.push(68);
            v.push(69);
            v.push(76);
            v.push(69);
            v.push(84);
            v.push(69);
        },
    }
    proof {
        assert(v@ =~= method_token(m));
    }
    v
}

/// The method whose token begins `line`, checked in the fixed order
/// GET, POST, PUT, DELETE.
fn match_method(line: &Vec<u8>) -> (r: Option<Method>)
    ensures
        match r {
            Some(m) => spec_method(line@) == Some(m),
            None => spec_method(line@) is None,
        },
{
    let g = token_of(Method::GET);
    if starts_with_vec(line, &g) {
        return Some(Method::GET);
    }
    let p = token_of(Method::POST);
    if starts_with_vec(line, &p) {
        return Some(Method::POST);
    }
    let u = token_of(Method::PUT);
    if starts_with_vec(line, &u) {
        return Some(Method::PUT);
    }
    let d = token_of(Method::DELETE);
    if starts_with_vec(line, &d) {
        return Some(Method::DELETE);
    }
    None
}

/// Splits a request line into method and route, exactly as
/// `spec_request_line` reads it.
fn parse_request_line_vec(line: &Vec<u8>) -> (r: Option<(Method, Vec<u8>)>)
    ensures
        match r {
            Some(p) => spec_request_line(line@) == Some((p.0, p.1@)),
            None => spec_request_line(line@) is None,
        },
{
    match match_method(line) {
        None => None,
        Some(m) => {
            let tok = token_of(m);
            let k = tok.len();
            if line.len() > k && line[k] == SP {
                let tail = copy_range(line, k + 1, line.len());
                let route = match find_byte_vec(&tail, SP) {
                    Some(i) => {
                        proof {
                            lemma_find_byte_some(tail@, SP, i as int);
                        }
                        copy_range(&tail, 0, i)
                    },
                    None => tail,
                };
                if route.len() > 0 {
                    Some((m, route))
                } else {
                    None
                }
            } else {
                None
            }
        },
    }
}

/// Splits a header line into name and value, exactly as `spec_header_line`
/// reads it.
fn parse_header_vec(line: &Vec<u8>) -> (r: Option<(Vec<u8>, Vec<u8>)>)
    ensures
        match r {
            Some(p) => spec_header_line(line@) == Some((p.0@, p.1@)),
            None => spec_header_line(line@) is None,
        },
{
    match find_byte_vec(line, COLON) {
        None => None,
        Some(i) => {
            if i == 0 {
                return None;
            }
            let len = line.len();
            proof {
                lemma_find_byte_some(line@, COLON, i as int);
                assert(i < len);
            }
            let name = copy_range(line, 0, i);
            let tail = copy_range(line, i + 1, len);
            let value = skip_leading_spaces(&tail);
            Some((name, value))
        },
    }
}

/// The bytes of the header name `Content-Length`.
fn content_length_key_vec() -> (r: Vec<u8>)
    ensures
        r@ == content_length_key(),
{
    let mut v: Vec<u8> = Vec::new();
    v.push(67);
    v.push(111);
    v.push(110);
    v.push(116);
    v.push(101);
    v.push(110);
    v.push(116);
    v.push(45);
    v.push(76);
    v.push(101);
    v.push(110);
    v.push(103);
    v.push(116);
    v.push(104);
    proof {
        assert(v@ =~= content_length_key());
    }
    v
}

} // verus!
