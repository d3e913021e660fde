//! A client connection: the bytes it sent, read by a request parser, and
//! the bytes waiting to be written back to it.

use vstd::prelude::*;
use crate::http::{HttpError, ParseProgress, Parser, ParserView, Request, Response, Step, step, reported, response_bytes};

verus! {

/// A connection as the contracts see it.
pub struct ConnView {
    pub parser: ParserView,
    pub outbuf: Seq<u8>,
    pub last_active: u128,
    /// The connection closes once what waits has been sent.
    pub closing: bool,
}

/// A client connection.
pub struct Conn {
    parser: Parser,
    outbuf: Vec<u8>,
    last_active: u128,
    closing: bool,
}

impl View for Conn {
    type V = ConnView;

    closed spec fn view(&self) -> ConnView {
        ConnView { parser: self.parser@, outbuf: self.outbuf@, last_active: self.last_active, closing: self.closing }
    }
}

impl Conn {
    /// The parser is consistent.
    pub open spec fn wf(&self) -> bool {
        crate::http::parser_ok(self@.parser)
    }

    /// A connection accepted at `now`, with nothing received or to send.
    pub fn new(now: u128) -> (c: Self)
        ensures
            c.wf(),
            c@.parser == crate::http::fresh(Seq::empty()),
            c@.outbuf == Seq::<u8>::empty(),
            c@.last_active == now,
            !c@.closing,
    {
        Conn { parser: Parser::new(), outbuf: Vec::new(), last_active: now, closing: false }
    }

    /// Bytes received at `now`: they go to the parser, and the connection was active.
    pub fn received(&mut self, data: &[u8], now: u128)
        requires
            old(self).wf(),
        ensures
            final(self).wf(),
            final(self)@ == (ConnView {
                parser: ParserView { buf: old(self)@.parser.buf + data@, ..old(self)@.parser },
                last_active: now,
                ..old(self)@
            }),
    {
        self.parser.push(data);
        self.last_active = now;
    }

    /// The next request, when one is complete; the parser takes one step.
    /// A connection that is closing reads no further request.
    pub fn next_request(&mut self) -> (r: Option<Result<Request, HttpError>>)
        requires
            old(self).wf(),
        ensures
            final(self).wf(),
            old(self)@.closing ==> r is None && final(self)@ == old(self)@,
            !old(self)@.closing ==> final(self)@ == (ConnView { parser: step(old(self)@.parser).0, ..old(self)@ }),
            !old(self)@.closing ==> match step(old(self)@.parser).1 {
                Step::NeedMore => r is None,
                Step::Done(v) => r matches Some(Ok(req)) && req@ == v,
                Step::Failed(e) => r == Some(Err::<Request, HttpError>(e)),
            },
    {
        if self.closing {
            return None;
        }
        match self.parser.try_parse() {
            Ok(ParseProgress::NeedMore) => None,
            Ok(ParseProgress::Done(req)) => Some(Ok(req)),
            Err(e) => Some(Err(e)),
        }
    }

    /// Queues the bytes of a response to be sent.
    pub fn queue(&mut self, resp: &Response)
        requires
            old(self).wf(),
        ensures
            final(self).wf(),
            final(self)@ == (ConnView {
                outbuf: old(self)@.outbuf + response_bytes(resp.code, resp.reason@, resp.headers@, resp.body@),
                ..old(self)@
            }),
    {
        let bytes = resp.to_bytes();
        crate::text::append_bytes(&mut self.outbuf, bytes.as_slice());
    }

    /// Queues the answer to `req`: the bytes of `resp`, and the closing of
    /// the connection once they are sent when the client asked for it
    /// (`Connection: close`); otherwise the connection stays open.
    pub fn answer(&mut self, req: &Request, resp: &Response)
        requires
            old(self).wf(),
        ensures
            final(self).wf(),
            final(self)@ == (ConnView {
                outbuf: old(self)@.outbuf + response_bytes(resp.code, resp.reason@, resp.headers@, resp.body@),
                closing: old(self)@.closing || crate::http::asks_close(req@),
                ..old(self)@
            }),
    {
        self.queue(resp);
        if req.wants_close() {
            self.closing = true;
        }
    }

    /// The connection is to be closed now: it is closing and all its
    /// bytes have been sent.
    pub fn should_close(&self) -> (b: bool)
        ensures
            b == (self@.closing && self@.outbuf.len() == 0),
    {
        self.closing && self.outbuf.len() == 0
    }

    /// The bytes waiting to be sent.
    pub fn pending(&self) -> (b: &[u8])
        ensures
            b@ == self@.outbuf,
    {
        self.outbuf.as_slice()
    }

    /// `n` of the waiting bytes were sent: they leave the buffer.
    pub fn sent(&mut self, n: usize)
        requires
            old(self).wf(),
            n <= old(self)@.outbuf.len(),
        ensures
            final(self).wf(),
            final(self)@ == (ConnView { outbuf: old(self)@.outbuf.skip(n as int), ..old(self)@ }),
    {
        let mut rest: Vec<u8> = Vec::new();
        crate::text::append_bytes(&mut rest, &self.outbuf.as_slice()[n..self.outbuf.len()]);
        assert(rest@ =~= self.outbuf@.skip(n as int));
        self.outbuf = rest;
    }

    /// Some bytes wait to be sent.
    pub fn wants_write(&self) -> (b: bool)
        ensures
            b == (self@.outbuf.len() > 0),
    {
        self.outbuf.len() > 0
    }

    /// When the connection last received bytes (or was accepted).
    pub fn last_active(&self) -> (t: u128)
        ensures
            t == self@.last_active,
    {
        self.last_active
    }
}

/// What the event loop does with a readiness event on a descriptor.
#[derive(Debug, Clone, Copy, PartialEq, Eq, Structural)]
pub enum EventPlan {
    /// A listening socket: accept the waiting connections.
    Accept,
    /// An error or hang-up: close the connection.
    Close,
    /// Read what arrived and/or write what waits.
    Service { read: bool, write: bool },
}

/// The plan for an event: listeners accept, failed connections close, the
/// others read when readable and write when writable.
pub fn plan_event(is_listener: bool, readable: bool, writable: bool, failed: bool) -> (p: EventPlan)
    ensures
        p == (if is_listener {
            EventPlan::Accept
        } else if failed {
            EventPlan::Close
        } else {
            EventPlan::Service { read: readable, write: writable }
        }),
{
    if is_listener {
        EventPlan::Accept
    } else if failed {
        EventPlan::Close
    } else {
        EventPlan::Service { read: readable, write: writable }
    }
}

/// The answer to a request whose head could not be read.
pub fn bad_request() -> (r: Response)
    ensures
        r.code == 400,
        r.reason@ == "Bad Request"@,
        r.headers@ == Seq::<(Seq<char>, Seq<char>)>::empty(),
        r.body@ == Seq::<u8>::empty(),
{
    Response::new(400, "Bad Request")
}

} // verus!
