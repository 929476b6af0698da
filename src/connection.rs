//! Per-connection state: the bytes received and not yet framed.
use vstd::prelude::*;
use crate::framer::frame;
use crate::request::{ParseError, Request, RequestView, Rpress};

verus! {

/// A growable byte accumulator with a capacity ceiling that its owner enforces.
pub struct FrameBuffer {
    bytes: Vec<u8>,
    capacity: usize,
}

impl View for FrameBuffer {
    type V = Seq<u8>;

    closed spec fn view(&self) -> Seq<u8> {
        self.bytes@
    }
}

impl FrameBuffer {
    pub closed spec fn capacity_ceiling(&self) -> nat {
        self.capacity as nat
    }

    /// An empty buffer whose ceiling is `capacity` bytes.
    pub fn new(capacity: usize) -> (r: FrameBuffer)
        ensures
            r@ == Seq::<u8>::empty(),
            r.capacity_ceiling() == capacity,
    {
        FrameBuffer { bytes: Vec::new(), capacity }
    }

    /// Adds `data` after the bytes held.
    pub fn append(&mut self, data: &[u8])
        ensures
            final(self)@ == old(self)@ + data@,
            final(self).capacity_ceiling() == old(self).capacity_ceiling(),
    {
        let mut i: usize = 0;
        while i < data.len()
            invariant
                i <= data.len(),
                self.capacity == old(self).capacity,
                self.bytes@ == old(self).bytes@ + data@.subrange(0, i as int),
            decreases data.len() - i,
        {
            self.bytes.push(data[i]);
            assert(data@.subrange(0, i + 1) =~= data@.subrange(0, i as int).push(data@[i as int]));
            i = i + 1;
        }
        assert(data@.subrange(0, data.len() as int) =~= data@);
    }

    /// Removes the first `n` bytes; the rest moves to the front.
    pub fn drain_prefix(&mut self, n: usize)
        requires
            n <= old(self)@.len(),
        ensures
            final(self)@ == old(self)@.subrange(n as int, old(self)@.len() as int),
            final(self).capacity_ceiling() == old(self).capacity_ceiling(),
    {
        let mut rest: Vec<u8> = Vec::new();
        let mut i: usize = n;
        while i < self.bytes.len()
            invariant
                n <= i <= self.bytes.len(),
                self.bytes == old(self).bytes,
                rest@ == self.bytes@.subrange(n as int, i as int),
            decreases self.bytes.len() - i,
        {
            rest.push(self.bytes[i]);
            assert(self.bytes@.subrange(n as int, i + 1) =~= self.bytes@.subrange(n as int, i as int).push(
                self.bytes@[i as int],
            ));
            i = i + 1;
        }
        self.bytes = rest;
    }

    pub fn len(&self) -> (r: usize)
        ensures
            r == self@.len(),
    {
        self.bytes.len()
    }

    /// Whether the bytes held exceed the ceiling.
    pub fn over_capacity(&self) -> (r: bool)
        ensures
            r == (self@.len() > self.capacity_ceiling()),
    {
        self.bytes.len() > self.capacity
    }

    pub fn as_slice(&self) -> (r: &[u8])
        ensures
            r@ == self@,
    {
        self.bytes.as_slice()
    }
}

/// What the connection does after taking in a read.
#[derive(Debug, Clone, Copy, PartialEq, Eq, Structural)]
pub enum DriverAction {
    /// Wait for more bytes.
    ReadMore,
    /// The buffer went over its ceiling; close the connection.
    CloseOverflow,
    /// The pending bytes cannot be a request; close the connection.
    CloseMalformed(ParseError),
}

/// Framing every request that the pending bytes `b` hold, one after another: the requests
/// appended to `acc`, the bytes left, and the error that stopped framing, if any. Each request
/// is framed by its own header block alone.
pub open spec fn frame_all(b: Seq<u8>, acc: Seq<RequestView>) -> (
    Seq<RequestView>,
    Seq<u8>,
    Option<ParseError>,
)
    decreases b.len(),
{
    if b.len() == 0 {
        (acc, b, None)
    } else {
        match frame(b, false) {
            Ok(Some((q, n))) => if 0 < n <= b.len() {
                frame_all(b.subrange(n, b.len() as int), acc.push(q))
            } else {
                (acc, b, None)
            },
            Ok(None) => (acc, b, None),
            Err(e) => (acc, b, Some(e)),
        }
    }
}

/// A list of requests as mathematical values.
pub open spec fn requests_view(v: Seq<Request>) -> Seq<RequestView> {
    v.map_values(|r: Request| r@)
}

/// One connection's framing state.
pub struct Connection {
    buffer: FrameBuffer,
}

impl Connection {
    /// The bytes received and not yet framed.
    pub closed spec fn pending(&self) -> Seq<u8> {
        self.buffer@
    }

    pub closed spec fn capacity_ceiling(&self) -> nat {
        self.buffer.capacity_ceiling()
    }

    /// A fresh connection whose buffer holds at most `capacity` bytes.
    pub fn new(capacity: usize) -> (r: Connection)
        ensures
            r.pending() == Seq::<u8>::empty(),
            r.capacity_ceiling() == capacity,
    {
        Connection { buffer: FrameBuffer::new(capacity) }
    }

    pub fn pending_len(&self) -> (r: usize)
        ensures
            r == self.pending().len(),
    {
        self.buffer.len()
    }

    /// Takes in the bytes of one read. Returns whether the buffer is still within its ceiling;
    /// when it is not, the connection is to be closed.
    pub fn receive(&mut self, data: &[u8]) -> (r: bool)
        ensures
            final(self).pending() == old(self).pending() + data@,
            final(self).capacity_ceiling() == old(self).capacity_ceiling(),
            r == (final(self).pending().len() <= final(self).capacity_ceiling()),
    {
        self.buffer.append(data);
        !self.buffer.over_capacity()
    }

    /// Frames the next request from the pending bytes and removes the bytes it occupied.
    /// Whether its body is chunked is decided by its own header block, never by an earlier
    /// request. Leaves the pending bytes as they were when no request is complete or the bytes
    /// are malformed.
    pub fn next_request(&mut self, server: &Rpress) -> (r: Result<Option<Request>, ParseError>)
        ensures
            final(self).capacity_ceiling() == old(self).capacity_ceiling(),
            old(self).pending().len() == 0 ==> (r matches Ok(None)) && final(self).pending() == old(
                self,
            ).pending(),
            old(self).pending().len() > 0 ==> {
                let before = old(self).pending();
                let after = final(self).pending();
                match frame(before, false) {
                    Ok(Some((q, n))) => (r matches Ok(Some(req)) && req@ == q)
                        && after == before.subrange(n, before.len() as int),
                    Ok(None) => (r matches Ok(None)) && after == before,
                    Err(e) => r == Err::<Option<Request>, ParseError>(e) && after == before,
                }
            },
    {
        if self.buffer.len() == 0 {
            return Ok(None);
        }
        let framed = server.parse_http_protocol(self.buffer.as_slice(), false);
        match framed {
            Ok(Some((request, consumed))) => {
                self.buffer.drain_prefix(consumed);
                Ok(Some(request))
            },
            Ok(None) => Ok(None),
            Err(e) => Err(e),
        }
    }

    /// Takes in the bytes of one read and frames every request that is then complete, in
    /// order. Closes on overflow before framing anything, and on bytes that cannot be a
    /// request; otherwise asks for more bytes.
    pub fn on_read(&mut self, server: &Rpress, data: &[u8]) -> (r: (Vec<Request>, DriverAction))
        ensures
            final(self).capacity_ceiling() == old(self).capacity_ceiling(),
            ({
                let received = old(self).pending() + data@;
                if received.len() > old(self).capacity_ceiling() {
                    &&& r.0@.len() == 0
                    &&& r.1 == DriverAction::CloseOverflow
                    &&& final(self).pending() == received
                } else {
                    let (qs, rest, err) = frame_all(received, Seq::empty());
                    &&& requests_view(r.0@) == qs
                    &&& final(self).pending() == rest
                    &&& r.1 == match err {
                        Some(e) => DriverAction::CloseMalformed(e),
                        None => DriverAction::ReadMore,
                    }
                }
            }),
    {
        let mut out: Vec<Request> = Vec::new();
        if !self.receive(data) {
            return (out, DriverAction::CloseOverflow);
        }
        let ghost received = self.pending();
        assert(requests_view(out@) =~= Seq::<RequestView>::empty());
        loop
            invariant
                self.capacity_ceiling() == old(self).capacity_ceiling(),
                received == old(self).pending() + data@,
                received.len() <= old(self).capacity_ceiling(),
                frame_all(received, Seq::empty()) == frame_all(self.pending(), requests_view(out@)),
            decreases self.pending().len(),
        {
            let ghost before = self.pending();
            proof {
                crate::laws::lemma_frame_consumed_bounds(before, false);
            }
            match self.next_request(server) {
                Ok(Some(request)) => {
                    let ghost q = request@;
                    let ghost out_before = out@;
                    out.push(request);
                    assert(requests_view(out@) =~= requests_view(out_before).push(q));
                },
                Ok(None) => {
                    assert(frame_all(before, requests_view(out@)) == (
                        requests_view(out@),
                        before,
                        None::<ParseError>,
                    ));
                    return (out, DriverAction::ReadMore);
                },
                Err(e) => {
                    assert(frame_all(before, requests_view(out@)) == (
                        requests_view(out@),
                        before,
                        Some(e),
                    ));
                    return (out, DriverAction::CloseMalformed(e));
                },
            }
        }
    }
}

} // verus!
