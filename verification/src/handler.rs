//! Per-unit echo behavior: what one TCP connection, one UDP
//! datagram, or one HTTP request is answered with. Each handler is
//! pure decision logic; the caller performs the reads, writes and
//! sends it decides on.

use vstd::prelude::*;

verus! {

/// What a TCP connection handler does after one read.
pub enum TcpAction {
    /// Write these bytes back before reading again.
    Write(Vec<u8>),
    /// The peer closed its write side: stop cleanly.
    Close,
}

/// One TCP connection's echo state: everything received from the
/// peer and everything echoed back, in order.
///
/// The invariant — the echoed bytes are exactly the received bytes —
/// holds after every step, so within a connection each read's bytes
/// are written back verbatim and in order before the next read.
pub struct TcpEcho {
    received: Ghost<Seq<u8>>,
    echoed: Ghost<Seq<u8>>,
}

impl TcpEcho {
    /// All bytes the peer has sent so far.
    pub closed spec fn received(self) -> Seq<u8> {
        self.received@
    }

    /// All bytes echoed back so far.
    pub closed spec fn echoed(self) -> Seq<u8> {
        self.echoed@
    }

    /// The echo invariant: output equals input, byte for byte.
    pub open spec fn wf(self) -> bool {
        self.echoed() == self.received()
    }

    /// A fresh connection: nothing received, nothing echoed.
    pub fn new() -> (r: TcpEcho)
        ensures
            r.wf(),
            r.received() == Seq::<u8>::empty(),
    {
        TcpEcho { received: Ghost(Seq::empty()), echoed: Ghost(Seq::empty()) }
    }

    /// Decides what to do after a read that put `n` bytes at the
    /// front of `buf`. A zero-length read means the peer closed its
    /// write side: the connection ends cleanly, nothing more is
    /// echoed. Otherwise exactly those `n` bytes, in order, are to
    /// be written back before the next read.
    pub fn on_read(&mut self, buf: &Vec<u8>, n: usize) -> (action: TcpAction)
        requires
            old(self).wf(),
            n <= buf.len(),
        ensures
            final(self).wf(),
            n == 0 ==> action is Close && final(self).received() == old(self).received(),
            n > 0 ==> {
                &&& action matches TcpAction::Write(data) && data@ == buf@.take(n as int)
                &&& final(self).received() == old(self).received() + buf@.take(n as int)
                &&& final(self).echoed() == old(self).echoed() + buf@.take(n as int)
            },
    {
        if n == 0 {
            return TcpAction::Close;
        }
        let mut data: Vec<u8> = Vec::new();
        let mut i: usize = 0;
        while i < n
            invariant
                0 <= i <= n <= buf.len(),
                data@ == buf@.take(i as int),
            decreases n - i,
        {
            data.push(buf[i]);
            proof {
                assert(data@ =~= buf@.take(i + 1));
            }
            i += 1;
        }
        proof {
            self.received@ = self.received@ + buf@.take(n as int);
            self.echoed@ = self.echoed@ + buf@.take(n as int);
        }
        TcpAction::Write(data)
    }
}

/// The reply to one UDP datagram: the exact payload that arrived,
/// sent back to its source. The payload is the first `n` bytes of
/// the receive buffer.
pub fn udp_reply(buf: &Vec<u8>, n: usize) -> (r: Vec<u8>)
    requires
        n <= buf.len(),
    ensures
        r@ == buf@.take(n as int),
{
    let mut data: Vec<u8> = Vec::new();
    let mut i: usize = 0;
    while i < n
        invariant
            0 <= i <= n <= buf.len(),
            data@ == buf@.take(i as int),
        decreases n - i,
    {
        data.push(buf[i]);
        proof {
            assert(data@ =~= buf@.take(i + 1));
        }
        i += 1;
    }
    data
}

/// One HTTP request, reduced to what the echo endpoints read: its
/// headers (name, value) and its body.
pub struct HttpRequest {
    pub headers: Vec<(String, String)>,
    pub body: Vec<u8>,
}

/// One HTTP response: a status code, headers and a body.
pub struct HttpResponse {
    pub status: u16,
    pub headers: Vec<(String, String)>,
    pub body: Vec<u8>,
}

/// The bytes of the fixed `ping` body.
pub open spec fn pong_bytes() -> Seq<u8> {
    seq!['p' as u8, 'o' as u8, 'n' as u8, 'g' as u8]
}

/// The response to any `ping` request: success, a fixed short body,
/// no headers of its own.
pub fn ping_response() -> (r: HttpResponse)
    ensures
        r.status == 200,
        r.body@ == pong_bytes(),
        r.headers@.len() == 0,
{
    let mut body: Vec<u8> = Vec::new();
    body.push(112);
    body.push(111);
    body.push(110);
    body.push(103);
    proof {
        assert(body@ =~= pong_bytes());
    }
    HttpResponse { status: 200, headers: Vec::new(), body }
}

/// The response to an `echo` request: success, the request's body
/// copied verbatim, and every request header copied verbatim into
/// the response.
pub fn echo_response(req: HttpRequest) -> (r: HttpResponse)
    ensures
        r.status == 200,
        r.body@ == req.body@,
        r.headers@ == req.headers@,
{
    HttpResponse { status: 200, headers: req.headers, body: req.body }
}

} // verus!
