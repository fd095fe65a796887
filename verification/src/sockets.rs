//! Sockets: `wasi:sockets/tcp`, `wasi:sockets/udp`, `wasi:sockets/ip-name-lookup`.
//!
//! Simulated in memory:
//! - TCP types: sockets, IP addresses, socket addresses, networks
//! - TCP connect as a start/finish state machine, listen and accept
//! - TCP send and receive buffers
//! - UDP datagrams with send-to and receive-from
//! - DNS lookup from a table of records
//! - socket options, readiness checks and typed errors

use vstd::prelude::*;
use std::collections::HashMap;
use std::collections::VecDeque;
use crate::assoc::{
    assoc_map, keys_distinct, lemma_assoc_absent, lemma_assoc_lookup, lemma_assoc_push,
    lemma_assoc_remove, lemma_assoc_update, named_entries, named_get, named_map, named_put,
    named_remove,
};
use crate::text::{dec, hex, owned, push_dec, push_hex, push_str};

verus! {

broadcast use vstd::std_specs::hash::group_hash_axioms;

// ═════════════════════════════════════════════════════════════════════
// Addresses
// ═════════════════════════════════════════════════════════════════════

/// An IP address (V4 or V6).
#[derive(Debug, Clone, Copy, PartialEq, Eq, Hash, Structural)]
pub enum IpAddress {
    /// IPv4 address as 4 octets.
    V4(u8, u8, u8, u8),
    /// IPv6 address as 8 groups of 16-bit values.
    V6(u16, u16, u16, u16, u16, u16, u16, u16),
}

/// The text of an IP address: dotted decimal, or eight hex groups.
pub open spec fn ip_text(ip: IpAddress) -> Seq<char> {
    match ip {
        IpAddress::V4(a, b, c, d) => dec(a as nat) + "."@ + dec(b as nat) + "."@ + dec(c as nat)
            + "."@ + dec(d as nat),
        IpAddress::V6(a, b, c, d, e, g, h, i) => hex(a as nat) + ":"@ + hex(b as nat) + ":"@ + hex(
            c as nat,
        ) + ":"@ + hex(d as nat) + ":"@ + hex(e as nat) + ":"@ + hex(g as nat) + ":"@ + hex(
            h as nat,
        ) + ":"@ + hex(i as nat),
    }
}

impl IpAddress {
    /// The IPv4 loopback address (127.0.0.1).
    pub fn localhost_v4() -> (ip: Self)
        ensures
            ip == IpAddress::V4(127, 0, 0, 1),
    {
        IpAddress::V4(127, 0, 0, 1)
    }

    /// The IPv6 loopback address (::1).
    pub fn localhost_v6() -> (ip: Self)
        ensures
            ip == IpAddress::V6(0, 0, 0, 0, 0, 0, 0, 1),
    {
        IpAddress::V6(0, 0, 0, 0, 0, 0, 0, 1)
    }

    /// The IPv4 unspecified address (0.0.0.0).
    pub fn unspecified_v4() -> (ip: Self)
        ensures
            ip == IpAddress::V4(0, 0, 0, 0),
    {
        IpAddress::V4(0, 0, 0, 0)
    }

    /// Whether this is an IPv4 address.
    pub fn is_v4(&self) -> (b: bool)
        ensures
            b == (*self is V4),
    {
        match self {
            IpAddress::V4(..) => true,
            IpAddress::V6(..) => false,
        }
    }

    /// Whether this is an IPv6 address.
    pub fn is_v6(&self) -> (b: bool)
        ensures
            b == (*self is V6),
    {
        match self {
            IpAddress::V4(..) => false,
            IpAddress::V6(..) => true,
        }
    }

    /// The text of this address.
    pub fn to_string(&self) -> (s: String)
        ensures
            s@ == ip_text(*self),
    {
        let mut s = String::new();
        match self {
            IpAddress::V4(a, b, c, d) => {
                push_dec(&mut s, *a as u64);
                push_str(&mut s, ".");
                push_dec(&mut s, *b as u64);
                push_str(&mut s, ".");
                push_dec(&mut s, *c as u64);
                push_str(&mut s, ".");
                push_dec(&mut s, *d as u64);
            },
            IpAddress::V6(a, b, c, d, e, g, h, i) => {
                push_hex(&mut s, *a as u64);
                push_str(&mut s, ":");
                push_hex(&mut s, *b as u64);
                push_str(&mut s, ":");
                push_hex(&mut s, *c as u64);
                push_str(&mut s, ":");
                push_hex(&mut s, *d as u64);
                push_str(&mut s, ":");
                push_hex(&mut s, *e as u64);
                push_str(&mut s, ":");
                push_hex(&mut s, *g as u64);
                push_str(&mut s, ":");
                push_hex(&mut s, *h as u64);
                push_str(&mut s, ":");
                push_hex(&mut s, *i as u64);
            },
        }
        proof {
            assert(s@ =~= ip_text(*self));
        }
        s
    }
}

/// A socket address: IP and port.
#[derive(Debug, Clone, Copy, PartialEq, Eq, Hash, Structural)]
pub struct SocketAddr {
    /// The IP address.
    pub ip: IpAddress,
    /// The port number.
    pub port: u16,
}

/// The text of a socket address: `ip:port`, with IPv6 in brackets.
pub open spec fn socket_addr_text(a: SocketAddr) -> Seq<char> {
    match a.ip {
        IpAddress::V4(..) => ip_text(a.ip) + ":"@ + dec(a.port as nat),
        IpAddress::V6(..) => "["@ + ip_text(a.ip) + "]:"@ + dec(a.port as nat),
    }
}

impl SocketAddr {
    /// Creates a new socket address.
    pub fn new(ip: IpAddress, port: u16) -> (a: Self)
        ensures
            a == (SocketAddr { ip, port }),
    {
        SocketAddr { ip, port }
    }

    /// The text of this address.
    pub fn to_string(&self) -> (s: String)
        ensures
            s@ == socket_addr_text(*self),
    {
        let mut s;
        match self.ip {
            IpAddress::V4(..) => {
                s = self.ip.to_string();
                push_str(&mut s, ":");
            },
            IpAddress::V6(..) => {
                s = owned("[");
                let t = self.ip.to_string();
                push_str(&mut s, t.as_str());
                push_str(&mut s, "]:");
            },
        }
        push_dec(&mut s, self.port as u64);
        proof {
            assert(s@ =~= socket_addr_text(*self));
        }
        s
    }
}

/// A network resource: the network capability granted to a component.
#[derive(Debug)]
pub struct Network {
    /// Unique network handle.
    pub handle: u32,
    /// Human-readable name for this network.
    pub name: String,
}

impl Network {
    /// Creates a new network resource with the given handle and name.
    pub fn new(handle: u32, name: &str) -> (n: Self)
        ensures
            n.handle == handle,
            n.name@ == name@,
    {
        Network { handle, name: owned(name) }
    }
}

/// TCP socket state machine.
#[derive(Debug, Clone, Copy, PartialEq, Eq, Structural)]
pub enum TcpState {
    /// Created, neither connected nor listening.
    Closed,
    /// Connection started, awaiting its finish.
    Connecting,
    /// Connection established.
    Connected,
    /// Accepting connections.
    Listening,
}

/// The text of a TCP state.
pub open spec fn tcp_state_text(s: TcpState) -> Seq<char> {
    match s {
        TcpState::Closed => "closed"@,
        TcpState::Connecting => "connecting"@,
        TcpState::Connected => "connected"@,
        TcpState::Listening => "listening"@,
    }
}

impl TcpState {
    /// The text of this state.
    pub fn to_string(&self) -> (s: String)
        ensures
            s@ == tcp_state_text(*self),
    {
        match self {
            TcpState::Closed => owned("closed"),
            TcpState::Connecting => owned("connecting"),
            TcpState::Connected => owned("connected"),
            TcpState::Listening => owned("listening"),
        }
    }
}

// ═════════════════════════════════════════════════════════════════════
// Options and errors
// ═════════════════════════════════════════════════════════════════════

/// Configuration options for a socket.
#[derive(Debug, Clone, Copy, PartialEq, Eq, Structural)]
pub struct SocketOptions {
    /// Allow binding to an address already in use.
    pub reuse_address: bool,
    /// Disable Nagle's algorithm.
    pub tcp_nodelay: bool,
    /// Send timeout in milliseconds (0 = no timeout).
    pub send_timeout_ms: u64,
    /// Receive timeout in milliseconds (0 = no timeout).
    pub recv_timeout_ms: u64,
    /// Keep-alive interval in seconds (0 = disabled).
    pub keep_alive_secs: u64,
}

/// The default options: everything off or zero.
pub open spec fn default_options() -> SocketOptions {
    SocketOptions {
        reuse_address: false,
        tcp_nodelay: false,
        send_timeout_ms: 0,
        recv_timeout_ms: 0,
        keep_alive_secs: 0,
    }
}

impl Default for SocketOptions {
    fn default() -> (o: Self)
        ensures
            o == default_options(),
    {
        SocketOptions {
            reuse_address: false,
            tcp_nodelay: false,
            send_timeout_ms: 0,
            recv_timeout_ms: 0,
            keep_alive_secs: 0,
        }
    }
}

/// Socket error type covering all networking failure modes.
#[derive(Debug, Clone, PartialEq, Eq)]
pub enum SocketError {
    /// The remote host refused the connection.
    ConnectionRefused,
    /// The operation timed out.
    Timeout,
    /// The connection was reset by the remote host.
    ConnectionReset,
    /// The address is already in use.
    AddressInUse,
    /// The address is not available on this host.
    AddressNotAvailable,
    /// The socket is not connected.
    NotConnected,
    /// The socket is already connected.
    AlreadyConnected,
    /// The socket is already listening.
    AlreadyListening,
    /// The operation is invalid for the current socket state.
    InvalidState(String),
    /// DNS resolution failed.
    NameResolutionFailed(String),
    /// The socket handle is invalid.
    BadHandle,
    /// A generic I/O error.
    Io(String),
    /// The operation would block on a non-blocking socket.
    WouldBlock,
    /// Connection was aborted.
    ConnectionAborted,
    /// Network is unreachable.
    NetworkUnreachable,
}

/// The text of a socket error.
pub open spec fn socket_error_text(e: SocketError) -> Seq<char> {
    match e {
        SocketError::ConnectionRefused => "connection refused"@,
        SocketError::Timeout => "operation timed out"@,
        SocketError::ConnectionReset => "connection reset"@,
        SocketError::AddressInUse => "address already in use"@,
        SocketError::AddressNotAvailable => "address not available"@,
        SocketError::NotConnected => "socket not connected"@,
        SocketError::AlreadyConnected => "socket already connected"@,
        SocketError::AlreadyListening => "socket already listening"@,
        SocketError::InvalidState(m) => "invalid state: "@ + m@,
        SocketError::NameResolutionFailed(h) => "name resolution failed for: "@ + h@,
        SocketError::BadHandle => "bad socket handle"@,
        SocketError::Io(m) => "I/O error: "@ + m@,
        SocketError::WouldBlock => "operation would block"@,
        SocketError::ConnectionAborted => "connection aborted"@,
        SocketError::NetworkUnreachable => "network unreachable"@,
    }
}

impl SocketError {
    /// The text of this error.
    pub fn to_string(&self) -> (s: String)
        ensures
            s@ == socket_error_text(*self),
    {
        match self {
            SocketError::ConnectionRefused => owned("connection refused"),
            SocketError::Timeout => owned("operation timed out"),
            SocketError::ConnectionReset => owned("connection reset"),
            SocketError::AddressInUse => owned("address already in use"),
            SocketError::AddressNotAvailable => owned("address not available"),
            SocketError::NotConnected => owned("socket not connected"),
            SocketError::AlreadyConnected => owned("socket already connected"),
            SocketError::AlreadyListening => owned("socket already listening"),
            SocketError::InvalidState(m) => {
                let mut s = owned("invalid state: ");
                push_str(&mut s, m.as_str());
                s
            },
            SocketError::NameResolutionFailed(h) => {
                let mut s = owned("name resolution failed for: ");
                push_str(&mut s, h.as_str());
                s
            },
            SocketError::BadHandle => owned("bad socket handle"),
            SocketError::Io(m) => {
                let mut s = owned("I/O error: ");
                push_str(&mut s, m.as_str());
                s
            },
            SocketError::WouldBlock => owned("operation would block"),
            SocketError::ConnectionAborted => owned("connection aborted"),
            SocketError::NetworkUnreachable => owned("network unreachable"),
        }
    }
}

/// An `InvalidState` error whose message is `prefix` then the state's text.
fn state_error(prefix: &str, s: TcpState) -> (e: SocketError)
    ensures
        e matches SocketError::InvalidState(m) && m@ == prefix@ + tcp_state_text(s),
{
    let mut m = owned(prefix);
    let t = s.to_string();
    push_str(&mut m, t.as_str());
    SocketError::InvalidState(m)
}

/// `e` is `InvalidState` with the message `prefix` then the state's text.
pub open spec fn is_state_error(e: SocketError, prefix: Seq<char>, s: TcpState) -> bool {
    e matches SocketError::InvalidState(m) && m@ == prefix + tcp_state_text(s)
}

// ═════════════════════════════════════════════════════════════════════
// TCP socket
// ═════════════════════════════════════════════════════════════════════

/// A simulated TCP socket.
#[derive(Debug)]
pub struct TcpSocket {
    state: TcpState,
    local_addr: Option<SocketAddr>,
    remote_addr: Option<SocketAddr>,
    options: SocketOptions,
    recv_buffer: VecDeque<u8>,
    send_buffer: VecDeque<u8>,
    accept_queue: VecDeque<u32>,
    bytes_received: u64,
    bytes_sent: u64,
}

impl TcpSocket {
    /// The socket's state.
    pub closed spec fn st(&self) -> TcpState {
        self.state
    }

    /// The local address, if bound.
    pub closed spec fn local(&self) -> Option<SocketAddr> {
        self.local_addr
    }

    /// The remote address, if connected.
    pub closed spec fn remote(&self) -> Option<SocketAddr> {
        self.remote_addr
    }

    /// The socket's options.
    pub closed spec fn opts(&self) -> SocketOptions {
        self.options
    }

    /// Received bytes not yet read.
    pub closed spec fn recv_q(&self) -> Seq<u8> {
        self.recv_buffer@
    }

    /// Sent bytes not yet taken by the network.
    pub closed spec fn send_q(&self) -> Seq<u8> {
        self.send_buffer@
    }

    /// Clients waiting to be accepted.
    pub closed spec fn accepts(&self) -> Seq<u32> {
        self.accept_queue@
    }

    /// Total bytes received.
    pub closed spec fn rx(&self) -> u64 {
        self.bytes_received
    }

    /// Total bytes sent.
    pub closed spec fn tx(&self) -> u64 {
        self.bytes_sent
    }

    /// A new socket: closed, unbound, default options, empty buffers.
    pub open spec fn fresh(&self) -> bool {
        &&& self.st() == TcpState::Closed
        &&& self.local() is None
        &&& self.remote() is None
        &&& self.opts() == default_options()
        &&& self.recv_q() == Seq::<u8>::empty()
        &&& self.send_q() == Seq::<u8>::empty()
        &&& self.accepts() == Seq::<u32>::empty()
        &&& self.rx() == 0
        &&& self.tx() == 0
    }

    /// Creates a new TCP socket in the closed state.
    pub fn new() -> (s: Self)
        ensures
            s.fresh(),
    {
        TcpSocket {
            state: TcpState::Closed,
            local_addr: None,
            remote_addr: None,
            options: SocketOptions::default(),
            recv_buffer: VecDeque::new(),
            send_buffer: VecDeque::new(),
            accept_queue: VecDeque::new(),
            bytes_received: 0,
            bytes_sent: 0,
        }
    }

    /// Returns the current socket state.
    pub fn state(&self) -> (s: TcpState)
        ensures
            s == self.st(),
    {
        self.state
    }

    /// Returns the local address, if bound.
    pub fn local_addr(&self) -> (a: Option<&SocketAddr>)
        ensures
            a == match self.local() {
                Some(x) => Some(&x),
                None => None::<&SocketAddr>,
            },
    {
        match &self.local_addr {
            Some(a) => Some(a),
            None => None,
        }
    }

    /// Returns the remote address, if connected.
    pub fn remote_addr(&self) -> (a: Option<&SocketAddr>)
        ensures
            a == match self.remote() {
                Some(x) => Some(&x),
                None => None::<&SocketAddr>,
            },
    {
        match &self.remote_addr {
            Some(a) => Some(a),
            None => None,
        }
    }

    /// Returns the socket options.
    pub fn options(&self) -> (o: &SocketOptions)
        ensures
            *o == self.opts(),
    {
        &self.options
    }

    /// Returns the socket options for changing.
    pub fn options_mut(&mut self) -> (o: &mut SocketOptions)
        ensures
            *o == old(self).opts(),
            final(self).opts() == *final(o),
            final(self).st() == old(self).st(),
            final(self).local() == old(self).local(),
            final(self).remote() == old(self).remote(),
            final(self).recv_q() == old(self).recv_q(),
            final(self).send_q() == old(self).send_q(),
            final(self).accepts() == old(self).accepts(),
            final(self).rx() == old(self).rx(),
            final(self).tx() == old(self).tx(),
    {
        &mut self.options
    }

    /// Returns total bytes received.
    pub fn bytes_received(&self) -> (n: u64)
        ensures
            n == self.rx(),
    {
        self.bytes_received
    }

    /// Returns total bytes sent.
    pub fn bytes_sent(&self) -> (n: u64)
        ensures
            n == self.tx(),
    {
        self.bytes_sent
    }

    /// The bytes waiting in the send buffer, in order.
    pub fn pending_send(&self) -> (v: Vec<u8>)
        ensures
            v@ == self.send_q(),
    {
        deque_to_vec(&self.send_buffer)
    }
}

fn deque_to_vec(d: &VecDeque<u8>) -> (v: Vec<u8>)
    ensures
        v@ == d@,
{
    let mut v: Vec<u8> = Vec::new();
    let mut i: usize = 0;
    while i < d.len()
        invariant
            i <= d@.len(),
            v@ == d@.subrange(0, i as int),
        decreases d@.len() - i,
    {
        v.push(d[i]);
        proof {
            assert(d@.subrange(0, i + 1) =~= d@.subrange(0, i as int).push(d@[i as int]));
        }
        i = i + 1;
    }
    proof {
        assert(d@.subrange(0, i as int) =~= d@);
    }
    v
}

impl Default for TcpSocket {
    fn default() -> (s: Self)
        ensures
            s.fresh(),
    {
        Self::new()
    }
}

// ═════════════════════════════════════════════════════════════════════
// UDP socket
// ═════════════════════════════════════════════════════════════════════

/// A received UDP datagram.
#[derive(Debug, Clone, PartialEq)]
pub struct Datagram {
    /// The payload bytes.
    pub data: Vec<u8>,
    /// The source address of the datagram.
    pub remote_addr: SocketAddr,
}

/// A simulated UDP socket.
#[derive(Debug)]
pub struct UdpSocket {
    local_addr: Option<SocketAddr>,
    options: SocketOptions,
    recv_queue: VecDeque<Datagram>,
    sent_datagrams: Vec<Datagram>,
    bytes_received: u64,
    bytes_sent: u64,
}

impl UdpSocket {
    /// The local address, if bound.
    pub closed spec fn local(&self) -> Option<SocketAddr> {
        self.local_addr
    }

    /// The socket's options.
    pub closed spec fn opts(&self) -> SocketOptions {
        self.options
    }

    /// Datagrams waiting to be received.
    pub closed spec fn inbox(&self) -> Seq<Datagram> {
        self.recv_queue@
    }

    /// Datagrams sent so far.
    pub closed spec fn outbox(&self) -> Seq<Datagram> {
        self.sent_datagrams@
    }

    /// Total bytes received.
    pub closed spec fn rx(&self) -> u64 {
        self.bytes_received
    }

    /// Total bytes sent.
    pub closed spec fn tx(&self) -> u64 {
        self.bytes_sent
    }

    /// A new socket: unbound, default options, nothing sent or received.
    pub open spec fn fresh(&self) -> bool {
        &&& self.local() is None
        &&& self.opts() == default_options()
        &&& self.inbox() == Seq::<Datagram>::empty()
        &&& self.outbox() == Seq::<Datagram>::empty()
        &&& self.rx() == 0
        &&& self.tx() == 0
    }

    /// Creates a new UDP socket.
    pub fn new() -> (s: Self)
        ensures
            s.fresh(),
    {
        UdpSocket {
            local_addr: None,
            options: SocketOptions::default(),
            recv_queue: VecDeque::new(),
            sent_datagrams: Vec::new(),
            bytes_received: 0,
            bytes_sent: 0,
        }
    }

    /// Returns the local address, if bound.
    pub fn local_addr(&self) -> (a: Option<&SocketAddr>)
        ensures
            a == match self.local() {
                Some(x) => Some(&x),
                None => None::<&SocketAddr>,
            },
    {
        match &self.local_addr {
            Some(a) => Some(a),
            None => None,
        }
    }

    /// Returns the socket options.
    pub fn options(&self) -> (o: &SocketOptions)
        ensures
            *o == self.opts(),
    {
        &self.options
    }

    /// Returns the socket options for changing.
    pub fn options_mut(&mut self) -> (o: &mut SocketOptions)
        ensures
            *o == old(self).opts(),
            final(self).opts() == *final(o),
            final(self).local() == old(self).local(),
            final(self).inbox() == old(self).inbox(),
            final(self).outbox() == old(self).outbox(),
            final(self).rx() == old(self).rx(),
            final(self).tx() == old(self).tx(),
    {
        &mut self.options
    }

    /// Returns all sent datagrams.
    pub fn sent_datagrams(&self) -> (d: &[Datagram])
        ensures
            d@ == self.outbox(),
    {
        self.sent_datagrams.as_slice()
    }

    /// Returns total bytes received.
    pub fn bytes_received(&self) -> (n: u64)
        ensures
            n == self.rx(),
    {
        self.bytes_received
    }

    /// Returns total bytes sent.
    pub fn bytes_sent(&self) -> (n: u64)
        ensures
            n == self.tx(),
    {
        self.bytes_sent
    }
}

impl Default for UdpSocket {
    fn default() -> (s: Self)
        ensures
            s.fresh(),
    {
        Self::new()
    }
}

// ═════════════════════════════════════════════════════════════════════
// DNS
// ═════════════════════════════════════════════════════════════════════

/// A simulated DNS resolver: hostnames mapped to lists of addresses.
#[derive(Debug)]
pub struct DnsResolver {
    records: Vec<(String, Vec<IpAddress>)>,
}

impl DnsResolver {
    /// The addresses recorded for each hostname.
    pub closed spec fn records_view(&self) -> Map<Seq<char>, Seq<IpAddress>> {
        named_map(self.records@).map_values(|v: Vec<IpAddress>| v@)
    }

    /// The resolver's invariant: one entry per hostname.
    pub closed spec fn wf(&self) -> bool {
        keys_distinct(named_entries(self.records@))
    }

    /// Creates a resolver seeded with `localhost` (127.0.0.1, then ::1).
    pub fn new() -> (r: Self)
        ensures
            r.wf(),
            r.records_view() == Map::<Seq<char>, Seq<IpAddress>>::empty().insert(
                "localhost"@,
                seq![IpAddress::V4(127, 0, 0, 1), IpAddress::V6(0, 0, 0, 0, 0, 0, 0, 1)],
            ),
    {
        let mut resolver = DnsResolver { records: Vec::new() };
        proof {
            assert(named_entries(resolver.records@) =~= Seq::empty());
            assert(resolver.records_view() =~= Map::<Seq<char>, Seq<IpAddress>>::empty());
        }
        resolver.add_record("localhost", IpAddress::localhost_v4());
        proof {
            assert(Seq::<IpAddress>::empty().push(IpAddress::V4(127, 0, 0, 1)) =~= seq![IpAddress::V4(127, 0, 0, 1)]);
            assert(resolver.records_view() =~= Map::<Seq<char>, Seq<IpAddress>>::empty().insert(
                "localhost"@,
                seq![IpAddress::V4(127, 0, 0, 1)],
            ));
        }
        resolver.add_record("localhost", IpAddress::localhost_v6());
        proof {
            assert(seq![IpAddress::V4(127, 0, 0, 1)].push(IpAddress::V6(0, 0, 0, 0, 0, 0, 0, 1)) =~= seq![IpAddress::V4(127, 0, 0, 1), IpAddress::V6(0, 0, 0, 0, 0, 0, 0, 1)]);
            assert(resolver.records_view() =~= Map::<Seq<char>, Seq<IpAddress>>::empty().insert(
                "localhost"@,
                seq![IpAddress::V4(127, 0, 0, 1), IpAddress::V6(0, 0, 0, 0, 0, 0, 0, 1)],
            ));
        }
        resolver
    }

    /// Adds an address to the records of a hostname.
    pub fn add_record(&mut self, hostname: &str, ip: IpAddress)
        requires
            old(self).wf(),
        ensures
            final(self).wf(),
            final(self).records_view() == old(self).records_view().insert(
                hostname@,
                (if old(self).records_view().contains_key(hostname@) {
                    old(self).records_view()[hostname@]
                } else {
                    Seq::<IpAddress>::empty()
                }).push(ip),
            ),
    {
        let mut list = match named_remove(&mut self.records, hostname) {
            Some(v) => v,
            None => Vec::new(),
        };
        list.push(ip);
        let ghost lv = list@;
        named_put(&mut self.records, owned(hostname), list);
        proof {
            assert(self.records_view() =~= old(self).records_view().insert(
                hostname@,
                (if old(self).records_view().contains_key(hostname@) {
                    old(self).records_view()[hostname@]
                } else {
                    Seq::<IpAddress>::empty()
                }).push(ip),
            ));
        }
    }

    /// Resolves a hostname to its addresses; fails for a hostname with none.
    pub fn resolve(&self, hostname: &str) -> (r: Result<Vec<IpAddress>, SocketError>)
        requires
            self.wf(),
        ensures
            match r {
                Ok(v) => self.records_view().contains_key(hostname@) && v@ == self.records_view()[hostname@]
                    && v@.len() > 0,
                Err(e) => !(self.records_view().contains_key(hostname@)
                    && self.records_view()[hostname@].len() > 0) && (e matches SocketError::NameResolutionFailed(h)
                    && h@ == hostname@),
            },
    {
        match named_get(&self.records, hostname) {
            Some(v) => {
                if v.len() > 0 {
                    let c = v.clone();
                    proof {
                        assert(c@ =~= v@);
                    }
                    Ok(c)
                } else {
                    Err(SocketError::NameResolutionFailed(owned(hostname)))
                }
            },
            None => Err(SocketError::NameResolutionFailed(owned(hostname))),
        }
    }
}

impl Default for DnsResolver {
    fn default() -> (r: Self)
        ensures
            r.wf(),
            r.records_view() == Map::<Seq<char>, Seq<IpAddress>>::empty(),
    {
        let r = DnsResolver { records: Vec::new() };
        proof {
            assert(named_entries(r.records@) =~= Seq::empty());
            assert(r.records_view() =~= Map::<Seq<char>, Seq<IpAddress>>::empty());
        }
        r
    }
}


// ═════════════════════════════════════════════════════════════════════
// Address tables
// ═════════════════════════════════════════════════════════════════════

fn addr_find(v: &Vec<(SocketAddr, u32)>, a: &SocketAddr) -> (r: Option<usize>)
    ensures
        match r {
            Some(i) => i < v@.len() && v@[i as int].0 == *a,
            None => forall|j: int| 0 <= j < v@.len() ==> v@[j].0 != *a,
        },
{
    let mut i: usize = 0;
    while i < v.len()
        invariant
            i <= v@.len(),
            forall|j: int| 0 <= j < i ==> v@[j].0 != *a,
        decreases v@.len() - i,
    {
        if v[i].0 == *a {
            return Some(i);
        }
        i = i + 1;
    }
    None
}

fn addr_get(v: &Vec<(SocketAddr, u32)>, a: &SocketAddr) -> (r: Option<u32>)
    requires
        keys_distinct(v@),
    ensures
        match r {
            Some(h) => assoc_map(v@).contains_key(*a) && assoc_map(v@)[*a] == h,
            None => !assoc_map(v@).contains_key(*a),
        },
{
    match addr_find(v, a) {
        Some(i) => {
            proof {
                lemma_assoc_lookup(v@, i as int);
            }
            Some(v[i].1)
        },
        None => {
            proof {
                lemma_assoc_absent(v@, *a);
            }
            None
        },
    }
}

fn addr_put(v: &mut Vec<(SocketAddr, u32)>, a: SocketAddr, h: u32)
    requires
        keys_distinct(old(v)@),
    ensures
        keys_distinct(final(v)@),
        assoc_map(final(v)@) == assoc_map(old(v)@).insert(a, h),
{
    match addr_find(v, &a) {
        Some(i) => {
            proof {
                lemma_assoc_update(v@, i as int, h);
            }
            v.set(i, (a, h));
        },
        None => {
            proof {
                lemma_assoc_push(v@, a, h);
            }
            v.push((a, h));
        },
    }
}

fn addr_remove(v: &mut Vec<(SocketAddr, u32)>, a: &SocketAddr)
    requires
        keys_distinct(old(v)@),
    ensures
        keys_distinct(final(v)@),
        assoc_map(final(v)@) == assoc_map(old(v)@).remove(*a),
{
    match addr_find(v, a) {
        Some(i) => {
            proof {
                lemma_assoc_remove(v@, i as int);
            }
            v.remove(i);
        },
        None => {
            proof {
                lemma_assoc_absent(v@, *a);
                assert(assoc_map(v@).remove(*a) =~= assoc_map(v@));
            }
        },
    }
}

// ═════════════════════════════════════════════════════════════════════
// Socket table
// ═════════════════════════════════════════════════════════════════════

/// The central table of open sockets (TCP and UDP), with the addresses
/// bound by listeners and UDP sockets, and the DNS resolver.
#[derive(Debug)]
pub struct SocketTable {
    /// Open TCP sockets.
    pub tcp_sockets: HashMap<u32, TcpSocket>,
    /// Open UDP sockets.
    pub udp_sockets: HashMap<u32, UdpSocket>,
    bound_tcp: Vec<(SocketAddr, u32)>,
    bound_udp: Vec<(SocketAddr, u32)>,
    /// DNS resolver for hostname lookups.
    pub dns: DnsResolver,
    next_handle: u32,
    next_ephemeral_port: u16,
}

/// `b` holds the same data as `a`: options, buffers, queue and counters.
pub open spec fn tcp_same_data(a: TcpSocket, b: TcpSocket) -> bool {
    &&& b.opts() == a.opts()
    &&& b.recv_q() == a.recv_q()
    &&& b.send_q() == a.send_q()
    &&& b.accepts() == a.accepts()
    &&& b.rx() == a.rx()
    &&& b.tx() == a.tx()
}

/// `b` is `a` but for its state and addresses.
pub open spec fn tcp_moved(a: TcpSocket, b: TcpSocket, st: TcpState, local: Option<SocketAddr>, remote: Option<SocketAddr>) -> bool {
    tcp_same_data(a, b) && b.st() == st && b.local() == local && b.remote() == remote
}

/// A listener's accept queue after the connections `cs` finish against it,
/// in order, starting from the queue `q`: each is appended.
pub open spec fn queue_after_connects(q: Seq<u32>, cs: Seq<u32>) -> Seq<u32>
    decreases cs.len(),
{
    if cs.len() == 0 {
        q
    } else {
        queue_after_connects(q, cs.drop_last()).push(cs.last())
    }
}

/// A listener's accept queue after `k` accepts from the queue `q`: each
/// takes the front.
pub open spec fn queue_after_accepts(q: Seq<u32>, k: nat) -> Seq<u32>
    decreases k,
{
    if k == 0 {
        q
    } else {
        queue_after_accepts(q, (k - 1) as nat).drop_first()
    }
}

proof fn lemma_queue_after_connects(q: Seq<u32>, cs: Seq<u32>)
    ensures
        queue_after_connects(q, cs) == q + cs,
    decreases cs.len(),
{
    if cs.len() > 0 {
        lemma_queue_after_connects(q, cs.drop_last());
        assert(q + cs.drop_last() + seq![cs.last()] =~= q + cs);
    }
}

proof fn lemma_queue_after_accepts(q: Seq<u32>, k: nat)
    requires
        k <= q.len(),
    ensures
        queue_after_accepts(q, k) == q.skip(k as int),
    decreases k,
{
    if k > 0 {
        lemma_queue_after_accepts(q, (k - 1) as nat);
        assert(q.skip(k - 1).drop_first() =~= q.skip(k as int));
    }
}

/// Connections are accepted first in, first out: when clients `cs` finish
/// connecting to a listener with an empty queue, in that order, the
/// accept after `k` earlier accepts takes `cs[k]`, and once all are
/// accepted the queue is empty (the next accept would block).
pub proof fn law_accept_fifo(cs: Seq<u32>, k: nat)
    requires
        k < cs.len(),
    ensures
        queue_after_accepts(queue_after_connects(Seq::empty(), cs), k).len() > 0,
        queue_after_accepts(queue_after_connects(Seq::empty(), cs), k)[0] == cs[k as int],
        queue_after_accepts(queue_after_connects(Seq::empty(), cs), cs.len()).len() == 0,
{
    lemma_queue_after_connects(Seq::empty(), cs);
    assert(Seq::<u32>::empty() + cs =~= cs);
    lemma_queue_after_accepts(cs, k);
    lemma_queue_after_accepts(cs, cs.len());
}

/// Receiving at most `max_len` bytes from `s` gives `r` and leaves `f`:
/// an unconnected socket or an empty buffer fails and changes nothing;
/// otherwise the oldest bytes come out and are counted.
pub open spec fn tcp_recv_outcome(s: TcpSocket, max_len: usize, f: TcpSocket, r: Result<Vec<u8>, SocketError>) -> bool {
    if s.st() != TcpState::Connected {
        r == Err::<Vec<u8>, SocketError>(SocketError::NotConnected) && f == s
    } else if s.recv_q().len() == 0 {
        r == Err::<Vec<u8>, SocketError>(SocketError::WouldBlock) && f == s
    } else {
        let n = if max_len < s.recv_q().len() {
            max_len as int
        } else {
            s.recv_q().len() as int
        };
        &&& r matches Ok(d) && d@ == s.recv_q().take(n)
        &&& f.recv_q() == s.recv_q().skip(n)
        &&& f.rx() == s.rx() + n
        &&& f.st() == s.st() && f.local() == s.local() && f.remote() == s.remote()
        &&& f.opts() == s.opts() && f.send_q() == s.send_q() && f.accepts() == s.accepts()
        &&& f.tx() == s.tx()
    }
}

/// Data arriving for `s` joins the end of its receive buffer.
pub open spec fn tcp_deliver_outcome(s: TcpSocket, data: Seq<u8>, f: TcpSocket) -> bool {
    &&& f.recv_q() == s.recv_q() + data
    &&& f.st() == s.st() && f.local() == s.local() && f.remote() == s.remote()
    &&& f.opts() == s.opts() && f.send_q() == s.send_q() && f.accepts() == s.accepts()
    &&& f.rx() == s.rx() && f.tx() == s.tx()
}

/// Receiving from `s` gives `r` and leaves `f`: the oldest waiting
/// datagram comes out and is counted; none waiting fails.
pub open spec fn udp_receive_outcome(s: UdpSocket, f: UdpSocket, r: Result<Datagram, SocketError>) -> bool {
    if s.inbox().len() == 0 {
        r == Err::<Datagram, SocketError>(SocketError::WouldBlock) && f == s
    } else {
        &&& r == Ok::<Datagram, SocketError>(s.inbox()[0])
        &&& f.inbox() == s.inbox().drop_first()
        &&& f.rx() == s.rx() + s.inbox()[0].data@.len()
        &&& f.local() == s.local() && f.outbox() == s.outbox() && f.opts() == s.opts()
        &&& f.tx() == s.tx()
    }
}

/// A datagram arriving for `s` joins the end of its queue.
pub open spec fn udp_deliver_outcome(s: UdpSocket, d: Datagram, f: UdpSocket) -> bool {
    &&& f.inbox() == s.inbox().push(d)
    &&& f.local() == s.local() && f.outbox() == s.outbox() && f.opts() == s.opts()
    &&& f.rx() == s.rx() && f.tx() == s.tx()
}

/// Bytes delivered to a connected TCP socket come out of it in order:
/// a receive after a delivery gives the oldest bytes of what was waiting
/// followed by what arrived.
pub proof fn law_tcp_deliver_then_recv(
    s0: TcpSocket,
    s1: TcpSocket,
    s2: TcpSocket,
    data: Seq<u8>,
    max_len: usize,
    r: Result<Vec<u8>, SocketError>,
)
    requires
        s0.st() == TcpState::Connected,
        s0.recv_q().len() + data.len() > 0,
        tcp_deliver_outcome(s0, data, s1),
        tcp_recv_outcome(s1, max_len, s2, r),
    ensures
        ({
            let all = s0.recv_q() + data;
            let n = if max_len < all.len() {
                max_len as int
            } else {
                all.len() as int
            };
            r matches Ok(d) && d@ == all.take(n) && s2.recv_q() == all.skip(n)
        }),
{
}

/// Datagrams come out of a UDP socket in the order they arrived: with
/// nothing waiting, a receive after a delivery gives the delivered datagram.
pub proof fn law_udp_deliver_then_receive(
    s0: UdpSocket,
    s1: UdpSocket,
    s2: UdpSocket,
    d: Datagram,
    r: Result<Datagram, SocketError>,
)
    requires
        udp_deliver_outcome(s0, d, s1),
        udp_receive_outcome(s1, s2, r),
    ensures
        r == Ok::<Datagram, SocketError>(if s0.inbox().len() == 0 {
            d
        } else {
            s0.inbox()[0]
        }),
        s0.inbox().len() == 0 ==> s2.inbox().len() == 0,
{
    if s0.inbox().len() > 0 {
        assert(s1.inbox()[0] == s0.inbox()[0]);
    } else {
        assert(s1.inbox()[0] == d);
        assert(s2.inbox().len() == 0);
    }
}

impl SocketTable {
    /// Open TCP sockets, by handle.
    pub closed spec fn tcps(&self) -> Map<u32, TcpSocket> {
        self.tcp_sockets@
    }

    /// Open UDP sockets, by handle.
    pub closed spec fn udps(&self) -> Map<u32, UdpSocket> {
        self.udp_sockets@
    }

    /// Addresses bound by listening TCP sockets.
    pub closed spec fn btcp(&self) -> Map<SocketAddr, u32> {
        assoc_map(self.bound_tcp@)
    }

    /// Addresses bound by UDP sockets.
    pub closed spec fn budp(&self) -> Map<SocketAddr, u32> {
        assoc_map(self.bound_udp@)
    }

    /// The DNS records.
    pub closed spec fn dns_view(&self) -> Map<Seq<char>, Seq<IpAddress>> {
        self.dns.records_view()
    }

    /// The next handle to allocate.
    pub closed spec fn next_h(&self) -> u32 {
        self.next_handle
    }

    /// The next ephemeral port to auto-bind.
    pub closed spec fn next_port(&self) -> u16 {
        self.next_ephemeral_port
    }

    /// The table's invariant: one entry per bound address, a well-formed resolver.
    pub closed spec fn wf(&self) -> bool {
        keys_distinct(self.bound_tcp@) && keys_distinct(self.bound_udp@) && self.dns.wf()
    }

    /// Everything but the TCP sockets is as in `old`.
    pub open spec fn keeps_all_but_tcp(&self, old: &Self) -> bool {
        &&& self.udps() == old.udps()
        &&& self.btcp() == old.btcp()
        &&& self.budp() == old.budp()
        &&& self.dns_view() == old.dns_view()
        &&& self.next_h() == old.next_h()
        &&& self.next_port() == old.next_port()
    }

    /// Everything but the UDP sockets is as in `old`.
    pub open spec fn keeps_all_but_udp(&self, old: &Self) -> bool {
        &&& self.tcps() == old.tcps()
        &&& self.btcp() == old.btcp()
        &&& self.budp() == old.budp()
        &&& self.dns_view() == old.dns_view()
        &&& self.next_h() == old.next_h()
        &&& self.next_port() == old.next_port()
    }

    /// Creates a new socket table with the default DNS entries.
    pub fn new() -> (t: Self)
        ensures
            t.wf(),
            t.tcps() == Map::<u32, TcpSocket>::empty(),
            t.udps() == Map::<u32, UdpSocket>::empty(),
            t.btcp() == Map::<SocketAddr, u32>::empty(),
            t.budp() == Map::<SocketAddr, u32>::empty(),
            t.dns_view() == Map::<Seq<char>, Seq<IpAddress>>::empty().insert(
                "localhost"@,
                seq![IpAddress::V4(127, 0, 0, 1), IpAddress::V6(0, 0, 0, 0, 0, 0, 0, 1)],
            ),
            t.next_h() == 1,
            t.next_port() == 49152,
    {
        SocketTable {
            tcp_sockets: HashMap::new(),
            udp_sockets: HashMap::new(),
            bound_tcp: Vec::new(),
            bound_udp: Vec::new(),
            dns: DnsResolver::new(),
            next_handle: 1,
            next_ephemeral_port: 49152,
        }
    }

    fn alloc_handle(&mut self) -> (h: u32)
        requires
            old(self).next_h() < u32::MAX,
        ensures
            h == old(self).next_h(),
            final(self).next_h() == h + 1,
            final(self).tcps() == old(self).tcps(),
            final(self).udps() == old(self).udps(),
            final(self).btcp() == old(self).btcp(),
            final(self).budp() == old(self).budp(),
            final(self).dns_view() == old(self).dns_view(),
            final(self).next_port() == old(self).next_port(),
            final(self).wf() == old(self).wf(),
    {
        let h = self.next_handle;
        self.next_handle = self.next_handle + 1;
        h
    }

    /// Creates a new TCP socket and returns its handle.
    pub fn tcp_create(&mut self) -> (h: u32)
        requires
            old(self).wf(),
            old(self).next_h() < u32::MAX,
        ensures
            final(self).wf(),
            h == old(self).next_h(),
            final(self).next_h() == h + 1,
            final(self).tcps() == old(self).tcps().insert(h, final(self).tcps()[h]),
            final(self).tcps()[h].fresh(),
            final(self).udps() == old(self).udps(),
            final(self).btcp() == old(self).btcp(),
            final(self).budp() == old(self).budp(),
            final(self).dns_view() == old(self).dns_view(),
            final(self).next_port() == old(self).next_port(),
    {
        let handle = self.alloc_handle();
        self.tcp_sockets.insert(handle, TcpSocket::new());
        handle
    }

    /// Binds a TCP socket to a local address: the socket must be closed,
    /// and the address not bound by a listener unless the socket allows reuse.
    pub fn tcp_bind(&mut self, handle: u32, addr: SocketAddr) -> (r: Result<(), SocketError>)
        requires
            old(self).wf(),
        ensures
            final(self).wf(),
            final(self).keeps_all_but_tcp(old(self)),
            !old(self).tcps().contains_key(handle) ==> r == Err::<(), SocketError>(SocketError::BadHandle)
                && final(self).tcps() == old(self).tcps(),
            old(self).tcps().contains_key(handle) ==> ({
                let s = old(self).tcps()[handle];
                if s.st() != TcpState::Closed {
                    (r matches Err(e) && is_state_error(e, "cannot bind in state: "@, s.st()))
                        && final(self).tcps() == old(self).tcps()
                } else if old(self).btcp().contains_key(addr) && !s.opts().reuse_address {
                    r == Err::<(), SocketError>(SocketError::AddressInUse) && final(self).tcps()
                        == old(self).tcps()
                } else {
                    &&& r is Ok
                    &&& final(self).tcps() == old(self).tcps().insert(handle, final(self).tcps()[handle])
                    &&& tcp_moved(s, final(self).tcps()[handle], s.st(), Some(addr), s.remote())
                }
            }),
    {
        let mut sock = match self.tcp_sockets.remove(&handle) {
            Some(s) => s,
            None => {
                return Err(SocketError::BadHandle);
            },
        };
        let ghost t0 = old(self).tcp_sockets@;
        if sock.state != TcpState::Closed {
            let e = state_error("cannot bind in state: ", sock.state);
            self.tcp_sockets.insert(handle, sock);
            proof {
                assert(self.tcp_sockets@ =~= t0);
            }
            return Err(e);
        }
        if addr_get(&self.bound_tcp, &addr).is_some() && !sock.options.reuse_address {
            self.tcp_sockets.insert(handle, sock);
            proof {
                assert(self.tcp_sockets@ =~= t0);
            }
            return Err(SocketError::AddressInUse);
        }
        sock.local_addr = Some(addr);
        self.tcp_sockets.insert(handle, sock);
        proof {
            assert(self.tcp_sockets@ =~= t0.insert(handle, self.tcp_sockets@[handle]));
        }
        Ok(())
    }

    /// Starts a TCP connection: the socket must be closed; an unbound socket
    /// is bound to 127.0.0.1 at the next ephemeral port; the socket records
    /// the remote address and becomes `Connecting`.
    pub fn tcp_start_connect(&mut self, handle: u32, remote: SocketAddr) -> (r: Result<(), SocketError>)
        requires
            old(self).wf(),
            old(self).tcps().contains_key(handle) && old(self).tcps()[handle].st() == TcpState::Closed
                && old(self).tcps()[handle].local() is None ==> old(self).next_port() < u16::MAX,
        ensures
            final(self).wf(),
            final(self).udps() == old(self).udps(),
            final(self).btcp() == old(self).btcp(),
            final(self).budp() == old(self).budp(),
            final(self).dns_view() == old(self).dns_view(),
            final(self).next_h() == old(self).next_h(),
            !old(self).tcps().contains_key(handle) ==> r == Err::<(), SocketError>(SocketError::BadHandle)
                && final(self).tcps() == old(self).tcps() && final(self).next_port() == old(self).next_port(),
            old(self).tcps().contains_key(handle) ==> ({
                let s = old(self).tcps()[handle];
                if s.st() != TcpState::Closed {
                    (r matches Err(e) && is_state_error(e, "cannot connect in state: "@, s.st()))
                        && final(self).tcps() == old(self).tcps() && final(self).next_port() == old(self).next_port()
                } else {
                    &&& r is Ok
                    &&& final(self).tcps() == old(self).tcps().insert(handle, final(self).tcps()[handle])
                    &&& match s.local() {
                        Some(a) => tcp_moved(s, final(self).tcps()[handle], TcpState::Connecting, Some(a), Some(remote))
                            && final(self).next_port() == old(self).next_port(),
                        None => tcp_moved(
                            s,
                            final(self).tcps()[handle],
                            TcpState::Connecting,
                            Some(SocketAddr { ip: IpAddress::V4(127, 0, 0, 1), port: old(self).next_port() }),
                            Some(remote),
                        ) && final(self).next_port() == old(self).next_port() + 1,
                    }
                }
            }),
    {
        let mut sock = match self.tcp_sockets.remove(&handle) {
            Some(s) => s,
            None => {
                return Err(SocketError::BadHandle);
            },
        };
        let ghost t0 = old(self).tcp_sockets@;
        if sock.state != TcpState::Closed {
            let e = state_error("cannot connect in state: ", sock.state);
            self.tcp_sockets.insert(handle, sock);
            proof {
                assert(self.tcp_sockets@ =~= t0);
            }
            return Err(e);
        }
        if sock.local_addr.is_none() {
            let port = self.next_ephemeral_port;
            self.next_ephemeral_port = self.next_ephemeral_port + 1;
            sock.local_addr = Some(SocketAddr::new(IpAddress::localhost_v4(), port));
        }
        sock.remote_addr = Some(remote);
        sock.state = TcpState::Connecting;
        self.tcp_sockets.insert(handle, sock);
        proof {
            assert(self.tcp_sockets@ =~= t0.insert(handle, self.tcp_sockets@[handle]));
        }
        Ok(())
    }

    /// Finishes a TCP connection: a connecting socket whose remote address
    /// is bound by a listener becomes `Connected` and joins the listener's
    /// accept queue; with no listener it goes back to `Closed` (forgetting
    /// the remote address) and the connection is refused.
    pub fn tcp_finish_connect(&mut self, handle: u32) -> (r: Result<(), SocketError>)
        requires
            old(self).wf(),
        ensures
            final(self).wf(),
            final(self).keeps_all_but_tcp(old(self)),
            final(self).tcps().dom() == old(self).tcps().dom(),
            !old(self).tcps().contains_key(handle) ==> r == Err::<(), SocketError>(SocketError::BadHandle)
                && final(self).tcps() == old(self).tcps(),
            old(self).tcps().contains_key(handle) ==> ({
                let s = old(self).tcps()[handle];
                if s.st() != TcpState::Connecting {
                    (r matches Err(e) && is_state_error(e, "cannot finish connect in state: "@, s.st()))
                        && final(self).tcps() == old(self).tcps()
                } else if s.remote() is None {
                    r == Err::<(), SocketError>(SocketError::NotConnected) && final(self).tcps() == old(self).tcps()
                } else if old(self).btcp().contains_key(s.remote()->0) {
                    let l = old(self).btcp()[s.remote()->0];
                    &&& r is Ok
                    &&& final(self).tcps()[handle].st() == TcpState::Connected
                    &&& final(self).tcps()[handle].local() == s.local()
                    &&& final(self).tcps()[handle].remote() == s.remote()
                    &&& l != handle ==> tcp_same_data(s, final(self).tcps()[handle])
                    &&& (l != handle && old(self).tcps().contains_key(l)) ==> {
                        let ls = old(self).tcps()[l];
                        &&& final(self).tcps()[l].accepts() == ls.accepts().push(handle)
                        &&& final(self).tcps()[l].st() == ls.st()
                        &&& final(self).tcps()[l].local() == ls.local()
                        &&& final(self).tcps()[l].remote() == ls.remote()
                        &&& final(self).tcps()[l].recv_q() == ls.recv_q()
                        &&& final(self).tcps()[l].send_q() == ls.send_q()
                    }
                    &&& forall|k: u32| k != handle && k != l && old(self).tcps().contains_key(k)
                        ==> final(self).tcps()[k] == old(self).tcps()[k]
                } else {
                    &&& r == Err::<(), SocketError>(SocketError::ConnectionRefused)
                    &&& final(self).tcps() == old(self).tcps().insert(handle, final(self).tcps()[handle])
                    &&& tcp_moved(s, final(self).tcps()[handle], TcpState::Closed, s.local(), None)
                }
            }),
    {
        let ghost t0 = old(self).tcp_sockets@;
        let remote = match self.tcp_sockets.get(&handle) {
            Some(sock) => {
                if sock.state != TcpState::Connecting {
                    return Err(state_error("cannot finish connect in state: ", sock.state));
                }
                sock.remote_addr
            },
            None => {
                return Err(SocketError::BadHandle);
            },
        };
        let remote = match remote {
            Some(r) => r,
            None => {
                return Err(SocketError::NotConnected);
            },
        };
        match addr_get(&self.bound_tcp, &remote) {
            Some(listener_h) => {
                let mut sock = self.tcp_sockets.remove(&handle).unwrap();
                sock.state = TcpState::Connected;
                self.tcp_sockets.insert(handle, sock);
                let ghost t1 = self.tcp_sockets@;
                proof {
                    assert(t1 =~= t0.insert(handle, t1[handle]));
                }
                match self.tcp_sockets.remove(&listener_h) {
                    Some(mut listener) => {
                        listener.accept_queue.push_back(handle);
                        self.tcp_sockets.insert(listener_h, listener);
                        proof {
                            assert(self.tcp_sockets@ =~= t1.insert(listener_h, self.tcp_sockets@[listener_h]));
                        }
                    },
                    None => {
                        proof {
                            assert(self.tcp_sockets@ =~= t1);
                        }
                    },
                }
                Ok(())
            },
            None => {
                let mut sock = self.tcp_sockets.remove(&handle).unwrap();
                sock.state = TcpState::Closed;
                sock.remote_addr = None;
                self.tcp_sockets.insert(handle, sock);
                proof {
                    assert(self.tcp_sockets@ =~= t0.insert(handle, self.tcp_sockets@[handle]));
                }
                Err(SocketError::ConnectionRefused)
            },
        }
    }

    /// Starts listening on the socket's bound address: the socket must be
    /// closed and bound, and no other listener may hold the address.
    pub fn tcp_start_listen(&mut self, handle: u32) -> (r: Result<(), SocketError>)
        requires
            old(self).wf(),
        ensures
            final(self).wf(),
            final(self).udps() == old(self).udps(),
            final(self).budp() == old(self).budp(),
            final(self).dns_view() == old(self).dns_view(),
            final(self).next_h() == old(self).next_h(),
            final(self).next_port() == old(self).next_port(),
            !old(self).tcps().contains_key(handle) ==> r == Err::<(), SocketError>(SocketError::BadHandle)
                && final(self).tcps() == old(self).tcps() && final(self).btcp() == old(self).btcp(),
            old(self).tcps().contains_key(handle) ==> ({
                let s = old(self).tcps()[handle];
                if s.st() != TcpState::Closed {
                    (r matches Err(e) && is_state_error(e, "cannot listen in state: "@, s.st()))
                        && final(self).tcps() == old(self).tcps() && final(self).btcp() == old(self).btcp()
                } else if s.local() is None {
                    (r matches Err(e) && e matches SocketError::InvalidState(m) && m@
                        == "socket must be bound before listening"@) && final(self).tcps() == old(self).tcps()
                        && final(self).btcp() == old(self).btcp()
                } else if old(self).btcp().contains_key(s.local()->0) && old(self).btcp()[s.local()->0]
                    != handle {
                    r == Err::<(), SocketError>(SocketError::AddressInUse) && final(self).tcps() == old(self).tcps()
                        && final(self).btcp() == old(self).btcp()
                } else {
                    &&& r is Ok
                    &&& final(self).tcps() == old(self).tcps().insert(handle, final(self).tcps()[handle])
                    &&& tcp_moved(s, final(self).tcps()[handle], TcpState::Listening, s.local(), s.remote())
                    &&& final(self).btcp() == old(self).btcp().insert(s.local()->0, handle)
                }
            }),
    {
        let mut sock = match self.tcp_sockets.remove(&handle) {
            Some(s) => s,
            None => {
                return Err(SocketError::BadHandle);
            },
        };
        let ghost t0 = old(self).tcp_sockets@;
        if sock.state != TcpState::Closed {
            let e = state_error("cannot listen in state: ", sock.state);
            self.tcp_sockets.insert(handle, sock);
            proof {
                assert(self.tcp_sockets@ =~= t0);
            }
            return Err(e);
        }
        let addr = match sock.local_addr {
            Some(a) => a,
            None => {
                self.tcp_sockets.insert(handle, sock);
                proof {
                    assert(self.tcp_sockets@ =~= t0);
                }
                return Err(SocketError::InvalidState(owned("socket must be bound before listening")));
            },
        };
        match addr_get(&self.bound_tcp, &addr) {
            Some(existing) => {
                if existing != handle {
                    self.tcp_sockets.insert(handle, sock);
                    proof {
                        assert(self.tcp_sockets@ =~= t0);
                    }
                    return Err(SocketError::AddressInUse);
                }
            },
            None => {},
        }
        sock.state = TcpState::Listening;
        self.tcp_sockets.insert(handle, sock);
        proof {
            assert(self.tcp_sockets@ =~= t0.insert(handle, self.tcp_sockets@[handle]));
        }
        addr_put(&mut self.bound_tcp, addr, handle);
        Ok(())
    }

    /// Accepts the first waiting client of a listening socket: returns the
    /// client's handle and a new connected peer socket whose local address
    /// is the listener's and whose remote address is the client's.
    pub fn tcp_accept(&mut self, handle: u32) -> (r: Result<(u32, u32), SocketError>)
        requires
            old(self).wf(),
            old(self).next_h() < u32::MAX,
        ensures
            final(self).wf(),
            final(self).udps() == old(self).udps(),
            final(self).btcp() == old(self).btcp(),
            final(self).budp() == old(self).budp(),
            final(self).dns_view() == old(self).dns_view(),
            final(self).next_port() == old(self).next_port(),
            !old(self).tcps().contains_key(handle) ==> r == Err::<(u32, u32), SocketError>(SocketError::BadHandle)
                && final(self).tcps() == old(self).tcps() && final(self).next_h() == old(self).next_h(),
            old(self).tcps().contains_key(handle) ==> ({
                let s = old(self).tcps()[handle];
                if s.st() != TcpState::Listening {
                    (r matches Err(e) && is_state_error(e, "cannot accept in state: "@, s.st()))
                        && final(self).tcps() == old(self).tcps() && final(self).next_h() == old(self).next_h()
                } else if s.accepts().len() == 0 {
                    r == Err::<(u32, u32), SocketError>(SocketError::WouldBlock) && final(self).tcps()
                        == old(self).tcps() && final(self).next_h() == old(self).next_h()
                } else {
                    let client = s.accepts()[0];
                    let peer = old(self).next_h();
                    &&& r == Ok::<(u32, u32), SocketError>((client, peer))
                    &&& final(self).next_h() == peer + 1
                    &&& final(self).tcps().dom() == old(self).tcps().dom().insert(peer)
                    &&& final(self).tcps()[peer].st() == TcpState::Connected
                    &&& final(self).tcps()[peer].local() == s.local()
                    &&& final(self).tcps()[peer].remote() == (if old(self).tcps().contains_key(client) {
                        if client == handle {
                            s.local()
                        } else {
                            old(self).tcps()[client].local()
                        }
                    } else {
                        None
                    })
                    &&& final(self).tcps()[peer].recv_q() == Seq::<u8>::empty()
                    &&& final(self).tcps()[peer].send_q() == Seq::<u8>::empty()
                    &&& final(self).tcps()[peer].rx() == 0
                    &&& final(self).tcps()[peer].tx() == 0
                    &&& peer != handle ==> final(self).tcps()[handle].accepts() == s.accepts().drop_first()
                    &&& peer != handle ==> final(self).tcps()[handle].st() == TcpState::Listening
                    &&& peer != handle ==> final(self).tcps()[handle].local() == s.local()
                    &&& peer != handle ==> final(self).tcps()[handle].remote() == s.remote()
                    &&& forall|k: u32| k != handle && k != peer && old(self).tcps().contains_key(k)
                        ==> final(self).tcps()[k] == old(self).tcps()[k]
                }
            }),
    {
        let mut sock = match self.tcp_sockets.remove(&handle) {
            Some(s) => s,
            None => {
                return Err(SocketError::BadHandle);
            },
        };
        let ghost t0 = old(self).tcp_sockets@;
        if sock.state != TcpState::Listening {
            let e = state_error("cannot accept in state: ", sock.state);
            self.tcp_sockets.insert(handle, sock);
            proof {
                assert(self.tcp_sockets@ =~= t0);
            }
            return Err(e);
        }
        if sock.accept_queue.len() == 0 {
            self.tcp_sockets.insert(handle, sock);
            proof {
                assert(self.tcp_sockets@ =~= t0);
            }
            return Err(SocketError::WouldBlock);
        }
        let client_handle = match sock.accept_queue.pop_front() {
            Some(c) => c,
            None => {
                proof {
                    assert(false);
                }
                0
            },
        };
        self.tcp_sockets.insert(handle, sock);
        let ghost t1 = self.tcp_sockets@;
        let client_local = match self.tcp_sockets.get(&client_handle) {
            Some(c) => c.local_addr,
            None => None,
        };
        let server_local = match self.tcp_sockets.get(&handle) {
            Some(s) => s.local_addr,
            None => None,
        };
        let peer_handle = self.alloc_handle();
        let mut peer = TcpSocket::new();
        peer.state = TcpState::Connected;
        peer.local_addr = server_local;
        peer.remote_addr = client_local;
        self.tcp_sockets.insert(peer_handle, peer);
        proof {
            assert(self.tcp_sockets@.dom() =~= t0.dom().insert(peer_handle));
        }
        Ok((client_handle, peer_handle))
    }

    /// Sends data over a connected TCP socket: it joins the send buffer.
    pub fn tcp_send(&mut self, handle: u32, data: &[u8]) -> (r: Result<u64, SocketError>)
        requires
            old(self).wf(),
            old(self).tcps().contains_key(handle) ==> old(self).tcps()[handle].tx() + data@.len() <= u64::MAX,
        ensures
            final(self).wf(),
            final(self).keeps_all_but_tcp(old(self)),
            !old(self).tcps().contains_key(handle) ==> r == Err::<u64, SocketError>(SocketError::BadHandle)
                && final(self).tcps() == old(self).tcps(),
            old(self).tcps().contains_key(handle) ==> ({
                let s = old(self).tcps()[handle];
                if s.st() != TcpState::Connected {
                    r == Err::<u64, SocketError>(SocketError::NotConnected) && final(self).tcps() == old(self).tcps()
                } else {
                    let f = final(self).tcps()[handle];
                    &&& r == Ok::<u64, SocketError>(data@.len() as u64)
                    &&& final(self).tcps() == old(self).tcps().insert(handle, f)
                    &&& f.send_q() == s.send_q() + data@
                    &&& f.tx() == s.tx() + data@.len()
                    &&& f.st() == s.st() && f.local() == s.local() && f.remote() == s.remote()
                    &&& f.opts() == s.opts() && f.recv_q() == s.recv_q() && f.accepts() == s.accepts()
                    &&& f.rx() == s.rx()
                }
            }),
    {
        let mut sock = match self.tcp_sockets.remove(&handle) {
            Some(s) => s,
            None => {
                return Err(SocketError::BadHandle);
            },
        };
        let ghost t0 = old(self).tcp_sockets@;
        if sock.state != TcpState::Connected {
            self.tcp_sockets.insert(handle, sock);
            proof {
                assert(self.tcp_sockets@ =~= t0);
            }
            return Err(SocketError::NotConnected);
        }
        extend_deque(&mut sock.send_buffer, data);
        sock.bytes_sent = sock.bytes_sent + data.len() as u64;
        self.tcp_sockets.insert(handle, sock);
        proof {
            assert(self.tcp_sockets@ =~= t0.insert(handle, self.tcp_sockets@[handle]));
        }
        Ok(data.len() as u64)
    }

    /// Receives up to `max_len` bytes from a connected TCP socket's receive
    /// buffer; an empty buffer gives `WouldBlock`.
    pub fn tcp_recv(&mut self, handle: u32, max_len: usize) -> (r: Result<Vec<u8>, SocketError>)
        requires
            old(self).wf(),
            old(self).tcps().contains_key(handle) ==> old(self).tcps()[handle].rx()
                + old(self).tcps()[handle].recv_q().len() <= u64::MAX,
        ensures
            final(self).wf(),
            final(self).keeps_all_but_tcp(old(self)),
            !old(self).tcps().contains_key(handle) ==> r == Err::<Vec<u8>, SocketError>(SocketError::BadHandle)
                && final(self).tcps() == old(self).tcps(),
            old(self).tcps().contains_key(handle) ==> final(self).tcps() == old(self).tcps().insert(
                handle,
                final(self).tcps()[handle],
            ) && tcp_recv_outcome(old(self).tcps()[handle], max_len, final(self).tcps()[handle], r),
    {
        let mut sock = match self.tcp_sockets.remove(&handle) {
            Some(s) => s,
            None => {
                return Err(SocketError::BadHandle);
            },
        };
        let ghost t0 = old(self).tcp_sockets@;
        if sock.state != TcpState::Connected {
            self.tcp_sockets.insert(handle, sock);
            proof {
                assert(self.tcp_sockets@ =~= t0);
            }
            return Err(SocketError::NotConnected);
        }
        if sock.recv_buffer.len() == 0 {
            self.tcp_sockets.insert(handle, sock);
            proof {
                assert(self.tcp_sockets@ =~= t0);
            }
            return Err(SocketError::WouldBlock);
        }
        let n = if max_len < sock.recv_buffer.len() {
            max_len
        } else {
            sock.recv_buffer.len()
        };
        let data = drain_front(&mut sock.recv_buffer, n);
        sock.bytes_received = sock.bytes_received + data.len() as u64;
        self.tcp_sockets.insert(handle, sock);
        proof {
            assert(self.tcp_sockets@ =~= t0.insert(handle, self.tcp_sockets@[handle]));
        }
        Ok(data)
    }

    /// Appends data to a TCP socket's receive buffer (network arrival).
    pub fn tcp_deliver(&mut self, handle: u32, data: &[u8]) -> (r: Result<(), SocketError>)
        requires
            old(self).wf(),
        ensures
            final(self).wf(),
            final(self).keeps_all_but_tcp(old(self)),
            !old(self).tcps().contains_key(handle) ==> r == Err::<(), SocketError>(SocketError::BadHandle)
                && final(self).tcps() == old(self).tcps(),
            old(self).tcps().contains_key(handle) ==> r is Ok && final(self).tcps() == old(self).tcps().insert(
                handle,
                final(self).tcps()[handle],
            ) && tcp_deliver_outcome(old(self).tcps()[handle], data@, final(self).tcps()[handle]),
    {
        let mut sock = match self.tcp_sockets.remove(&handle) {
            Some(s) => s,
            None => {
                return Err(SocketError::BadHandle);
            },
        };
        let ghost t0 = old(self).tcp_sockets@;
        extend_deque(&mut sock.recv_buffer, data);
        self.tcp_sockets.insert(handle, sock);
        proof {
            assert(self.tcp_sockets@ =~= t0.insert(handle, self.tcp_sockets@[handle]));
        }
        Ok(())
    }

    /// Closes a TCP socket, releasing its address if it holds it as a listener.
    pub fn tcp_close(&mut self, handle: u32) -> (r: Result<(), SocketError>)
        requires
            old(self).wf(),
        ensures
            final(self).wf(),
            final(self).udps() == old(self).udps(),
            final(self).budp() == old(self).budp(),
            final(self).dns_view() == old(self).dns_view(),
            final(self).next_h() == old(self).next_h(),
            final(self).next_port() == old(self).next_port(),
            !old(self).tcps().contains_key(handle) ==> r == Err::<(), SocketError>(SocketError::BadHandle)
                && final(self).tcps() == old(self).tcps() && final(self).btcp() == old(self).btcp(),
            old(self).tcps().contains_key(handle) ==> {
                &&& r is Ok
                &&& final(self).tcps() == old(self).tcps().remove(handle)
                &&& final(self).btcp() == match old(self).tcps()[handle].local() {
                    Some(a) => if old(self).btcp().contains_key(a) && old(self).btcp()[a] == handle {
                        old(self).btcp().remove(a)
                    } else {
                        old(self).btcp()
                    },
                    None => old(self).btcp(),
                }
            },
    {
        let sock = match self.tcp_sockets.remove(&handle) {
            Some(s) => s,
            None => {
                return Err(SocketError::BadHandle);
            },
        };
        match sock.local_addr {
            Some(addr) => {
                match addr_get(&self.bound_tcp, &addr) {
                    Some(bound_handle) => {
                        if bound_handle == handle {
                            addr_remove(&mut self.bound_tcp, &addr);
                        }
                    },
                    None => {},
                }
            },
            None => {},
        }
        Ok(())
    }

    /// Creates a new UDP socket and returns its handle.
    pub fn udp_create(&mut self) -> (h: u32)
        requires
            old(self).wf(),
            old(self).next_h() < u32::MAX,
        ensures
            final(self).wf(),
            h == old(self).next_h(),
            final(self).next_h() == h + 1,
            final(self).udps() == old(self).udps().insert(h, final(self).udps()[h]),
            final(self).udps()[h].fresh(),
            final(self).tcps() == old(self).tcps(),
            final(self).btcp() == old(self).btcp(),
            final(self).budp() == old(self).budp(),
            final(self).dns_view() == old(self).dns_view(),
            final(self).next_port() == old(self).next_port(),
    {
        let handle = self.alloc_handle();
        self.udp_sockets.insert(handle, UdpSocket::new());
        handle
    }

    /// Binds a UDP socket to a local address: the socket must be unbound,
    /// and the address free unless the socket allows reuse.
    pub fn udp_bind(&mut self, handle: u32, addr: SocketAddr) -> (r: Result<(), SocketError>)
        requires
            old(self).wf(),
        ensures
            final(self).wf(),
            final(self).tcps() == old(self).tcps(),
            final(self).btcp() == old(self).btcp(),
            final(self).dns_view() == old(self).dns_view(),
            final(self).next_h() == old(self).next_h(),
            final(self).next_port() == old(self).next_port(),
            !old(self).udps().contains_key(handle) ==> r == Err::<(), SocketError>(SocketError::BadHandle)
                && final(self).udps() == old(self).udps() && final(self).budp() == old(self).budp(),
            old(self).udps().contains_key(handle) ==> ({
                let s = old(self).udps()[handle];
                if s.local() is Some {
                    (r matches Err(e) && e matches SocketError::InvalidState(m) && m@ == "UDP socket already bound"@)
                        && final(self).udps() == old(self).udps() && final(self).budp() == old(self).budp()
                } else if old(self).budp().contains_key(addr) && !s.opts().reuse_address {
                    r == Err::<(), SocketError>(SocketError::AddressInUse) && final(self).udps() == old(self).udps()
                        && final(self).budp() == old(self).budp()
                } else {
                    let f = final(self).udps()[handle];
                    &&& r is Ok
                    &&& final(self).udps() == old(self).udps().insert(handle, f)
                    &&& f.local() == Some(addr)
                    &&& f.opts() == s.opts() && f.inbox() == s.inbox() && f.outbox() == s.outbox()
                    &&& f.rx() == s.rx() && f.tx() == s.tx()
                    &&& final(self).budp() == old(self).budp().insert(addr, handle)
                }
            }),
    {
        let mut sock = match self.udp_sockets.remove(&handle) {
            Some(s) => s,
            None => {
                return Err(SocketError::BadHandle);
            },
        };
        let ghost u0 = old(self).udp_sockets@;
        if sock.local_addr.is_some() {
            self.udp_sockets.insert(handle, sock);
            proof {
                assert(self.udp_sockets@ =~= u0);
            }
            return Err(SocketError::InvalidState(owned("UDP socket already bound")));
        }
        if addr_get(&self.bound_udp, &addr).is_some() && !sock.options.reuse_address {
            self.udp_sockets.insert(handle, sock);
            proof {
                assert(self.udp_sockets@ =~= u0);
            }
            return Err(SocketError::AddressInUse);
        }
        sock.local_addr = Some(addr);
        self.udp_sockets.insert(handle, sock);
        proof {
            assert(self.udp_sockets@ =~= u0.insert(handle, self.udp_sockets@[handle]));
        }
        addr_put(&mut self.bound_udp, addr, handle);
        Ok(())
    }

    /// Sends a datagram: an unbound sender is bound to 127.0.0.1 at the next
    /// ephemeral port; the datagram is logged as sent and counted; and when
    /// the remote address is bound by an open UDP socket, that socket
    /// receives the data with the sender's address.
    pub fn udp_send_to(&mut self, handle: u32, data: &[u8], remote: SocketAddr) -> (r: Result<u64, SocketError>)
        requires
            old(self).wf(),
            old(self).udps().contains_key(handle) ==> old(self).udps()[handle].tx() + data@.len() <= u64::MAX,
            old(self).udps().contains_key(handle) && old(self).udps()[handle].local() is None
                ==> old(self).next_port() < u16::MAX,
        ensures
            final(self).wf(),
            final(self).tcps() == old(self).tcps(),
            final(self).btcp() == old(self).btcp(),
            final(self).budp() == old(self).budp(),
            final(self).dns_view() == old(self).dns_view(),
            final(self).next_h() == old(self).next_h(),
            !old(self).udps().contains_key(handle) ==> r == Err::<u64, SocketError>(SocketError::BadHandle)
                && final(self).udps() == old(self).udps() && final(self).next_port() == old(self).next_port(),
            old(self).udps().contains_key(handle) ==> ({
                let s = old(self).udps()[handle];
                let src = match s.local() {
                    Some(a) => a,
                    None => SocketAddr { ip: IpAddress::V4(127, 0, 0, 1), port: old(self).next_port() },
                };
                let f = final(self).udps()[handle];
                &&& r == Ok::<u64, SocketError>(data@.len() as u64)
                &&& final(self).next_port() == if s.local() is None {
                    (old(self).next_port() + 1) as u16
                } else {
                    old(self).next_port()
                }
                &&& final(self).udps().dom() == old(self).udps().dom()
                &&& f.local() == Some(src)
                &&& f.outbox().len() == s.outbox().len() + 1
                &&& f.outbox().drop_last() == s.outbox()
                &&& f.outbox().last().data@ == data@
                &&& f.outbox().last().remote_addr == remote
                &&& f.tx() == s.tx() + data@.len()
                &&& f.opts() == s.opts() && f.rx() == s.rx()
                &&& (old(self).budp().contains_key(remote) && old(self).budp()[remote] != handle
                    && old(self).udps().contains_key(old(self).budp()[remote])) ==> {
                    let rh = old(self).budp()[remote];
                    let rs = old(self).udps()[rh];
                    let rf = final(self).udps()[rh];
                    &&& rf.inbox().len() == rs.inbox().len() + 1
                    &&& rf.inbox().drop_last() == rs.inbox()
                    &&& rf.inbox().last().data@ == data@
                    &&& rf.inbox().last().remote_addr == src
                    &&& rf.local() == rs.local() && rf.outbox() == rs.outbox() && rf.opts() == rs.opts()
                    &&& rf.rx() == rs.rx() && rf.tx() == rs.tx()
                }
                &&& !(old(self).budp().contains_key(remote) && old(self).budp()[remote] == handle)
                    ==> f.inbox() == s.inbox()
                &&& (old(self).budp().contains_key(remote) && old(self).budp()[remote] == handle) ==> {
                    &&& f.inbox().len() == s.inbox().len() + 1
                    &&& f.inbox().drop_last() == s.inbox()
                    &&& f.inbox().last().data@ == data@
                    &&& f.inbox().last().remote_addr == src
                }
                &&& forall|k: u32|
                    k != handle && old(self).udps().contains_key(k) && !(old(self).budp().contains_key(remote)
                        && old(self).budp()[remote] == k) ==> final(self).udps()[k] == old(self).udps()[k]
            }),
    {
        let mut sock = match self.udp_sockets.remove(&handle) {
            Some(s) => s,
            None => {
                return Err(SocketError::BadHandle);
            },
        };
        let ghost u0 = old(self).udp_sockets@;
        if sock.local_addr.is_none() {
            let port = self.next_ephemeral_port;
            self.next_ephemeral_port = self.next_ephemeral_port + 1;
            sock.local_addr = Some(SocketAddr::new(IpAddress::localhost_v4(), port));
        }
        let source = match sock.local_addr {
            Some(a) => a,
            None => {
                proof {
                    assert(false);
                }
                SocketAddr::new(IpAddress::localhost_v4(), 0)
            },
        };
        let len = data.len() as u64;
        sock.sent_datagrams.push(Datagram { data: slice_to_vec(data), remote_addr: remote });
        sock.bytes_sent = sock.bytes_sent + len;
        self.udp_sockets.insert(handle, sock);
        let ghost u1 = self.udp_sockets@;
        proof {
            assert(u1 =~= u0.insert(handle, u1[handle]));
        }
        match addr_get(&self.bound_udp, &remote) {
            Some(remote_handle) => {
                match self.udp_sockets.remove(&remote_handle) {
                    Some(mut remote_sock) => {
                        remote_sock.recv_queue.push_back(Datagram { data: slice_to_vec(data), remote_addr: source });
                        self.udp_sockets.insert(remote_handle, remote_sock);
                        proof {
                            assert(self.udp_sockets@ =~= u1.insert(remote_handle, self.udp_sockets@[remote_handle]));
                        }
                    },
                    None => {
                        proof {
                            assert(self.udp_sockets@ =~= u1);
                        }
                    },
                }
            },
            None => {},
        }
        Ok(len)
    }

    /// Takes the first waiting datagram of a UDP socket (counting its
    /// bytes); none waiting gives `WouldBlock`.
    pub fn udp_receive_from(&mut self, handle: u32) -> (r: Result<Datagram, SocketError>)
        requires
            old(self).wf(),
            old(self).udps().contains_key(handle) && old(self).udps()[handle].inbox().len() > 0
                ==> old(self).udps()[handle].rx() + old(self).udps()[handle].inbox()[0].data@.len() <= u64::MAX,
        ensures
            final(self).wf(),
            final(self).keeps_all_but_udp(old(self)),
            !old(self).udps().contains_key(handle) ==> r == Err::<Datagram, SocketError>(SocketError::BadHandle)
                && final(self).udps() == old(self).udps(),
            old(self).udps().contains_key(handle) ==> final(self).udps() == old(self).udps().insert(
                handle,
                final(self).udps()[handle],
            ) && udp_receive_outcome(old(self).udps()[handle], final(self).udps()[handle], r),
    {
        let mut sock = match self.udp_sockets.remove(&handle) {
            Some(s) => s,
            None => {
                return Err(SocketError::BadHandle);
            },
        };
        let ghost u0 = old(self).udp_sockets@;
        if sock.recv_queue.len() == 0 {
            self.udp_sockets.insert(handle, sock);
            proof {
                assert(self.udp_sockets@ =~= u0);
            }
            return Err(SocketError::WouldBlock);
        }
        match sock.recv_queue.pop_front() {
            Some(dgram) => {
                sock.bytes_received = sock.bytes_received + dgram.data.len() as u64;
                self.udp_sockets.insert(handle, sock);
                proof {
                    assert(self.udp_sockets@ =~= u0.insert(handle, self.udp_sockets@[handle]));
                }
                Ok(dgram)
            },
            None => {
                proof {
                    assert(false);
                }
                self.udp_sockets.insert(handle, sock);
                Err(SocketError::WouldBlock)
            },
        }
    }

    /// Appends a datagram to a UDP socket's receive queue (network arrival).
    pub fn udp_deliver(&mut self, handle: u32, datagram: Datagram) -> (r: Result<(), SocketError>)
        requires
            old(self).wf(),
        ensures
            final(self).wf(),
            final(self).keeps_all_but_udp(old(self)),
            !old(self).udps().contains_key(handle) ==> r == Err::<(), SocketError>(SocketError::BadHandle)
                && final(self).udps() == old(self).udps(),
            old(self).udps().contains_key(handle) ==> r is Ok && final(self).udps() == old(self).udps().insert(
                handle,
                final(self).udps()[handle],
            ) && udp_deliver_outcome(old(self).udps()[handle], datagram, final(self).udps()[handle]),
    {
        let mut sock = match self.udp_sockets.remove(&handle) {
            Some(s) => s,
            None => {
                return Err(SocketError::BadHandle);
            },
        };
        let ghost u0 = old(self).udp_sockets@;
        sock.recv_queue.push_back(datagram);
        self.udp_sockets.insert(handle, sock);
        proof {
            assert(self.udp_sockets@ =~= u0.insert(handle, self.udp_sockets@[handle]));
        }
        Ok(())
    }

    /// Closes a UDP socket and releases the address it is bound to.
    pub fn udp_close(&mut self, handle: u32) -> (r: Result<(), SocketError>)
        requires
            old(self).wf(),
        ensures
            final(self).wf(),
            final(self).tcps() == old(self).tcps(),
            final(self).btcp() == old(self).btcp(),
            final(self).dns_view() == old(self).dns_view(),
            final(self).next_h() == old(self).next_h(),
            final(self).next_port() == old(self).next_port(),
            !old(self).udps().contains_key(handle) ==> r == Err::<(), SocketError>(SocketError::BadHandle)
                && final(self).udps() == old(self).udps() && final(self).budp() == old(self).budp(),
            old(self).udps().contains_key(handle) ==> {
                &&& r is Ok
                &&& final(self).udps() == old(self).udps().remove(handle)
                &&& final(self).budp() == match old(self).udps()[handle].local() {
                    Some(a) => old(self).budp().remove(a),
                    None => old(self).budp(),
                }
            },
    {
        let sock = match self.udp_sockets.remove(&handle) {
            Some(s) => s,
            None => {
                return Err(SocketError::BadHandle);
            },
        };
        match sock.local_addr {
            Some(addr) => addr_remove(&mut self.bound_udp, &addr),
            None => {},
        }
        Ok(())
    }

    /// Resolves a hostname with the table's resolver.
    pub fn resolve(&self, hostname: &str) -> (r: Result<Vec<IpAddress>, SocketError>)
        requires
            self.wf(),
        ensures
            match r {
                Ok(v) => self.dns_view().contains_key(hostname@) && v@ == self.dns_view()[hostname@]
                    && v@.len() > 0,
                Err(e) => !(self.dns_view().contains_key(hostname@) && self.dns_view()[hostname@].len() > 0)
                    && (e matches SocketError::NameResolutionFailed(h) && h@ == hostname@),
            },
    {
        self.dns.resolve(hostname)
    }

    /// Whether a TCP socket has something to read: received data when
    /// connected, waiting clients when listening, nothing otherwise.
    pub fn tcp_is_readable(&self, handle: u32) -> (r: Result<bool, SocketError>)
        ensures
            !self.tcps().contains_key(handle) ==> r == Err::<bool, SocketError>(SocketError::BadHandle),
            self.tcps().contains_key(handle) ==> r == Ok::<bool, SocketError>(
                match self.tcps()[handle].st() {
                    TcpState::Connected => self.tcps()[handle].recv_q().len() > 0,
                    TcpState::Listening => self.tcps()[handle].accepts().len() > 0,
                    _ => false,
                },
            ),
    {
        match self.tcp_sockets.get(&handle) {
            Some(sock) => match sock.state {
                TcpState::Connected => Ok(sock.recv_buffer.len() != 0),
                TcpState::Listening => Ok(sock.accept_queue.len() != 0),
                _ => Ok(false),
            },
            None => Err(SocketError::BadHandle),
        }
    }

    /// Whether a TCP socket can take data: it is connected.
    pub fn tcp_is_writable(&self, handle: u32) -> (r: Result<bool, SocketError>)
        ensures
            !self.tcps().contains_key(handle) ==> r == Err::<bool, SocketError>(SocketError::BadHandle),
            self.tcps().contains_key(handle) ==> r == Ok::<bool, SocketError>(
                self.tcps()[handle].st() == TcpState::Connected,
            ),
    {
        match self.tcp_sockets.get(&handle) {
            Some(sock) => Ok(sock.state == TcpState::Connected),
            None => Err(SocketError::BadHandle),
        }
    }

    /// Whether a UDP socket has a datagram waiting.
    pub fn udp_is_readable(&self, handle: u32) -> (r: Result<bool, SocketError>)
        ensures
            !self.udps().contains_key(handle) ==> r == Err::<bool, SocketError>(SocketError::BadHandle),
            self.udps().contains_key(handle) ==> r == Ok::<bool, SocketError>(
                self.udps()[handle].inbox().len() > 0,
            ),
    {
        match self.udp_sockets.get(&handle) {
            Some(sock) => Ok(sock.recv_queue.len() != 0),
            None => Err(SocketError::BadHandle),
        }
    }

    /// Whether a UDP socket can send: always, once it exists.
    pub fn udp_is_writable(&self, handle: u32) -> (r: Result<bool, SocketError>)
        ensures
            !self.udps().contains_key(handle) ==> r == Err::<bool, SocketError>(SocketError::BadHandle),
            self.udps().contains_key(handle) ==> r == Ok::<bool, SocketError>(true),
    {
        if !self.udp_sockets.contains_key(&handle) {
            return Err(SocketError::BadHandle);
        }
        Ok(true)
    }
}

impl Default for SocketTable {
    fn default() -> (t: Self)
        ensures
            t.wf(),
            t.tcps() == Map::<u32, TcpSocket>::empty(),
            t.udps() == Map::<u32, UdpSocket>::empty(),
            t.next_h() == 1,
            t.next_port() == 49152,
    {
        Self::new()
    }
}

fn extend_deque(d: &mut VecDeque<u8>, data: &[u8])
    ensures
        final(d)@ == old(d)@ + data@,
{
    let mut i: usize = 0;
    while i < data.len()
        invariant
            i <= data@.len(),
            d@ == old(d)@ + data@.subrange(0, i as int),
        decreases data@.len() - i,
    {
        d.push_back(data[i]);
        proof {
            assert(data@.subrange(0, i + 1) =~= data@.subrange(0, i as int).push(data@[i as int]));
        }
        i = i + 1;
    }
    proof {
        assert(data@.subrange(0, i as int) =~= data@);
    }
}

fn drain_front(d: &mut VecDeque<u8>, n: usize) -> (v: Vec<u8>)
    requires
        n <= old(d)@.len(),
    ensures
        v@ == old(d)@.take(n as int),
        final(d)@ == old(d)@.skip(n as int),
{
    let mut v: Vec<u8> = Vec::new();
    let ghost b0 = d@;
    while v.len() < n
        invariant
            n <= b0.len(),
            v@.len() <= n,
            v@ == b0.take(v@.len() as int),
            d@ == b0.skip(v@.len() as int),
        decreases n - v@.len(),
    {
        let ghost k = v@.len() as int;
        match d.pop_front() {
            Some(x) => {
                proof {
                    assert(b0.take(k + 1) =~= b0.take(k).push(x));
                    assert(d@ =~= b0.skip(k + 1));
                }
                v.push(x);
            },
            None => {
                proof {
                    assert(false);
                }
            },
        }
    }
    v
}

fn slice_to_vec(data: &[u8]) -> (v: Vec<u8>)
    ensures
        v@ == data@,
{
    let mut v: Vec<u8> = Vec::new();
    let mut i: usize = 0;
    while i < data.len()
        invariant
            i <= data@.len(),
            v@ == data@.subrange(0, i as int),
        decreases data@.len() - i,
    {
        v.push(data[i]);
        proof {
            assert(data@.subrange(0, i + 1) =~= data@.subrange(0, i as int).push(data@[i as int]));
        }
        i = i + 1;
    }
    proof {
        assert(data@.subrange(0, i as int) =~= data@);
    }
    v
}

} // verus!
