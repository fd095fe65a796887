//! Streams and I/O: `wasi:io/streams`, `wasi:clocks`, `wasi:random`.
//!
//! - input and output streams with blocking and pollable I/O
//! - a poll mechanism for multiplexed I/O
//! - stream splice, and stream errors
//! - monotonic and wall clocks
//! - random number generation

use vstd::prelude::*;
use std::collections::HashMap;
use std::collections::VecDeque;
use crate::text::{dec, owned, push_dec, push_dec_padded, push_str, zero_pad};

verus! {

broadcast use vstd::std_specs::hash::group_hash_axioms;

// ═════════════════════════════════════════════════════════════════════
// Input stream
// ═════════════════════════════════════════════════════════════════════

/// An input stream that supports blocking and pollable reads.
#[derive(Debug)]
pub struct InputStream {
    buffer: VecDeque<u8>,
    closed: bool,
    bytes_read: u64,
}

impl InputStream {
    /// The bytes waiting to be read.
    pub closed spec fn pending(&self) -> Seq<u8> {
        self.buffer@
    }

    /// Whether the stream has been closed.
    pub closed spec fn is_closed_spec(&self) -> bool {
        self.closed
    }

    /// How many bytes have been read so far.
    pub closed spec fn read_count(&self) -> u64 {
        self.bytes_read
    }

    /// Creates a new empty input stream.
    pub fn new() -> (s: Self)
        ensures
            s.pending() == Seq::<u8>::empty(),
            !s.is_closed_spec(),
            s.read_count() == 0,
    {
        InputStream { buffer: VecDeque::new(), closed: false, bytes_read: 0 }
    }

    /// Creates an input stream holding `data`.
    pub fn from_bytes(data: &[u8]) -> (s: Self)
        ensures
            s.pending() == data@,
            !s.is_closed_spec(),
            s.read_count() == 0,
    {
        let mut s = InputStream::new();
        s.push_data(data);
        s
    }

    /// Appends `data` to the waiting bytes (data arrival).
    pub fn push_data(&mut self, data: &[u8])
        ensures
            push_outcome(*old(self), data@, *final(self)),
    {
        let mut i: usize = 0;
        while i < data.len()
            invariant
                i <= data@.len(),
                self.buffer@ == old(self).buffer@ + data@.subrange(0, i as int),
                self.closed == old(self).closed,
                self.bytes_read == old(self).bytes_read,
            decreases data@.len() - i,
        {
            self.buffer.push_back(data[i]);
            proof {
                assert(data@.subrange(0, i + 1) =~= data@.subrange(0, i as int).push(data@[i as int]));
            }
            i = i + 1;
        }
        proof {
            assert(data@.subrange(0, i as int) =~= data@);
        }
    }

    /// Reads up to `len` waiting bytes. A closed stream with nothing
    /// waiting gives `Closed`; otherwise the first bytes come out (possibly
    /// none) and are counted.
    pub fn read(&mut self, len: u64) -> (r: Result<Vec<u8>, StreamError>)
        requires
            old(self).read_count() + old(self).pending().len() <= u64::MAX,
        ensures
            read_outcome(*old(self), len, *final(self), r),
    {
        if self.buffer.len() == 0 && self.closed {
            return Err(StreamError::Closed);
        }
        let want = len as usize;
        let n = if want < self.buffer.len() {
            want
        } else {
            self.buffer.len()
        };
        let mut data: Vec<u8> = Vec::new();
        let ghost b0 = self.buffer@;
        while data.len() < n
            invariant
                n <= b0.len(),
                data@.len() <= n,
                data@ == b0.take(data@.len() as int),
                self.buffer@ == b0.skip(data@.len() as int),
                self.closed == old(self).closed,
                self.bytes_read == old(self).bytes_read,
            decreases n - data@.len(),
        {
            let ghost k = data@.len() as int;
            let b = self.buffer.pop_front();
            match b {
                Some(x) => {
                    proof {
                        assert(x == b0[k]);
                        assert(b0.take(k + 1) =~= b0.take(k).push(x));
                        assert(self.buffer@ =~= b0.skip(k + 1));
                    }
                    data.push(x);
                },
                None => {
                    proof {
                        assert(false);
                    }
                },
            }
        }
        self.bytes_read = self.bytes_read + data.len() as u64;
        Ok(data)
    }

    /// Whether a read would not block: data is waiting, or the stream is closed.
    pub fn is_ready(&self) -> (b: bool)
        ensures
            b == (self.pending().len() > 0 || self.is_closed_spec()),
    {
        self.buffer.len() != 0 || self.closed
    }

    /// Marks the stream as closed (EOF).
    pub fn close(&mut self)
        ensures
            final(self).is_closed_spec(),
            final(self).pending() == old(self).pending(),
            final(self).read_count() == old(self).read_count(),
    {
        self.closed = true;
    }

    /// Returns whether the stream is closed.
    pub fn is_closed(&self) -> (b: bool)
        ensures
            b == self.is_closed_spec(),
    {
        self.closed
    }

    /// Total bytes read.
    pub fn total_read(&self) -> (n: u64)
        ensures
            n == self.read_count(),
    {
        self.bytes_read
    }

    /// Bytes currently waiting.
    pub fn available(&self) -> (n: usize)
        ensures
            n == self.pending().len(),
    {
        self.buffer.len()
    }
}

/// How many bytes a read of `len` takes from `avail` waiting bytes.
pub open spec fn read_len(len: u64, avail: nat) -> int {
    if (len as usize) < avail {
        (len as usize) as int
    } else {
        avail as int
    }
}

impl Default for InputStream {
    fn default() -> (s: Self)
        ensures
            s.pending() == Seq::<u8>::empty(),
            !s.is_closed_spec(),
            s.read_count() == 0,
    {
        Self::new()
    }
}

// ═════════════════════════════════════════════════════════════════════
// Output stream
// ═════════════════════════════════════════════════════════════════════

/// An output stream with buffered writes and flush.
#[derive(Debug)]
pub struct OutputStream {
    buffer: Vec<u8>,
    flushed: Vec<u8>,
    closed: bool,
    bytes_written: u64,
}

impl OutputStream {
    /// Written bytes not yet flushed.
    pub closed spec fn buffered(&self) -> Seq<u8> {
        self.buffer@
    }

    /// Flushed bytes, available to the consumer.
    pub closed spec fn flushed_view(&self) -> Seq<u8> {
        self.flushed@
    }

    /// Whether the stream has been closed.
    pub closed spec fn is_closed_spec(&self) -> bool {
        self.closed
    }

    /// How many bytes have been written so far.
    pub closed spec fn written_count(&self) -> u64 {
        self.bytes_written
    }

    /// Creates a new empty output stream.
    pub fn new() -> (s: Self)
        ensures
            s.buffered() == Seq::<u8>::empty(),
            s.flushed_view() == Seq::<u8>::empty(),
            !s.is_closed_spec(),
            s.written_count() == 0,
    {
        OutputStream { buffer: Vec::new(), flushed: Vec::new(), closed: false, bytes_written: 0 }
    }

    /// Writes data to the stream's buffer; a closed stream gives `Closed`.
    pub fn write(&mut self, data: &[u8]) -> (r: Result<u64, StreamError>)
        requires
            old(self).written_count() + data@.len() <= u64::MAX,
        ensures
            write_outcome(*old(self), data@, *final(self), r),
    {
        if self.closed {
            return Err(StreamError::Closed);
        }
        let ghost b0 = self.buffer@;
        self.buffer.extend_from_slice(data);
        proof {
            assert(self.buffer@ =~= b0 + data@);
        }
        self.bytes_written = self.bytes_written + data.len() as u64;
        Ok(data.len() as u64)
    }

    /// Moves the buffered bytes to the flushed bytes; a closed stream gives `Closed`.
    pub fn flush(&mut self) -> (r: Result<(), StreamError>)
        ensures
            flush_outcome(*old(self), *final(self), r),
    {
        if self.closed {
            return Err(StreamError::Closed);
        }
        let ghost f0 = self.flushed@;
        self.flushed.extend_from_slice(self.buffer.as_slice());
        proof {
            assert(self.flushed@ =~= f0 + self.buffer@);
        }
        self.buffer.clear();
        Ok(())
    }

    /// Closes the stream, flushing what was buffered.
    pub fn close(&mut self)
        ensures
            final(self).is_closed_spec(),
            !old(self).is_closed_spec() ==> final(self).flushed_view() == old(self).flushed_view()
                + old(self).buffered() && final(self).buffered() == Seq::<u8>::empty(),
            old(self).is_closed_spec() ==> final(self).flushed_view() == old(self).flushed_view()
                && final(self).buffered() == old(self).buffered(),
            final(self).written_count() == old(self).written_count(),
    {
        let _ = self.flush();
        self.closed = true;
    }

    /// Returns all flushed data.
    pub fn flushed_data(&self) -> (d: &[u8])
        ensures
            d@ == self.flushed_view(),
    {
        self.flushed.as_slice()
    }

    /// Total bytes written.
    pub fn total_written(&self) -> (n: u64)
        ensures
            n == self.written_count(),
    {
        self.bytes_written
    }

    /// Whether the stream is closed.
    pub fn is_closed(&self) -> (b: bool)
        ensures
            b == self.is_closed_spec(),
    {
        self.closed
    }

    /// Whether the stream accepts writes.
    pub fn is_ready(&self) -> (b: bool)
        ensures
            b == !self.is_closed_spec(),
    {
        !self.closed
    }
}

impl Default for OutputStream {
    fn default() -> (s: Self)
        ensures
            s.buffered() == Seq::<u8>::empty(),
            s.flushed_view() == Seq::<u8>::empty(),
            !s.is_closed_spec(),
            s.written_count() == 0,
    {
        Self::new()
    }
}

// ═════════════════════════════════════════════════════════════════════
// Stream table and poll
// ═════════════════════════════════════════════════════════════════════

/// A pollable event source.
#[derive(Debug, Clone, Copy, PartialEq, Eq, Structural)]
pub enum PollSource {
    /// An input stream that may have data.
    InputStream(u32),
    /// An output stream that may accept data.
    OutputStream(u32),
    /// A timer (monotonic clock deadline in nanoseconds).
    Timer(u64),
}

/// Poll result for a single pollable.
#[derive(Debug, Clone, PartialEq, Eq, Structural)]
pub struct PollResult {
    /// Index of the pollable.
    pub index: usize,
    /// Whether this source is ready.
    pub ready: bool,
}

/// A table of open streams.
#[derive(Debug)]
pub struct StreamTable {
    /// Open input streams.
    pub input_streams: HashMap<u32, InputStream>,
    /// Open output streams.
    pub output_streams: HashMap<u32, OutputStream>,
    next_handle: u32,
}

impl StreamTable {
    /// The open input streams, by handle.
    pub closed spec fn inputs(&self) -> Map<u32, InputStream> {
        self.input_streams@
    }

    /// The open output streams, by handle.
    pub closed spec fn outputs(&self) -> Map<u32, OutputStream> {
        self.output_streams@
    }

    /// The handle the next new stream gets.
    pub closed spec fn next(&self) -> u32 {
        self.next_handle
    }

    /// Creates a new stream table.
    pub fn new() -> (t: Self)
        ensures
            t.inputs() == Map::<u32, InputStream>::empty(),
            t.outputs() == Map::<u32, OutputStream>::empty(),
            t.next() == 0,
    {
        StreamTable { input_streams: HashMap::new(), output_streams: HashMap::new(), next_handle: 0 }
    }

    /// Creates a new empty input stream and returns its handle.
    pub fn new_input_stream(&mut self) -> (h: u32)
        requires
            old(self).next() < u32::MAX,
        ensures
            h == old(self).next(),
            final(self).next() == h + 1,
            final(self).inputs() == old(self).inputs().insert(h, final(self).inputs()[h]),
            final(self).inputs()[h].pending() == Seq::<u8>::empty(),
            !final(self).inputs()[h].is_closed_spec(),
            final(self).inputs()[h].read_count() == 0,
            final(self).outputs() == old(self).outputs(),
    {
        let handle = self.next_handle;
        self.next_handle = self.next_handle + 1;
        self.input_streams.insert(handle, InputStream::new());
        handle
    }

    /// Creates an input stream holding `data` and returns its handle.
    pub fn new_input_stream_from(&mut self, data: &[u8]) -> (h: u32)
        requires
            old(self).next() < u32::MAX,
        ensures
            h == old(self).next(),
            final(self).next() == h + 1,
            final(self).inputs() == old(self).inputs().insert(h, final(self).inputs()[h]),
            final(self).inputs()[h].pending() == data@,
            !final(self).inputs()[h].is_closed_spec(),
            final(self).inputs()[h].read_count() == 0,
            final(self).outputs() == old(self).outputs(),
    {
        let handle = self.next_handle;
        self.next_handle = self.next_handle + 1;
        self.input_streams.insert(handle, InputStream::from_bytes(data));
        handle
    }

    /// Creates a new output stream and returns its handle.
    pub fn new_output_stream(&mut self) -> (h: u32)
        requires
            old(self).next() < u32::MAX,
        ensures
            h == old(self).next(),
            final(self).next() == h + 1,
            final(self).outputs() == old(self).outputs().insert(h, final(self).outputs()[h]),
            final(self).outputs()[h].buffered() == Seq::<u8>::empty(),
            final(self).outputs()[h].flushed_view() == Seq::<u8>::empty(),
            !final(self).outputs()[h].is_closed_spec(),
            final(self).outputs()[h].written_count() == 0,
            final(self).inputs() == old(self).inputs(),
    {
        let handle = self.next_handle;
        self.next_handle = self.next_handle + 1;
        self.output_streams.insert(handle, OutputStream::new());
        handle
    }
}

impl Default for StreamTable {
    fn default() -> (t: Self)
        ensures
            t.inputs() == Map::<u32, InputStream>::empty(),
            t.outputs() == Map::<u32, OutputStream>::empty(),
            t.next() == 0,
    {
        Self::new()
    }
}

/// Whether a source is ready: an input stream that exists and has data or
/// is closed, an output stream that exists and is open, or any timer.
pub open spec fn source_ready(src: PollSource, t: StreamTable) -> bool {
    match src {
        PollSource::InputStream(h) => t.inputs().contains_key(h) && (t.inputs()[h].pending().len()
            > 0 || t.inputs()[h].is_closed_spec()),
        PollSource::OutputStream(h) => t.outputs().contains_key(h)
            && !t.outputs()[h].is_closed_spec(),
        PollSource::Timer(_) => true,
    }
}

/// Simulated poll engine.
#[derive(Debug)]
pub struct PollEngine {
    sources: Vec<PollSource>,
}

impl PollEngine {
    /// The registered sources, in order.
    pub closed spec fn sources_view(&self) -> Seq<PollSource> {
        self.sources@
    }

    /// Creates a new poll engine.
    pub fn new() -> (e: Self)
        ensures
            e.sources_view() == Seq::<PollSource>::empty(),
    {
        PollEngine { sources: Vec::new() }
    }

    /// Registers a pollable source and returns its index.
    pub fn subscribe(&mut self, source: PollSource) -> (i: usize)
        ensures
            i == old(self).sources_view().len(),
            final(self).sources_view() == old(self).sources_view().push(source),
    {
        let idx = self.sources.len();
        self.sources.push(source);
        idx
    }

    /// Polls one source: ready when it exists and is ready.
    pub fn poll_one(&self, index: usize, streams: &StreamTable) -> (r: PollResult)
        ensures
            r.index == index,
            r.ready == (index < self.sources_view().len() && source_ready(
                self.sources_view()[index as int],
                *streams,
            )),
    {
        let ready = if index < self.sources.len() {
            match self.sources[index] {
                PollSource::InputStream(h) => match streams.input_streams.get(&h) {
                    Some(s) => s.is_ready(),
                    None => false,
                },
                PollSource::OutputStream(h) => match streams.output_streams.get(&h) {
                    Some(s) => s.is_ready(),
                    None => false,
                },
                PollSource::Timer(_) => true,
            }
        } else {
            false
        };
        PollResult { index, ready }
    }

    /// Polls every source; returns the ready ones, in order.
    pub fn poll_many(&self, streams: &StreamTable) -> (r: Vec<PollResult>)
        ensures
            r@ == ready_from(self.sources_view(), *streams, self.sources_view().len() as int),
    {
        let mut out: Vec<PollResult> = Vec::new();
        let mut i: usize = 0;
        while i < self.sources.len()
            invariant
                i <= self.sources_view().len(),
                out@ == ready_from(self.sources_view(), *streams, i as int),
            decreases self.sources_view().len() - i,
        {
            let r = self.poll_one(i, streams);
            if r.ready {
                out.push(r);
            }
            i = i + 1;
        }
        out
    }
}

/// The results for the ready sources among the first `n`, in order.
pub open spec fn ready_from(srcs: Seq<PollSource>, t: StreamTable, n: int) -> Seq<PollResult>
    decreases n,
{
    if n <= 0 {
        Seq::empty()
    } else {
        let prev = ready_from(srcs, t, n - 1);
        if source_ready(srcs[n - 1], t) {
            prev.push(PollResult { index: (n - 1) as usize, ready: true })
        } else {
            prev
        }
    }
}

impl Default for PollEngine {
    fn default() -> (e: Self)
        ensures
            e.sources_view() == Seq::<PollSource>::empty(),
    {
        Self::new()
    }
}

// ═════════════════════════════════════════════════════════════════════
// Stream outcomes
// ═════════════════════════════════════════════════════════════════════

/// Pushing `data` to `a` leaves `b`: the data joins the end of the waiting
/// bytes.
pub open spec fn push_outcome(a: InputStream, data: Seq<u8>, b: InputStream) -> bool {
    &&& b.pending() == a.pending() + data
    &&& b.is_closed_spec() == a.is_closed_spec()
    &&& b.read_count() == a.read_count()
}

/// Reading up to `len` bytes from `a` gives `r` and leaves `b`: a closed
/// stream with nothing waiting fails and is unchanged; otherwise the first
/// waiting bytes come out and are counted.
pub open spec fn read_outcome(a: InputStream, len: u64, b: InputStream, r: Result<Vec<u8>, StreamError>) -> bool {
    &&& b.is_closed_spec() == a.is_closed_spec()
    &&& a.pending().len() == 0 && a.is_closed_spec() ==> (r matches Err(e) && e == StreamError::Closed && b == a)
    &&& !(a.pending().len() == 0 && a.is_closed_spec()) ==> (r matches Ok(d) && d@ == a.pending().take(
        read_len(len, a.pending().len()),
    ) && b.pending() == a.pending().skip(read_len(len, a.pending().len())) && b.read_count() == a.read_count()
        + d@.len())
}

/// Writing `data` to `a` gives `r` and leaves `b`: a closed stream fails
/// and is unchanged; otherwise the data joins the end of the buffer.
pub open spec fn write_outcome(a: OutputStream, data: Seq<u8>, b: OutputStream, r: Result<u64, StreamError>) -> bool {
    &&& a.is_closed_spec() ==> (r matches Err(e) && e == StreamError::Closed && b == a)
    &&& !a.is_closed_spec() ==> (r == Ok::<u64, StreamError>(data.len() as u64) && b.buffered() == a.buffered()
        + data && b.flushed_view() == a.flushed_view() && !b.is_closed_spec() && b.written_count()
        == a.written_count() + data.len())
}

/// Flushing `a` gives `r` and leaves `b`: a closed stream fails and is
/// unchanged; otherwise the buffer moves to the end of the flushed bytes.
pub open spec fn flush_outcome(a: OutputStream, b: OutputStream, r: Result<(), StreamError>) -> bool {
    &&& a.is_closed_spec() ==> (r matches Err(e) && e == StreamError::Closed && b == a)
    &&& !a.is_closed_spec() ==> (r is Ok && b.buffered() == Seq::<u8>::empty() && b.flushed_view()
        == a.flushed_view() + a.buffered() && !b.is_closed_spec() && b.written_count() == a.written_count())
}

/// Bytes pushed to an input stream are read back in order: a read after a
/// push gives the first bytes of what was waiting followed by the push.
pub proof fn law_push_then_read(
    a: InputStream,
    b: InputStream,
    c: InputStream,
    data: Seq<u8>,
    len: u64,
    r: Result<Vec<u8>, StreamError>,
)
    requires
        push_outcome(a, data, b),
        read_outcome(b, len, c, r),
        !a.is_closed_spec() || a.pending().len() + data.len() > 0,
    ensures
        r matches Ok(d) && d@ == (a.pending() + data).take(read_len(len, a.pending().len() + data.len())),
{
}

/// What is written to an open output stream and then flushed follows what
/// was flushed and buffered before, in order.
pub proof fn law_write_then_flush(
    a: OutputStream,
    b: OutputStream,
    c: OutputStream,
    data: Seq<u8>,
    r1: Result<u64, StreamError>,
    r2: Result<(), StreamError>,
)
    requires
        !a.is_closed_spec(),
        write_outcome(a, data, b, r1),
        flush_outcome(b, c, r2),
    ensures
        r1 is Ok && r2 is Ok,
        c.flushed_view() == a.flushed_view() + a.buffered() + data,
        c.buffered() == Seq::<u8>::empty(),
{
    assert(a.flushed_view() + (a.buffered() + data) =~= a.flushed_view() + a.buffered() + data);
}

// ═════════════════════════════════════════════════════════════════════
// Splice
// ═════════════════════════════════════════════════════════════════════

/// Moves up to `max_bytes` waiting bytes from `input` to `output`'s buffer;
/// returns how many moved.
pub fn splice(input: &mut InputStream, output: &mut OutputStream, max_bytes: u64) -> (r: Result<
    u64,
    StreamError,
>)
    requires
        old(input).read_count() + old(input).pending().len() <= u64::MAX,
        old(output).written_count() + old(input).pending().len() <= u64::MAX,
    ensures
        old(input).pending().len() == 0 && old(input).is_closed_spec() ==> (r matches Err(e) && e
            == StreamError::Closed && *final(input) == *old(input) && *final(output) == *old(
            output,
        )),
        !(old(input).pending().len() == 0 && old(input).is_closed_spec()) ==> ({
            let n = read_len(max_bytes, old(input).pending().len());
            let moved = old(input).pending().take(n);
            &&& final(input).pending() == old(input).pending().skip(n)
            &&& if n == 0 {
                r == Ok::<u64, StreamError>(0) && *final(output) == *old(output)
            } else if old(output).is_closed_spec() {
                r matches Err(e) && e == StreamError::Closed && *final(output) == *old(output)
            } else {
                r == Ok::<u64, StreamError>(n as u64) && final(output).buffered() == old(
                    output,
                ).buffered() + moved && final(output).flushed_view() == old(output).flushed_view()
            }
        }),
{
    let data = input.read(max_bytes)?;
    let len = data.len() as u64;
    if len > 0 {
        output.write(data.as_slice())?;
    }
    Ok(len)
}

// ═════════════════════════════════════════════════════════════════════
// Stream errors
// ═════════════════════════════════════════════════════════════════════

/// Stream error type.
#[derive(Debug, Clone, PartialEq)]
pub enum StreamError {
    /// Stream has been closed.
    Closed,
    /// Operation timed out.
    Timeout,
    /// Permission denied.
    PermissionDenied,
    /// Generic I/O error.
    Io(String),
    /// Last operation failed (WASI stream-error convention).
    LastOperationFailed(String),
}

/// The text of a stream error.
pub open spec fn stream_error_text(e: StreamError) -> Seq<char> {
    match e {
        StreamError::Closed => "stream closed"@,
        StreamError::Timeout => "stream timeout"@,
        StreamError::PermissionDenied => "permission denied"@,
        StreamError::Io(m) => "I/O error: "@ + m@,
        StreamError::LastOperationFailed(m) => "last operation failed: "@ + m@,
    }
}

impl StreamError {
    /// The text of this error.
    pub fn to_string(&self) -> (s: String)
        ensures
            s@ == stream_error_text(*self),
    {
        match self {
            StreamError::Closed => owned("stream closed"),
            StreamError::Timeout => owned("stream timeout"),
            StreamError::PermissionDenied => owned("permission denied"),
            StreamError::Io(m) => {
                let mut s = owned("I/O error: ");
                push_str(&mut s, m.as_str());
                s
            },
            StreamError::LastOperationFailed(m) => {
                let mut s = owned("last operation failed: ");
                push_str(&mut s, m.as_str());
                s
            },
        }
    }
}

// ═════════════════════════════════════════════════════════════════════
// Clocks
// ═════════════════════════════════════════════════════════════════════

/// WASI monotonic clock.
#[derive(Debug)]
pub struct MonotonicClock {
    now_ns: u64,
    resolution_ns: u64,
}

impl MonotonicClock {
    /// The current time in nanoseconds.
    pub closed spec fn now_spec(&self) -> u64 {
        self.now_ns
    }

    /// The resolution in nanoseconds.
    pub closed spec fn resolution_spec(&self) -> u64 {
        self.resolution_ns
    }

    /// Creates a new monotonic clock at time 0 with a 1ms resolution.
    pub fn new() -> (c: Self)
        ensures
            c.now_spec() == 0,
            c.resolution_spec() == 1_000_000,
    {
        MonotonicClock { now_ns: 0, resolution_ns: 1_000_000 }
    }

    /// Returns the current time in nanoseconds.
    pub fn now(&self) -> (t: u64)
        ensures
            t == self.now_spec(),
    {
        self.now_ns
    }

    /// Returns the clock resolution in nanoseconds.
    pub fn resolution(&self) -> (r: u64)
        ensures
            r == self.resolution_spec(),
    {
        self.resolution_ns
    }

    /// Advances the clock by `ns` nanoseconds.
    pub fn advance(&mut self, ns: u64)
        requires
            old(self).now_spec() + ns <= u64::MAX,
        ensures
            final(self).now_spec() == old(self).now_spec() + ns,
            final(self).resolution_spec() == old(self).resolution_spec(),
    {
        self.now_ns = self.now_ns + ns;
    }

    /// A pollable timer due `duration_ns` nanoseconds from now.
    pub fn subscribe_duration(&self, duration_ns: u64) -> (p: PollSource)
        requires
            self.now_spec() + duration_ns <= u64::MAX,
        ensures
            p == PollSource::Timer((self.now_spec() + duration_ns) as u64),
    {
        PollSource::Timer(self.now_ns + duration_ns)
    }
}

impl Default for MonotonicClock {
    fn default() -> (c: Self)
        ensures
            c.now_spec() == 0,
            c.resolution_spec() == 1_000_000,
    {
        Self::new()
    }
}

/// WASI wall clock datetime.
#[derive(Debug, Clone, Copy, PartialEq, Eq, Structural)]
pub struct DateTime {
    /// Seconds since Unix epoch.
    pub seconds: u64,
    /// Nanoseconds within the current second.
    pub nanoseconds: u32,
}

impl DateTime {
    /// The text `seconds.nanoseconds`, the nanoseconds in nine digits.
    pub fn to_string(&self) -> (s: String)
        ensures
            s@ == dec(self.seconds as nat) + "."@ + zero_pad(dec(self.nanoseconds as nat), 9),
    {
        let mut s = String::new();
        push_dec(&mut s, self.seconds);
        push_str(&mut s, ".");
        push_dec_padded(&mut s, self.nanoseconds as u64, 9);
        proof {
            assert(s@ =~= dec(self.seconds as nat) + "."@ + zero_pad(dec(self.nanoseconds as nat), 9));
        }
        s
    }
}

/// WASI wall clock.
#[derive(Debug)]
pub struct WallClock {
    now: DateTime,
}

impl WallClock {
    /// The current datetime.
    pub closed spec fn now_spec(&self) -> DateTime {
        self.now
    }

    /// Creates a wall clock at a given time.
    pub fn new(seconds: u64, nanoseconds: u32) -> (c: Self)
        ensures
            c.now_spec() == (DateTime { seconds, nanoseconds }),
    {
        WallClock { now: DateTime { seconds, nanoseconds } }
    }

    /// A wall clock at a fixed, deterministic "system" time.
    pub fn system() -> (c: Self)
        ensures
            c.now_spec() == (DateTime { seconds: 1_711_900_000, nanoseconds: 0 }),
    {
        Self::new(1_711_900_000, 0)
    }

    /// Returns the current datetime.
    pub fn now(&self) -> (d: DateTime)
        ensures
            d == self.now_spec(),
    {
        self.now
    }

    /// Advances the clock by whole seconds.
    pub fn advance_seconds(&mut self, seconds: u64)
        requires
            old(self).now_spec().seconds + seconds <= u64::MAX,
        ensures
            final(self).now_spec() == (DateTime {
                seconds: (old(self).now_spec().seconds + seconds) as u64,
                nanoseconds: old(self).now_spec().nanoseconds,
            }),
    {
        self.now.seconds = self.now.seconds + seconds;
    }
}

impl Default for WallClock {
    fn default() -> (c: Self)
        ensures
            c.now_spec() == (DateTime { seconds: 1_711_900_000, nanoseconds: 0 }),
    {
        Self::system()
    }
}

// ═════════════════════════════════════════════════════════════════════
// Random
// ═════════════════════════════════════════════════════════════════════

/// The step of the generator: `s * 6364136223846793005 + 1`, modulo 2^64.
pub open spec fn lcg_next(s: u64) -> u64 {
    ((s as int * 6_364_136_223_846_793_005int + 1) % 0x1_0000_0000_0000_0000int) as u64
}

/// The state after `k` steps from `s`.
pub open spec fn lcg_iter(s: u64, k: nat) -> u64
    decreases k,
{
    if k == 0 {
        s
    } else {
        lcg_next(lcg_iter(s, (k - 1) as nat))
    }
}

/// Byte `j` (little-endian) of `v`.
pub open spec fn le_byte(v: u64, j: int) -> u8 {
    ((v as int / pow256(j)) % 256) as u8
}

/// 256 to the power `j`.
pub open spec fn pow256(j: int) -> int
    decreases j,
{
    if j <= 0 {
        1
    } else {
        256 * pow256(j - 1)
    }
}

/// WASI random number generator (a deterministic linear congruential one).
#[derive(Debug)]
pub struct WasiRandom {
    state: u64,
}

impl WasiRandom {
    /// The generator's state.
    pub closed spec fn state_spec(&self) -> u64 {
        self.state
    }

    /// Creates a generator from a seed (the state is the seed plus one, wrapping).
    pub fn new(seed: u64) -> (r: Self)
        ensures
            r.state_spec() == (seed as int + 1) % 0x1_0000_0000_0000_0000int,
    {
        WasiRandom { state: seed.wrapping_add(1) }
    }

    /// Steps the generator and returns the new state.
    pub fn get_random_u64(&mut self) -> (v: u64)
        ensures
            v == lcg_next(old(self).state_spec()),
            final(self).state_spec() == v,
    {
        self.state = self.state.wrapping_mul(6_364_136_223_846_793_005).wrapping_add(1);
        proof {
            lemma_lcg_step(old(self).state);
        }
        self.state
    }

    /// Returns `len` random bytes: the little-endian bytes of successive
    /// states, eight per step, the last step's bytes cut to fit.
    pub fn get_random_bytes(&mut self, len: usize) -> (r: Vec<u8>)
        ensures
            r@.len() == len,
            forall|i: int|
                0 <= i < len ==> #[trigger] r@[i] == le_byte(
                    lcg_iter(old(self).state_spec(), (i / 8 + 1) as nat),
                    i % 8,
                ),
            final(self).state_spec() == lcg_iter(old(self).state_spec(), ((len + 7) / 8) as nat),
    {
        let mut bytes: Vec<u8> = Vec::new();
        let ghost s0 = self.state;
        let ghost mut steps: nat = 0;
        while bytes.len() < len
            invariant
                bytes@.len() <= len,
                bytes@.len() == 8 * steps || (bytes@.len() == len && len <= 8 * steps && 8 * steps
                    < len + 8),
                bytes@.len() < len ==> bytes@.len() == 8 * steps,
                self.state == lcg_iter(s0, steps),
                forall|i: int|
                    0 <= i < bytes@.len() ==> #[trigger] bytes@[i] == le_byte(
                        lcg_iter(s0, (i / 8 + 1) as nat),
                        i % 8,
                    ),
            decreases len - bytes@.len(),
        {
            let val = self.get_random_u64();
            proof {
                steps = steps + 1;
            }
            let base = bytes.len();
            let mut j: usize = 0;
            while j < 8
                invariant
                    j <= 8,
                    base == 8 * (steps - 1),
                    base < len,
                    bytes@.len() == if base + j < len {
                        base + j
                    } else {
                        len as int
                    },
                    val == lcg_iter(s0, steps),
                    forall|i: int|
                        0 <= i < bytes@.len() ==> #[trigger] bytes@[i] == le_byte(
                            lcg_iter(s0, (i / 8 + 1) as nat),
                            i % 8,
                        ),
                decreases 8 - j,
            {
                if bytes.len() < len {
                    let b = byte_of(val, j);
                    proof {
                        let i = bytes@.len() as int;
                        assert(i == base + j);
                        assert(i / 8 == steps - 1 && i % 8 == j) by (nonlinear_arith)
                            requires
                                i == base + j,
                                base == 8 * (steps - 1),
                                j < 8,
                                steps >= 1,
                        ;
                    }
                    bytes.push(b);
                }
                j = j + 1;
            }
        }
        proof {
            assert(steps == (len + 7) / 8) by (nonlinear_arith)
                requires
                    bytes@.len() == len,
                    bytes@.len() == 8 * steps || (len <= 8 * steps && 8 * steps < len + 8),
            ;
        }
        bytes
    }
}

/// Byte `j` (little-endian) of `v`.
fn byte_of(v: u64, j: usize) -> (b: u8)
    requires
        j < 8,
    ensures
        b == le_byte(v, j as int),
{
    let shifted = v >> ((8 * j) as u64);
    let b = (shifted & 0xffu64) as u8;
    proof {
        lemma_byte_of(v, j as u64);
    }
    b
}

proof fn lemma_pow256(j: u64)
    requires
        j < 8,
    ensures
        pow256(j as int) == if j == 0 {
            1int
        } else if j == 1 {
            0x100int
        } else if j == 2 {
            0x1_0000int
        } else if j == 3 {
            0x100_0000int
        } else if j == 4 {
            0x1_0000_0000int
        } else if j == 5 {
            0x100_0000_0000int
        } else if j == 6 {
            0x1_0000_0000_0000int
        } else {
            0x100_0000_0000_0000int
        },
{
    reveal_with_fuel(pow256, 8);
}

proof fn lemma_byte_of(v: u64, j: u64)
    requires
        j < 8,
    ensures
        ((v >> (8 * j)) & 0xffu64) as u8 == le_byte(v, j as int),
{
    lemma_pow256(j);
    if j == 0 {
        assert((v >> 0u64) & 0xffu64 == v % 256) by (bit_vector);
    } else if j == 1 {
        assert((v >> 8u64) & 0xffu64 == (v / 0x100) % 256) by (bit_vector);
    } else if j == 2 {
        assert((v >> 16u64) & 0xffu64 == (v / 0x1_0000) % 256) by (bit_vector);
    } else if j == 3 {
        assert((v >> 24u64) & 0xffu64 == (v / 0x100_0000) % 256) by (bit_vector);
    } else if j == 4 {
        assert((v >> 32u64) & 0xffu64 == (v / 0x1_0000_0000) % 256) by (bit_vector);
    } else if j == 5 {
        assert((v >> 40u64) & 0xffu64 == (v / 0x100_0000_0000) % 256) by (bit_vector);
    } else if j == 6 {
        assert((v >> 48u64) & 0xffu64 == (v / 0x1_0000_0000_0000) % 256) by (bit_vector);
    } else {
        assert((v >> 56u64) & 0xffu64 == (v / 0x100_0000_0000_0000) % 256) by (bit_vector);
    }
}

proof fn lemma_lcg_step(s: u64)
    ensures
        s.wrapping_mul(6_364_136_223_846_793_005).wrapping_add(1) == lcg_next(s),
{
    assert(s.wrapping_mul(6_364_136_223_846_793_005) == (s as int * 6_364_136_223_846_793_005int)
        % 0x1_0000_0000_0000_0000int);
    assert(((s as int * 6_364_136_223_846_793_005int) % 0x1_0000_0000_0000_0000int + 1)
        % 0x1_0000_0000_0000_0000int == (s as int * 6_364_136_223_846_793_005int + 1)
        % 0x1_0000_0000_0000_0000int) by (nonlinear_arith);
}

impl Default for WasiRandom {
    fn default() -> (r: Self)
        ensures
            r.state_spec() == 43,
    {
        Self::new(42)
    }
}

} // verus!
