use fajar_wasi_p2::streams::{
    splice, InputStream, MonotonicClock, OutputStream, PollEngine, PollSource, StreamError,
    StreamTable, WallClock, WasiRandom,
};
// ── W4.1: Input stream ──

#[test]
fn w4_1_input_stream_read_line_by_line() {
    let mut stream = InputStream::from_bytes(b"line1\nline2\nline3\n");
    let mut lines = Vec::new();
    loop {
        match stream.read(6) {
            Ok(data) if data.is_empty() => break,
            Ok(data) => lines.push(data),
            Err(StreamError::Closed) => break,
            Err(e) => panic!("unexpected error: {}", e.to_string()),
        }
    }
    assert!(!lines.is_empty());
    assert_eq!(&lines[0], b"line1\n");
}

#[test]
fn w4_1_input_stream_eof() {
    let mut stream = InputStream::new();
    stream.close();
    let err = stream.read(10).unwrap_err();
    assert_eq!(err, StreamError::Closed);
}

// ── W4.2: Output stream ──

#[test]
fn w4_2_output_stream_write_flush() {
    let mut stream = OutputStream::new();
    stream.write(b"Hello, ").unwrap();
    stream.write(b"World!").unwrap();
    stream.flush().unwrap();
    assert_eq!(stream.flushed_data(), b"Hello, World!");
}

#[test]
fn w4_2_output_stream_close() {
    let mut stream = OutputStream::new();
    stream.write(b"data").unwrap();
    stream.close();
    let err = stream.write(b"more").unwrap_err();
    assert_eq!(err, StreamError::Closed);
    // Flushed data is available
    assert_eq!(stream.flushed_data(), b"data");
}

// ── W4.3: Poll ──

#[test]
fn w4_3_poll_one_ready() {
    let mut table = StreamTable::new();
    let h = table.new_input_stream_from(b"data");
    let mut engine = PollEngine::new();
    let idx = engine.subscribe(PollSource::InputStream(h));
    let result = engine.poll_one(idx, &table);
    assert!(result.ready);
}

#[test]
fn w4_3_poll_many_first_ready() {
    let mut table = StreamTable::new();
    let h1 = table.new_input_stream(); // empty, not ready
    let h2 = table.new_input_stream_from(b"data"); // has data, ready
    let mut engine = PollEngine::new();
    engine.subscribe(PollSource::InputStream(h1));
    engine.subscribe(PollSource::InputStream(h2));

    let ready = engine.poll_many(&table);
    assert_eq!(ready.len(), 1);
    assert_eq!(ready[0].index, 1);
}

// ── W4.4: Stream splice ──

#[test]
fn w4_4_splice_stdin_to_file() {
    let mut input = InputStream::from_bytes(b"piped data here");
    let mut output = OutputStream::new();

    let spliced = splice(&mut input, &mut output, 1024).unwrap();
    assert_eq!(spliced, 15);

    output.flush().unwrap();
    assert_eq!(output.flushed_data(), b"piped data here");
}

// ── W4.5: Async streams (subscribe) ──

#[test]
fn w4_5_non_blocking_read() {
    let mut stream = InputStream::new();
    // No data yet
    assert!(!stream.is_ready());

    // Data arrives
    stream.push_data(b"async data");
    assert!(stream.is_ready());

    let data = stream.read(100).unwrap();
    assert_eq!(data, b"async data");
}

// ── W4.6: Error handling ──

#[test]
fn w4_6_stream_error_display() {
    assert_eq!(StreamError::Closed.to_string(), "stream closed");
    assert_eq!(StreamError::Timeout.to_string(), "stream timeout");
    assert_eq!(
        StreamError::LastOperationFailed("EOF".into()).to_string(),
        "last operation failed: EOF"
    );
}

#[test]
fn w4_6_eof_and_permission_errors() {
    let mut stream = InputStream::new();
    stream.close();
    assert_eq!(stream.read(10).unwrap_err(), StreamError::Closed);

    let mut out = OutputStream::new();
    out.close();
    assert_eq!(out.write(b"x").unwrap_err(), StreamError::Closed);
}

// ── W4.7: Monotonic clock ──

#[test]
fn w4_7_monotonic_clock_timestamps() {
    let mut clock = MonotonicClock::new();
    assert_eq!(clock.now(), 0);
    assert_eq!(clock.resolution(), 1_000_000); // 1ms

    clock.advance(5_000_000_000); // 5 seconds
    assert_eq!(clock.now(), 5_000_000_000);

    let poll = clock.subscribe_duration(1_000_000_000);
    if let PollSource::Timer(deadline) = poll {
        assert_eq!(deadline, 6_000_000_000);
    }
}

// ── W4.8: Wall clock ──

#[test]
fn w4_8_wall_clock_within_1s() {
    let clock = WallClock::system();
    let now = clock.now();
    assert!(now.seconds > 1_000_000_000); // After year 2001
    assert_eq!(now.nanoseconds, 0);

    let display = now.to_string();
    assert!(display.contains("."));
}

// ── W4.9: Random ──

#[test]
fn w4_9_random_bytes_non_zero() {
    let mut rng = WasiRandom::new(12345);
    let bytes = rng.get_random_bytes(32);
    assert_eq!(bytes.len(), 32);
    // At least some bytes should be non-zero
    assert!(bytes.iter().any(|&b| b != 0));
}

#[test]
fn w4_9_random_u64() {
    let mut rng = WasiRandom::new(42);
    let a = rng.get_random_u64();
    let b = rng.get_random_u64();
    assert_ne!(a, b); // Different values
    assert_ne!(a, 0);
}

// ── W4.10: Comprehensive tests ──

#[test]
fn w4_10_stream_table_lifecycle() {
    let mut table = StreamTable::new();
    let ih = table.new_input_stream_from(b"hello");
    let oh = table.new_output_stream();

    // Read from input
    let data = table.input_streams.get_mut(&ih).unwrap().read(100).unwrap();
    assert_eq!(data, b"hello");

    // Write to output
    table
        .output_streams
        .get_mut(&oh)
        .unwrap()
        .write(b"world")
        .unwrap();
    table.output_streams.get_mut(&oh).unwrap().flush().unwrap();
    assert_eq!(table.output_streams[&oh].flushed_data(), b"world");
}

#[test]
fn w4_10_poll_with_timer_and_streams() {
    let mut table = StreamTable::new();
    let h = table.new_input_stream_from(b"data");
    let clock = MonotonicClock::new();

    let mut engine = PollEngine::new();
    engine.subscribe(PollSource::InputStream(h));
    engine.subscribe(clock.subscribe_duration(1_000_000));

    let ready = engine.poll_many(&table);
    // Both should be ready (stream has data, timer always ready in sim)
    assert_eq!(ready.len(), 2);
}
