use fajar_wasi_p2::sockets::{
    Datagram, IpAddress, Network, SocketAddr, SocketError, SocketOptions, SocketTable, TcpState,
};
// ── W7.1: TCP types ──

#[test]
fn w7_1_ip_address_v4_display_and_properties() {
    let ip = IpAddress::V4(192, 168, 1, 100);
    assert_eq!(ip.to_string(), "192.168.1.100");
    assert!(ip.is_v4());
    assert!(!ip.is_v6());

    let lo = IpAddress::localhost_v4();
    assert_eq!(lo.to_string(), "127.0.0.1");
}

#[test]
fn w7_1_ip_address_v6_display_and_properties() {
    let ip = IpAddress::V6(0x2001, 0x0db8, 0, 0, 0, 0, 0, 1);
    assert_eq!(ip.to_string(), "2001:db8:0:0:0:0:0:1");
    assert!(ip.is_v6());
    assert!(!ip.is_v4());

    let lo = IpAddress::localhost_v6();
    assert_eq!(lo.to_string(), "0:0:0:0:0:0:0:1");
}

#[test]
fn w7_1_socket_addr_display() {
    let v4 = SocketAddr::new(IpAddress::localhost_v4(), 8080);
    assert_eq!(v4.to_string(), "127.0.0.1:8080");

    let v6 = SocketAddr::new(IpAddress::localhost_v6(), 443);
    assert_eq!(v6.to_string(), "[0:0:0:0:0:0:0:1]:443");
}

#[test]
fn w7_1_network_resource() {
    let net = Network::new(1, "default");
    assert_eq!(net.handle, 1);
    assert_eq!(net.name, "default");
}

#[test]
fn w7_1_tcp_state_display() {
    assert_eq!(TcpState::Closed.to_string(), "closed");
    assert_eq!(TcpState::Connecting.to_string(), "connecting");
    assert_eq!(TcpState::Connected.to_string(), "connected");
    assert_eq!(TcpState::Listening.to_string(), "listening");
}

// ── W7.2: TCP connect ──

#[test]
fn w7_2_tcp_connect_to_listener() {
    let mut table = SocketTable::new();

    // Set up a listener on port 8080.
    let server = table.tcp_create();
    let server_addr = SocketAddr::new(IpAddress::localhost_v4(), 8080);
    table.tcp_bind(server, server_addr.clone()).unwrap();
    table.tcp_start_listen(server).unwrap();

    // Client connects.
    let client = table.tcp_create();
    table.tcp_start_connect(client, server_addr).unwrap();
    assert_eq!(table.tcp_sockets[&client].state(), TcpState::Connecting,);

    table.tcp_finish_connect(client).unwrap();
    assert_eq!(table.tcp_sockets[&client].state(), TcpState::Connected,);
}

#[test]
fn w7_2_tcp_connect_refused_no_listener() {
    let mut table = SocketTable::new();
    let client = table.tcp_create();
    let remote = SocketAddr::new(IpAddress::localhost_v4(), 9999);

    table.tcp_start_connect(client, remote).unwrap();
    let err = table.tcp_finish_connect(client).unwrap_err();
    assert_eq!(err, SocketError::ConnectionRefused);

    // Socket should be reset to Closed.
    assert_eq!(table.tcp_sockets[&client].state(), TcpState::Closed,);
}

// ── W7.3: TCP listen & accept ──

#[test]
fn w7_3_tcp_listen_and_accept() {
    let mut table = SocketTable::new();

    let server = table.tcp_create();
    let addr = SocketAddr::new(IpAddress::localhost_v4(), 3000);
    table.tcp_bind(server, addr.clone()).unwrap();
    table.tcp_start_listen(server).unwrap();
    assert_eq!(table.tcp_sockets[&server].state(), TcpState::Listening,);

    // No connections yet — should return WouldBlock.
    let err = table.tcp_accept(server).unwrap_err();
    assert_eq!(err, SocketError::WouldBlock);

    // Client connects.
    let client = table.tcp_create();
    table.tcp_start_connect(client, addr).unwrap();
    table.tcp_finish_connect(client).unwrap();

    // Accept the connection — returns (client_handle, peer_handle).
    let (accepted_client, _peer) = table.tcp_accept(server).unwrap();
    assert_eq!(accepted_client, client);
}

#[test]
fn w7_3_tcp_listen_without_bind_fails() {
    let mut table = SocketTable::new();
    let server = table.tcp_create();
    let err = table.tcp_start_listen(server).unwrap_err();
    assert!(matches!(err, SocketError::InvalidState(_)));
}

// ── W7.4: TCP streams (echo server pattern) ──

#[test]
fn w7_4_tcp_echo_server() {
    let mut table = SocketTable::new();

    // Server setup.
    let server = table.tcp_create();
    let addr = SocketAddr::new(IpAddress::localhost_v4(), 7000);
    table.tcp_bind(server, addr.clone()).unwrap();
    table.tcp_start_listen(server).unwrap();

    // Client connects and sends data.
    let client = table.tcp_create();
    table.tcp_start_connect(client, addr).unwrap();
    table.tcp_finish_connect(client).unwrap();

    table.tcp_send(client, b"Hello, server!").unwrap();

    // Accept the client on server side — get the server-side peer.
    let (_accepted_client, peer) = table.tcp_accept(server).unwrap();

    // Simulate the network delivering client's send_buffer to peer's recv_buffer.
    let sent_data: Vec<u8> = table.tcp_sockets[&client]
        .pending_send();
    table.tcp_deliver(peer, &sent_data).unwrap();

    // Server-side peer reads the data.
    let received = table.tcp_recv(peer, 1024).unwrap();
    assert_eq!(received, b"Hello, server!");

    // Server echoes back: send from peer, deliver to client.
    table.tcp_send(peer, &received).unwrap();
    let echo_data: Vec<u8> = table.tcp_sockets[&peer]
        .pending_send();
    table.tcp_deliver(client, &echo_data).unwrap();

    // Client reads the echo.
    let echo = table.tcp_recv(client, 1024).unwrap();
    assert_eq!(echo, b"Hello, server!");
}

#[test]
fn w7_4_tcp_send_on_closed_fails() {
    let mut table = SocketTable::new();
    let sock = table.tcp_create();
    let err = table.tcp_send(sock, b"data").unwrap_err();
    assert_eq!(err, SocketError::NotConnected);
}

// ── W7.5: UDP ──

#[test]
fn w7_5_udp_send_and_receive() {
    let mut table = SocketTable::new();

    let sender = table.udp_create();
    let sender_addr = SocketAddr::new(IpAddress::localhost_v4(), 5000);
    table.udp_bind(sender, sender_addr).unwrap();

    let receiver = table.udp_create();
    let receiver_addr = SocketAddr::new(IpAddress::localhost_v4(), 5001);
    table.udp_bind(receiver, receiver_addr.clone()).unwrap();

    // Send from sender to receiver.
    let sent = table
        .udp_send_to(sender, b"UDP payload", receiver_addr)
        .unwrap();
    assert_eq!(sent, 11);

    // Receiver gets the datagram.
    let dgram = table.udp_receive_from(receiver).unwrap();
    assert_eq!(dgram.data, b"UDP payload");
    assert_eq!(dgram.remote_addr.port, 5000);
}

#[test]
fn w7_5_udp_receive_empty_returns_would_block() {
    let mut table = SocketTable::new();
    let sock = table.udp_create();
    let err = table.udp_receive_from(sock).unwrap_err();
    assert_eq!(err, SocketError::WouldBlock);
}

// ── W7.6: DNS lookup ──

#[test]
fn w7_6_dns_resolve_localhost() {
    let table = SocketTable::new();
    let addrs = table.resolve("localhost").unwrap();
    assert!(!addrs.is_empty());
    assert!(addrs.contains(&IpAddress::localhost_v4()));
}

#[test]
fn w7_6_dns_resolve_custom_host() {
    let mut table = SocketTable::new();
    table
        .dns
        .add_record("api.example.com", IpAddress::V4(93, 184, 216, 34));
    let addrs = table.resolve("api.example.com").unwrap();
    assert_eq!(addrs.len(), 1);
    assert_eq!(addrs[0], IpAddress::V4(93, 184, 216, 34));
}

#[test]
fn w7_6_dns_resolve_unknown_fails() {
    let table = SocketTable::new();
    let err = table.resolve("nonexistent.invalid").unwrap_err();
    assert!(matches!(err, SocketError::NameResolutionFailed(_)));
}

// ── W7.7: Socket options ──

#[test]
fn w7_7_socket_options_defaults_and_set() {
    let mut table = SocketTable::new();
    let sock = table.tcp_create();

    {
        let opts = table.tcp_sockets.get(&sock).unwrap().options();
        assert!(!opts.reuse_address);
        assert!(!opts.tcp_nodelay);
        assert_eq!(opts.send_timeout_ms, 0);
    }

    {
        let opts = table.tcp_sockets.get_mut(&sock).unwrap().options_mut();
        opts.reuse_address = true;
        opts.tcp_nodelay = true;
        opts.send_timeout_ms = 5000;
        opts.recv_timeout_ms = 3000;
        opts.keep_alive_secs = 60;
    }

    let opts = table.tcp_sockets.get(&sock).unwrap().options();
    assert!(opts.reuse_address);
    assert!(opts.tcp_nodelay);
    assert_eq!(opts.send_timeout_ms, 5000);
    assert_eq!(opts.recv_timeout_ms, 3000);
    assert_eq!(opts.keep_alive_secs, 60);
}

#[test]
fn w7_7_bind_reuse_address() {
    let mut table = SocketTable::new();
    let addr = SocketAddr::new(IpAddress::localhost_v4(), 4000);

    let s1 = table.tcp_create();
    table.tcp_bind(s1, addr.clone()).unwrap();
    table.tcp_start_listen(s1).unwrap();

    // Without reuse_address, binding the same address fails.
    let s2 = table.tcp_create();
    let err = table.tcp_bind(s2, addr.clone()).unwrap_err();
    assert_eq!(err, SocketError::AddressInUse);

    // Close the first socket to release the address.
    table.tcp_close(s1).unwrap();

    // Now binding succeeds.
    let s3 = table.tcp_create();
    table.tcp_bind(s3, addr).unwrap();
}

// ── W7.8: Non-blocking I/O ──

#[test]
fn w7_8_tcp_is_readable_writable() {
    let mut table = SocketTable::new();

    let server = table.tcp_create();
    let addr = SocketAddr::new(IpAddress::localhost_v4(), 6000);
    table.tcp_bind(server, addr.clone()).unwrap();
    table.tcp_start_listen(server).unwrap();

    let client = table.tcp_create();
    table.tcp_start_connect(client, addr).unwrap();
    table.tcp_finish_connect(client).unwrap();

    // Listener is readable because accept queue is non-empty (before accept).
    assert!(table.tcp_is_readable(server).unwrap());

    // Accept to get the peer.
    let (_c, peer) = table.tcp_accept(server).unwrap();

    // Client is connected but no data yet.
    assert!(!table.tcp_is_readable(client).unwrap());
    assert!(table.tcp_is_writable(client).unwrap());

    // Deliver data to client.
    table.tcp_deliver(client, b"incoming").unwrap();
    assert!(table.tcp_is_readable(client).unwrap());

    // Peer is also writable.
    assert!(table.tcp_is_writable(peer).unwrap());
}

#[test]
fn w7_8_udp_is_readable_writable() {
    let mut table = SocketTable::new();
    let sock = table.udp_create();
    let addr = SocketAddr::new(IpAddress::localhost_v4(), 7777);
    table.udp_bind(sock, addr).unwrap();

    // No datagrams yet.
    assert!(!table.udp_is_readable(sock).unwrap());
    assert!(table.udp_is_writable(sock).unwrap());

    // Deliver a datagram.
    table
        .udp_deliver(
            sock,
            Datagram {
                data: b"ping".to_vec(),
                remote_addr: SocketAddr::new(IpAddress::localhost_v4(), 9999),
            },
        )
        .unwrap();
    assert!(table.udp_is_readable(sock).unwrap());
}

// ── W7.9: Socket errors ──

#[test]
fn w7_9_socket_error_display() {
    assert_eq!(
        SocketError::ConnectionRefused.to_string(),
        "connection refused",
    );
    assert_eq!(SocketError::Timeout.to_string(), "operation timed out",);
    assert_eq!(SocketError::ConnectionReset.to_string(), "connection reset",);
    assert_eq!(
        SocketError::AddressInUse.to_string(),
        "address already in use",
    );
    assert_eq!(SocketError::WouldBlock.to_string(), "operation would block",);
    assert_eq!(SocketError::BadHandle.to_string(), "bad socket handle",);
    assert_eq!(
        SocketError::NameResolutionFailed("host".into()).to_string(),
        "name resolution failed for: host",
    );
    assert_eq!(
        SocketError::NetworkUnreachable.to_string(),
        "network unreachable",
    );
}

#[test]
fn w7_9_bad_handle_errors() {
    let mut table = SocketTable::new();
    assert_eq!(
        table.tcp_send(999, b"data").unwrap_err(),
        SocketError::BadHandle,
    );
    assert_eq!(
        table.tcp_recv(999, 100).unwrap_err(),
        SocketError::BadHandle,
    );
    assert_eq!(table.tcp_close(999).unwrap_err(), SocketError::BadHandle,);
    assert_eq!(
        table.udp_receive_from(999).unwrap_err(),
        SocketError::BadHandle,
    );
    assert!(table.tcp_is_readable(999).is_err());
    assert!(table.udp_is_writable(999).is_err());
}

// ── W7.10: Comprehensive tests ──

#[test]
fn w7_10_full_tcp_lifecycle() {
    let mut table = SocketTable::new();

    // Server: create, bind, listen.
    let server = table.tcp_create();
    let addr = SocketAddr::new(IpAddress::localhost_v4(), 8888);
    table.tcp_bind(server, addr.clone()).unwrap();
    table.tcp_start_listen(server).unwrap();

    // Client: create, connect.
    let client = table.tcp_create();
    table.tcp_start_connect(client, addr).unwrap();
    table.tcp_finish_connect(client).unwrap();

    // Accept — returns (client_handle, peer_handle).
    let (accepted_client, peer) = table.tcp_accept(server).unwrap();
    assert_eq!(accepted_client, client);

    // Client sends "request" to server.
    table.tcp_send(client, b"request").unwrap();
    let sent: Vec<u8> = table.tcp_sockets[&client]
        .pending_send();
    table.tcp_deliver(peer, &sent).unwrap();

    let req = table.tcp_recv(peer, 1024).unwrap();
    assert_eq!(req, b"request");

    // Server-side peer sends "response" back to client.
    table.tcp_send(peer, b"response").unwrap();
    let resp_data: Vec<u8> = table.tcp_sockets[&peer]
        .pending_send();
    table.tcp_deliver(client, &resp_data).unwrap();

    let resp = table.tcp_recv(client, 1024).unwrap();
    assert_eq!(resp, b"response");

    // Byte counters.
    assert_eq!(table.tcp_sockets[&client].bytes_sent(), 7);
    assert_eq!(table.tcp_sockets[&client].bytes_received(), 8);
    assert_eq!(table.tcp_sockets[&peer].bytes_sent(), 8);
    assert_eq!(table.tcp_sockets[&peer].bytes_received(), 7);

    // Close everything.
    table.tcp_close(client).unwrap();
    table.tcp_close(peer).unwrap();
    table.tcp_close(server).unwrap();

    assert!(!table.tcp_sockets.contains_key(&client));
    assert!(!table.tcp_sockets.contains_key(&peer));
    assert!(!table.tcp_sockets.contains_key(&server));
}

#[test]
fn w7_10_full_udp_bidirectional() {
    let mut table = SocketTable::new();

    let alice = table.udp_create();
    let alice_addr = SocketAddr::new(IpAddress::localhost_v4(), 10000);
    table.udp_bind(alice, alice_addr.clone()).unwrap();

    let bob = table.udp_create();
    let bob_addr = SocketAddr::new(IpAddress::localhost_v4(), 10001);
    table.udp_bind(bob, bob_addr.clone()).unwrap();

    // Alice -> Bob.
    table
        .udp_send_to(alice, b"hello bob", bob_addr.clone())
        .unwrap();
    let dgram = table.udp_receive_from(bob).unwrap();
    assert_eq!(dgram.data, b"hello bob");
    assert_eq!(dgram.remote_addr, alice_addr);

    // Bob -> Alice.
    table
        .udp_send_to(bob, b"hello alice", alice_addr.clone())
        .unwrap();
    let dgram = table.udp_receive_from(alice).unwrap();
    assert_eq!(dgram.data, b"hello alice");
    assert_eq!(dgram.remote_addr, bob_addr);

    // Verify byte counters.
    assert_eq!(table.udp_sockets[&alice].bytes_sent(), 9,);
    assert_eq!(table.udp_sockets[&alice].bytes_received(), 11,);

    // Verify sent datagram log.
    assert_eq!(table.udp_sockets[&alice].sent_datagrams().len(), 1,);

    // Cleanup.
    table.udp_close(alice).unwrap();
    table.udp_close(bob).unwrap();
    assert!(table.udp_sockets.is_empty());
}

#[test]
fn w7_10_dns_to_tcp_connect_workflow() {
    let mut table = SocketTable::new();

    // Register a DNS entry for our simulated server.
    table
        .dns
        .add_record("myserver.local", IpAddress::V4(10, 0, 0, 1));

    // Resolve the hostname.
    let addrs = table.resolve("myserver.local").unwrap();
    assert_eq!(addrs[0], IpAddress::V4(10, 0, 0, 1));

    // Set up a listener on the resolved address.
    let server = table.tcp_create();
    let server_addr = SocketAddr::new(addrs[0].clone(), 443);
    table.tcp_bind(server, server_addr.clone()).unwrap();
    table.tcp_start_listen(server).unwrap();

    // Client resolves and connects.
    let client = table.tcp_create();
    table.tcp_start_connect(client, server_addr).unwrap();
    table.tcp_finish_connect(client).unwrap();

    assert_eq!(table.tcp_sockets[&client].state(), TcpState::Connected,);

    let (accepted_client, peer) = table.tcp_accept(server).unwrap();
    assert_eq!(accepted_client, client);
    assert_eq!(table.tcp_sockets[&peer].state(), TcpState::Connected,);
}

#[test]
fn w7_10_multiple_clients_to_one_server() {
    let mut table = SocketTable::new();

    let server = table.tcp_create();
    let addr = SocketAddr::new(IpAddress::localhost_v4(), 2222);
    table.tcp_bind(server, addr.clone()).unwrap();
    table.tcp_start_listen(server).unwrap();

    // Connect 3 clients.
    let mut clients = Vec::new();
    for _ in 0..3 {
        let c = table.tcp_create();
        table.tcp_start_connect(c, addr.clone()).unwrap();
        table.tcp_finish_connect(c).unwrap();
        clients.push(c);
    }

    // Accept all 3 — each returns (client_handle, peer_handle).
    let mut peers = Vec::new();
    for (i, expected) in clients.iter().enumerate() {
        let (accepted_client, peer) = table.tcp_accept(server).unwrap();
        assert_eq!(accepted_client, *expected, "client {i} mismatch",);
        peers.push(peer);
    }
    assert_eq!(peers.len(), 3);

    // Accept queue now empty.
    let err = table.tcp_accept(server).unwrap_err();
    assert_eq!(err, SocketError::WouldBlock);
}
