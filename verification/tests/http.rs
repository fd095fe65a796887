use fajar_wasi_p2::http::{
    same_method, Dispatch, Headers, HttpClient, HttpError, Method, Request, Response, RouteTable, StatusCode,
};
// ── W5.1: HTTP types ──

#[test]
fn w5_1_types_compile() {
    let req = Request::get("http://example.com");
    assert_eq!(req.method, Method::Get);
    assert_eq!(req.url, "http://example.com");

    let resp = Response::ok("hello");
    assert_eq!(resp.status, StatusCode(200));
    assert!(resp.status.is_success());
}

// ── W5.2: Outgoing handler ──

#[test]
fn w5_2_http_get_returns_200() {
    let mut client = HttpClient::new();
    client.mock("http://api.test/data", Response::ok("result"));

    let resp = client.handle(Request::get("http://api.test/data")).unwrap();
    assert_eq!(resp.status, StatusCode(200));
    assert_eq!(resp.body_text().unwrap(), "result");
}

// ── W5.3: Request construction ──

#[test]
fn w5_3_all_methods_work() {
    let get = Request::get("/");
    assert_eq!(get.method, Method::Get);
    let post = Request::post("/", b"data".to_vec());
    assert_eq!(post.method, Method::Post);
    let put = Request::put("/", b"data".to_vec());
    assert_eq!(put.method, Method::Put);
    let del = Request::delete("/");
    assert_eq!(del.method, Method::Delete);
}

// ── W5.4: Response reading ──

#[test]
fn w5_4_parse_json_response() {
    let mut client = HttpClient::new();
    let json_resp = Response::json(StatusCode(200), r#"{"name":"fajar"}"#);
    client.mock("http://api.test/user", json_resp);

    let resp = client.handle(Request::get("http://api.test/user")).unwrap();
    let body = resp.body_text().unwrap();
    assert!(body.contains("fajar"));
    assert_eq!(resp.headers.get("content-type"), Some("application/json"));
}

// ── W5.5: Request body streaming ──

#[test]
fn w5_5_post_with_json_body() {
    let mut client = HttpClient::new();
    client.mock(
        "http://api.test/create",
        Response::json(StatusCode(201), r#"{"id":1}"#),
    );

    let body = r#"{"name":"test"}"#.as_bytes().to_vec();
    let resp = client
        .handle(Request::post("http://api.test/create", body))
        .unwrap();
    assert_eq!(resp.status, StatusCode(201));
}

// ── W5.6: Response body streaming (large) ──

#[test]
fn w5_6_stream_large_response() {
    let mut client = HttpClient::new();
    let large_body = "x".repeat(100_000);
    client.mock(
        "http://api.test/large",
        Response::new(StatusCode(200), large_body.as_bytes().to_vec()),
    );

    let resp = client
        .handle(Request::get("http://api.test/large"))
        .unwrap();
    assert_eq!(resp.body.len(), 100_000);
}

// ── W5.7: Header manipulation ──

#[test]
fn w5_7_content_type_correct() {
    let mut headers = Headers::new();
    headers.add("Content-Type", "application/json");
    headers.add("Authorization", "Bearer token");

    assert_eq!(headers.get("content-type"), Some("application/json"));
    assert_eq!(headers.get("CONTENT-TYPE"), Some("application/json")); // case insensitive
    assert_eq!(headers.len(), 2);

    headers.delete("authorization");
    assert_eq!(headers.len(), 1);
    assert!(headers.get("authorization").is_none());
}

// ── W5.8: Error handling ──

#[test]
fn w5_8_timeout_returns_err() {
    let err = HttpError::Timeout;
    assert_eq!(err.to_string(), "request timed out");

    let dns_err = HttpError::DnsError("NXDOMAIN".into());
    assert!(dns_err.to_string().contains("DNS"));
}

// ── W5.9: HTTPS ──

#[test]
fn w5_9_https_urls_work() {
    let mut client = HttpClient::new();
    client.mock("https://secure.test/api", Response::ok("secure"));

    let resp = client
        .handle(Request::get("https://secure.test/api"))
        .unwrap();
    assert_eq!(resp.status, StatusCode(200));
}

// ── W5.10: HTTP client tests ──

#[test]
fn w5_10_request_history() {
    let mut client = HttpClient::new();
    client.mock("http://a.test/1", Response::ok("a"));
    client.mock("http://a.test/2", Response::ok("b"));

    client.handle(Request::get("http://a.test/1")).unwrap();
    client
        .handle(Request::post("http://a.test/2", b"body".to_vec()))
        .unwrap();

    assert_eq!(client.request_history().len(), 2);
    assert_eq!(client.request_history()[0].method, Method::Get);
    assert_eq!(client.request_history()[1].method, Method::Post);
}

// ── W6.1: Incoming handler export ──

#[test]
fn w6_3_json_response_body() {
    let resp = Response::json(StatusCode(200), r#"{"name":"fajar","age":42}"#);
    assert_eq!(resp.headers.get("content-type"), Some("application/json"));
    let body = resp.body_text().unwrap();
    assert!(body.contains("fajar"));
    assert!(body.contains("42"));
}

// ── W6.4: Middleware pipeline ──

#[test]
fn w6_5_json_output() {
    let resp = Response::json(StatusCode(200), r#"{"name":"fajar","age":42}"#);
    let body = resp.body_text().unwrap();
    assert!(body.contains(r#""name":"fajar""#));
}

// ── W6.6: Error responses ──

#[test]
fn w6_6_error_status_codes() {
    let bad = Response::bad_request("missing field");
    assert_eq!(bad.status.0, 400);
    assert!(bad.status.is_client_error());

    let not_found = Response::not_found();
    assert_eq!(not_found.status.0, 404);

    let internal = Response::internal_error("oops");
    assert_eq!(internal.status.0, 500);
    assert!(internal.status.is_server_error());
}

// ── W6.7: Request body parsing ──

#[test]
fn route_table_dispatch_by_method_and_path() {
    let mut table = RouteTable::new();
    table.add_route(Method::Get, "/users");
    table.add_route(Method::Post, "/users");
    table.add_route(Method::Get, "/users");
    assert_eq!(table.route_count(), 3);
    assert!(matches!(table.dispatch(&Method::Get, "/users"), Dispatch::Handler(0)));
    assert!(matches!(table.dispatch(&Method::Post, "/users"), Dispatch::Handler(1)));
    match table.dispatch(&Method::Delete, "/users") {
        Dispatch::Respond(r) => {
            assert_eq!(r.status, StatusCode(404));
            assert_eq!(r.body, b"Not Found".to_vec());
        }
        other => panic!("unexpected {other:?}"),
    }
}

#[test]
fn route_table_serves_static_files() {
    let mut table = RouteTable::default();
    table.add_static("/static/", vec![("index.html".to_string(), b"<h1>hi</h1>".to_vec())]);
    match table.dispatch(&Method::Get, "/static/index.html") {
        Dispatch::Respond(r) => {
            assert_eq!(r.status, StatusCode(200));
            assert_eq!(r.body, b"<h1>hi</h1>".to_vec());
            assert_eq!(r.headers.get("content-type"), Some("text/html"));
        }
        other => panic!("unexpected {other:?}"),
    }
    assert!(matches!(table.dispatch(&Method::Get, "/static/missing.css"), Dispatch::Respond(_)));
    // a route takes precedence over a static file
    table.add_route(Method::Get, "/static/index.html");
    assert!(matches!(table.dispatch(&Method::Get, "/static/index.html"), Dispatch::Handler(0)));
}

#[test]
fn route_table_static_prefix_replaced() {
    let mut table = RouteTable::new();
    table.add_static("/s/", vec![("a.js".to_string(), b"1".to_vec())]);
    table.add_static("/s/", vec![("b.js".to_string(), b"2".to_vec())]);
    match table.dispatch(&Method::Get, "/s/a.js") {
        Dispatch::Respond(r) => assert_eq!(r.status, StatusCode(404)),
        other => panic!("unexpected {other:?}"),
    }
    match table.dispatch(&Method::Get, "/s/b.js") {
        Dispatch::Respond(r) => {
            assert_eq!(r.body, b"2".to_vec());
            assert_eq!(r.headers.get("content-type"), Some("application/javascript"));
        }
        other => panic!("unexpected {other:?}"),
    }
}

#[test]
fn same_method_compares_custom_text() {
    assert!(same_method(&Method::Other("PURGE".into()), &Method::Other("PURGE".into())));
    assert!(!same_method(&Method::Other("GET".into()), &Method::Get));
}
