use fajar_wasi_p2::deployment::{
    CategoryResult, CompatResult, ComponentInfo, ConformanceRunner, DeployError, DeployTarget, DocGenerator,
    HttpServerExample, ModuleStatus, RuntimeCompat, SizeBenchmark, SpinConfig, SpinTrigger, StartupBenchmark,
    VirtualEnvironment, WamrCompat, WasiP2AuditReport, WasmtimeCompat,
};

/// The pass rate of a category, as a percentage.
fn pass_rate(cat: &CategoryResult) -> f64 {
    let run = cat.passed + cat.failed;
    if run == 0 {
        return 0.0;
    }
    (cat.passed as f64 / run as f64) * 100.0
}

/// The overall pass rate, as a percentage.
fn overall_pass_rate(runner: &ConformanceRunner) -> f64 {
    let (passed, failed, _) = runner.totals();
    let run = passed + failed;
    if run == 0 {
        return 0.0;
    }
    (passed as f64 / run as f64) * 100.0
}

/// The conformance report, with the rates written to one decimal.
fn report(runner: &ConformanceRunner) -> String {
    let rates: Vec<String> = runner.results.iter().map(|c| format!("{:.1}", pass_rate(c))).collect();
    runner.report(&rates, &format!("{:.1}", overall_pass_rate(runner)))
}

// ── W10.1: WasmtimeCompat ──────────────────────────────────────

#[test]
fn wasmtime_compat_supports_standard_interfaces() {
    let checker = WasmtimeCompat::new();
    let component = ComponentInfo::http_server("test-app");
    let result = checker.check_features(&component);
    assert!(
        result.compatible,
        "HTTP server should be wasmtime-compatible"
    );
    assert!(
        result.supported.len() >= 4,
        "should support all http server imports"
    );
    assert!(result.unsupported.is_empty());
}

#[test]
fn wasmtime_compat_rejects_unknown_interface() {
    let checker = WasmtimeCompat::new();
    let mut component = ComponentInfo::new("custom");
    component.imports.push("wasi:gpu/compute".to_string());
    let result = checker.check_features(&component);
    assert!(!result.compatible);
    assert_eq!(result.unsupported.len(), 1);
}

#[test]
fn wasmtime_compat_warns_on_async() {
    let checker = WasmtimeCompat::new();
    let mut component = ComponentInfo::new("async-app");
    component.uses_async = true;
    let result = checker.check_features(&component);
    assert!(result.compatible, "async is a warning, not a blocker");
    assert_eq!(result.warnings.len(), 1);
}

#[test]
fn wasmtime_min_version() {
    let checker = WasmtimeCompat::new();
    assert_eq!(checker.min_version(), "18.0.0");
    assert_eq!(checker.target(), DeployTarget::Wasmtime);
}

// ── W10.2: WamrCompat ──────────────────────────────────────────

#[test]
fn wamr_compat_rejects_http_component() {
    let checker = WamrCompat::new();
    let component = ComponentInfo::http_server("http-app");
    let result = checker.check_features(&component);
    // wasi:http interfaces are NOT in WAMR's supported list.
    assert!(!result.compatible);
    assert!(!result.unsupported.is_empty());
}

#[test]
fn wamr_compat_accepts_cli_component() {
    let checker = WamrCompat::new();
    let mut component = ComponentInfo::new("cli-app");
    component.imports.push("wasi:cli/stdout".to_string());
    component.imports.push("wasi:filesystem/types".to_string());
    let result = checker.check_features(&component);
    assert!(result.compatible);
    assert_eq!(result.supported.len(), 2);
}

#[test]
fn wamr_rejects_async() {
    let checker = WamrCompat::new();
    let mut component = ComponentInfo::new("async-app");
    component.uses_async = true;
    let result = checker.check_features(&component);
    assert!(!result.compatible);
}

// ── W10.3: SpinConfig ──────────────────────────────────────────

#[test]
fn spin_config_http_generates_valid_toml() {
    let mut config = SpinConfig::http("my-api", "/api/...");
    config.allow_host("https://example.com");
    config.set_env("LOG_LEVEL", "debug");
    let toml = config.to_toml();
    assert!(toml.contains("name = \"my-api\""));
    assert!(toml.contains("route = \"/api/...\""));
    assert!(toml.contains("allowed_outbound_hosts"));
}

#[test]
fn spin_config_redis_trigger() {
    let config = SpinConfig::redis("worker", "jobs");
    let toml = config.to_toml();
    assert!(toml.contains("channel = \"jobs\""));
    assert_eq!(
        config.trigger,
        SpinTrigger::Redis {
            channel: "jobs".into()
        }
    );
}

#[test]
fn spin_config_timer_trigger() {
    let config = SpinConfig::timer("cron-job", "*/5 * * * *");
    let toml = config.to_toml();
    assert!(toml.contains("cron = \"*/5 * * * *\""));
}

#[test]
fn spin_config_validate_rejects_bad_route() {
    let config = SpinConfig::http("bad", "no-slash");
    let result = config.validate();
    assert!(result.is_err());
}

#[test]
fn spin_config_validate_accepts_good_route() {
    let config = SpinConfig::http("good", "/api/v1");
    let result = config.validate();
    assert!(result.is_ok());
}

// ── W10.4: VirtualEnvironment ──────────────────────────────────

#[test]
fn virtual_env_file_operations() {
    let mut venv = VirtualEnvironment::new();
    venv.add_file("/data/input.txt", b"hello world");
    assert_eq!(venv.file_count(), 1);
    assert_eq!(
        venv.read_file("/data/input.txt"),
        Some(b"hello world".as_ref())
    );
    assert_eq!(venv.read_file("/nonexistent"), None);
}

#[test]
fn virtual_env_readonly_file_rejects_write() {
    let mut venv = VirtualEnvironment::new();
    venv.add_readonly_file("/etc/config", b"readonly");
    let result = venv.write_file("/etc/config", b"new data");
    assert!(result.is_err());
}

#[test]
fn virtual_env_stdout_capture() {
    let mut venv = VirtualEnvironment::new();
    venv.write_stdout(b"hello ");
    venv.write_stdout(b"world");
    assert_eq!(venv.stdout_capture, b"hello world");
}

// ── W10.5: SizeBenchmark ───────────────────────────────────────

#[test]
fn size_benchmark_tracks_budget() {
    let mut bench = SizeBenchmark::new();
    bench.record("hello", 30_000);
    bench.record("http", 600_000); // over 500KB budget
    assert_eq!(bench.over_budget().len(), 1);
    assert_eq!(bench.over_budget()[0].category, "http");
    assert_eq!(bench.total_bytes(), 630_000);
}

// ── W10.6: StartupBenchmark ────────────────────────────────────

#[test]
fn startup_benchmark_detects_slow_entries() {
    let mut bench = StartupBenchmark::new();
    bench.record("fast-component", 5_000, 1_000);
    bench.record("slow-component", 20_000, 3_000);
    assert_eq!(bench.slow_entries().len(), 1);
    assert_eq!(bench.avg_instantiation_us(), 12_500);
}

// ── W10.7: ConformanceRunner ───────────────────────────────────

#[test]
fn conformance_runner_all_categories() {
    let mut runner = ConformanceRunner::new();
    runner.run_all();
    let (passed, failed, skipped) = runner.totals();
    assert!(passed > 50, "should have >50 passing tests, got {passed}");
    assert!(failed > 0, "simulated runner has known failures");
    assert!(skipped > 0, "simulated runner has skipped tests");
    assert!(overall_pass_rate(&runner) > 90.0);
}

#[test]
fn conformance_fully_passing_categories() {
    let mut runner = ConformanceRunner::new();
    runner.run_all();
    let passing = runner.fully_passing_categories();
    assert!(passing.contains(&"streams"));
    assert!(passing.contains(&"clocks"));
    assert!(passing.contains(&"random"));
    // filesystem, http, sockets have simulated failures.
    assert!(!passing.contains(&"filesystem"));
}

#[test]
fn conformance_report_contains_all_categories() {
    let mut runner = ConformanceRunner::new();
    runner.run_all();
    let report = report(&runner);
    assert!(report.contains("filesystem"));
    assert!(report.contains("streams"));
    assert!(report.contains("http"));
    assert!(report.contains("sockets"));
    assert!(report.contains("clocks"));
    assert!(report.contains("random"));
    assert!(report.contains("Overall:"));
}

// ── W10.8: DocGenerator ────────────────────────────────────────

#[test]
fn doc_generator_produces_markdown() {
    let doc = DocGenerator::new();
    assert!(doc.section_count() >= 7);
    let md = doc.generate();
    assert!(md.starts_with("# Fajar Lang WASI P2 Deployment Guide"));
    assert!(md.contains("Getting Started"));
    assert!(md.contains("Spin Deployment"));
}

// ── W10.9: HttpServerExample ───────────────────────────────────

#[test]
fn http_server_example_generates_source() {
    let mut example = HttpServerExample::new("my-server");
    example.add_route("GET", "/api/users", "handle_users");
    example.add_route("POST", "/api/users", "handle_create_user");
    assert_eq!(example.route_count(), 3); // health + 2 custom
    let source = example.generate_source();
    assert!(source.contains("fn handle_health"));
    assert!(source.contains("fn handle_users"));
    assert!(source.contains("fn handle_create_user"));
    assert!(source.contains("match (req.method(), req.path())"));
}

#[test]
fn http_server_example_spin_config() {
    let example = HttpServerExample::new("my-server");
    let config = example.spin_config();
    assert_eq!(config.name, "my-server");
    assert!(matches!(config.trigger, SpinTrigger::Http { .. }));
}

// ── W10.10: WasiP2AuditReport ──────────────────────────────────

#[test]
fn audit_report_all_modules_complete() {
    let report = WasiP2AuditReport::new();
    assert!(report.all_complete());
    let (c, p, m) = report.status_counts();
    assert_eq!(c, 10);
    assert_eq!(p, 0);
    assert_eq!(m, 0);
}

#[test]
fn audit_report_generates_markdown_table() {
    let report = WasiP2AuditReport::new();
    let md = report.to_markdown();
    assert!(md.contains("| wit_lexer |"));
    assert!(md.contains("| deployment |"));
    assert!(md.contains("COMPLETE"));
    assert!(report.total_loc() > 5000);
    assert!(report.total_tests() > 100);
}

// ── Misc / Display / DeployTarget ──────────────────────────────

#[test]
fn deploy_target_display() {
    assert_eq!(DeployTarget::Wasmtime.to_string(), "wasmtime");
    assert_eq!(DeployTarget::Wamr.to_string(), "wamr");
    assert_eq!(DeployTarget::Spin.to_string(), "spin");
    assert_eq!(
        DeployTarget::Custom("wasmer".into()).to_string(),
        "custom:wasmer"
    );
}

#[test]
fn compat_result_display() {
    let mut result = CompatResult::new(DeployTarget::Wasmtime);
    result.add_supported("wasi:io/streams");
    result.add_supported("wasi:http/types");
    let display = result.to_string();
    assert!(display.contains("[PASS]"));
    assert!(display.contains("2/2"));
}

#[test]
fn deploy_error_display() {
    let err = DeployError::Incompatible("missing HTTP".into());
    assert_eq!(err.to_string(), "incompatible: missing HTTP");
    let err = DeployError::Config("bad route".into());
    assert_eq!(err.to_string(), "config error: bad route");
}

#[test]
fn module_status_display() {
    assert_eq!(ModuleStatus::Complete.to_string(), "COMPLETE");
    assert_eq!(ModuleStatus::Partial.to_string(), "PARTIAL");
    assert_eq!(ModuleStatus::Missing.to_string(), "MISSING");
}

#[test]
fn category_result_pass_rate() {
    let mut cat = CategoryResult::new("test");
    cat.record_pass();
    cat.record_pass();
    cat.record_pass();
    cat.record_fail("oops");
    assert_eq!(cat.total(), 4);
    assert!((pass_rate(&cat) - 75.0).abs() < 0.01);
}

#[test]
fn size_benchmark_report() {
    let mut bench = SizeBenchmark::new();
    bench.record("hello", 10_000);
    let report = bench.report();
    assert!(report.contains("[OK] hello: 10000 bytes"));
    assert!(report.contains("Total:"));
}

#[test]
fn startup_benchmark_empty_avg() {
    let bench = StartupBenchmark::new();
    assert_eq!(bench.avg_instantiation_us(), 0);
}

#[test]
fn virtual_env_write_creates_new_file() {
    let mut venv = VirtualEnvironment::new();
    let result = venv.write_file("/new/file.txt", b"created");
    assert!(result.is_ok());
    assert_eq!(venv.file_count(), 1);
    assert_eq!(venv.read_file("/new/file.txt"), Some(b"created".as_ref()));
}

#[test]
fn spin_toml_exact_with_hosts_and_stores() {
    let mut config = SpinConfig::http("app", "/api");
    config.allow_host("https://a.example");
    config.allow_host("https://b.example");
    config.add_kv_store("default");
    let expected = "spin_manifest_version = 2\n\n[application]\nname = \"app\"\nversion = \"0.1.0\"\n\
\n[[trigger.http]]\nroute = \"/api\"\ncomponent = \"app\"\n\
\n[component.app]\nsource = \"target/wasm32-wasi/app.wasm\"\n\
allowed_outbound_hosts = [\"https://a.example\", \"https://b.example\"]\n\
key_value_stores = [\"default\"]\n";
    assert_eq!(config.to_toml(), expected);
}

#[test]
fn spin_validate_errors() {
    let mut config = SpinConfig::redis("", "jobs");
    assert_eq!(config.validate(), Err(DeployError::Config("application name is required".into())));
    config.name = "w".into();
    config.source = String::new();
    assert_eq!(config.validate(), Err(DeployError::Config("component source path is required".into())));
    let bad = SpinConfig::http("x", "");
    assert_eq!(bad.validate(), Err(DeployError::Config("HTTP route must start with '/'".into())));
    assert!(SpinConfig::timer("t", "no-slash-is-fine").validate().is_ok());
}

#[test]
fn spin_set_env_replaces_value() {
    let mut config = SpinConfig::http("app", "/");
    config.set_env("A", "1");
    config.set_env("B", "2");
    config.set_env("A", "3");
    assert_eq!(config.environment, vec![("A".to_string(), "3".to_string()), ("B".to_string(), "2".to_string())]);
}

#[test]
fn spin_trigger_text() {
    assert_eq!(SpinTrigger::Http { route: "/x".into() }.to_string(), "http:/x");
    assert_eq!(SpinTrigger::Redis { channel: "c".into() }.to_string(), "redis:c");
    assert_eq!(SpinTrigger::Timer { cron: "* * * * *".into() }.to_string(), "timer:* * * * *");
}

#[test]
fn virtual_env_write_then_read_back() {
    let mut venv = VirtualEnvironment::new();
    venv.add_file("/a", b"old");
    venv.write_file("/a", b"new").unwrap();
    assert_eq!(venv.read_file("/a"), Some(b"new".as_ref()));
    assert_eq!(venv.file_count(), 1);
}

#[test]
fn virtual_env_readonly_error_message_and_unchanged() {
    let mut venv = VirtualEnvironment::new();
    venv.add_readonly_file("/etc/x", b"keep");
    assert_eq!(
        venv.write_file("/etc/x", b"lose"),
        Err(DeployError::Config("virtual file is read-only: /etc/x".into()))
    );
    assert_eq!(venv.read_file("/etc/x"), Some(b"keep".as_ref()));
}

#[test]
fn virtual_env_defaults_and_setters() {
    let mut venv = VirtualEnvironment::default();
    assert_eq!(venv.clock_time_secs, 1_700_000_000);
    assert_eq!(venv.random_seed, 42);
    venv.set_clock(5);
    venv.set_random_seed(7);
    venv.write_stderr(b"e");
    venv.add_network_binding("127.0.0.1:80", b"pong");
    assert_eq!(venv.clock_time_secs, 5);
    assert_eq!(venv.random_seed, 7);
    assert_eq!(venv.stderr_capture, b"e");
    assert_eq!(venv.network[0].response_data, b"pong");
}

#[test]
fn size_benchmark_custom_budget_and_unknown_category() {
    let mut bench = SizeBenchmark::new();
    bench.set_budget("hello", 10);
    bench.record("hello", 11);
    bench.record("unbudgeted", u64::MAX);
    assert!(!bench.entries[0].within_budget);
    assert!(bench.entries[1].within_budget);
    assert_eq!(bench.over_budget().len(), 1);
    assert_eq!(bench.budgets.len(), 3);
}

#[test]
fn size_benchmark_report_exact() {
    let mut bench = SizeBenchmark::new();
    bench.record("http", 600_000);
    assert_eq!(
        bench.report(),
        "=== Component Size Benchmark ===\n  [OVER] http: 600000 bytes\n  Total: 600000 bytes\n"
    );
}

#[test]
fn startup_benchmark_report_exact() {
    let mut bench = StartupBenchmark::new();
    bench.set_threshold(100);
    bench.record("a", 50, 5);
    bench.record("b", 151, 6);
    assert_eq!(bench.avg_instantiation_us(), 100);
    assert_eq!(
        bench.report(),
        "=== Startup Benchmark ===\n  [OK] a: instantiation=50us, first_request=5us\n  \
[SLOW] b: instantiation=151us, first_request=6us\n  Average instantiation: 100us (threshold: 100us)\n"
    );
}

#[test]
fn conformance_totals_and_passing_order() {
    let mut runner = ConformanceRunner::new();
    runner.run_all();
    assert_eq!(runner.totals(), (55, 3, 2));
    assert_eq!(runner.fully_passing_categories(), vec!["streams", "clocks", "random"]);
    let text = report(&runner);
    assert!(text.contains("  filesystem: 12/13 passed (92.3%), 1 skipped\n    FAIL: symlink: follow-chain depth >8 not validated\n"));
    assert!(text.ends_with("  Overall: 55/58 passed (94.8%), 2 skipped\n"));
}

#[test]
fn category_result_counts() {
    let mut cat = CategoryResult::new("c");
    cat.record_skip();
    cat.record_fail("x");
    assert_eq!(cat.total(), 2);
    assert_eq!(cat.failures, vec!["x".to_string()]);
}

#[test]
fn doc_generator_numbering() {
    let mut doc = DocGenerator::default();
    doc.add_section("Extra", "more");
    let md = doc.generate();
    assert!(md.contains("## 1. Overview\n\nFajar Lang provides WASI Preview 2 support through the component model.\nComponents can target wasmtime, WAMR, or Spin runtimes.\n\n"));
    assert!(md.ends_with("## 8. Extra\n\nmore\n\n"));
    assert_eq!(doc.section_count(), 8);
}

#[test]
fn http_example_source_exact_router() {
    let example = HttpServerExample::new("srv");
    let source = example.generate_source();
    assert!(source.starts_with("// srv.fj \u{2014} WASI P2 HTTP Server Component\n"));
    assert!(source.contains("fn handle_health(req: Request) -> Response {\n    // GET /health\n    Response::new(StatusCode::OK, \"OK\")\n}\n\n"));
    assert!(source.ends_with("        (\"GET\", \"/health\") => handle_health(req),\n        _ => Response::new(StatusCode::NOT_FOUND, \"Not Found\"),\n    }\n}\n"));
    assert_eq!(example.spin_config().source, "target/wasm32-wasi/srv.wasm");
}

#[test]
fn audit_totals_line() {
    let mut report = WasiP2AuditReport::new();
    assert_eq!(report.total_loc(), 11_450);
    assert_eq!(report.total_tests(), 223);
    report.modules[0].status = ModuleStatus::Partial;
    assert!(!report.all_complete());
    assert_eq!(report.status_counts(), (9, 1, 0));
    assert!(report.to_markdown().contains("\n**Totals:** 9 complete, 1 partial, 0 missing | 11450 LOC | 223 tests\n\n"));
}

#[test]
fn compat_fail_display_and_wamr_warnings() {
    let checker = WamrCompat::default();
    let mut component = ComponentInfo::new("x");
    component.imports.push("wasi:http/types".to_string());
    component.uses_resources = true;
    component.uses_sockets = true;
    let result = checker.check_features(&component);
    assert_eq!(result.unsupported, vec!["WAMR does not support: wasi:http/types".to_string()]);
    assert_eq!(result.warnings.len(), 2);
    assert_eq!(result.to_string(), "[FAIL] wamr \u{2014} 0/1 features supported");
    assert_eq!(checker.min_version(), "1.3.0");
    assert_eq!(WasmtimeCompat::default().target(), DeployTarget::Wasmtime);
    let mut r = CompatResult::new(DeployTarget::Spin);
    r.add_warning("w");
    assert!(r.compatible);
}

#[test]
fn deploy_error_all_texts() {
    assert_eq!(DeployError::Benchmark("b".into()).to_string(), "benchmark error: b");
    assert_eq!(DeployError::Conformance("c".into()).to_string(), "conformance error: c");
    assert_eq!(DeployError::DocGen("d".into()).to_string(), "doc generation error: d");
}
