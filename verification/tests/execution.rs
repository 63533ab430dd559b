use gate_keeper::certificates::{CertificateConfig, CertificateStore};
use gate_keeper::execution::{
    check_request, choose_client, evaluate_assertion, execution_log, format_script_error,
    locate_script, one_line, plan_report, preview_bytes, reject_unsupported_script_features,
    resolve_request, safe_join, script_diagnostics, script_preview, AssertionResult,
    ClientChoice, ExecutableRequest, ExecutionDiagnostic, MtlsResult, RequestRun, ScriptOutcome,
    ScriptRuntimeError, ScriptSource,
};
use gate_keeper::plan::{HttpAssertion, HttpHeader, TestPlanInput, TestPlanScript};
use gate_keeper::plan_parser::parse;
use gate_keeper::substitution::{substitute_runtime, Variables};

fn vars(pairs: &[(&str, &str)]) -> Variables {
    let mut v = Variables::new();
    for (k, val) in pairs {
        v.insert(k.to_string(), val.to_string());
    }
    v
}

fn request(content: &str) -> gate_keeper::plan::TestPlanRequest {
    let plan = parse(TestPlanInput {
        name: None,
        content: content.to_string(),
        variables: Variables::new(),
    })
    .unwrap();
    plan.requests.into_iter().next().unwrap()
}

#[test]
fn status_checks_report_expected_and_actual() {
    let a = HttpAssertion {
        name: "created".to_string(),
        kind: gate_keeper::plan::AssertionKind::StatusEquals { expected: 201 },
    };
    let pass = evaluate_assertion(&a, 201);
    assert!(pass.passed);
    assert_eq!(pass.message, "status was 201");
    let fail = evaluate_assertion(&a, 404);
    assert!(!fail.passed);
    assert_eq!(fail.name, "created");
    assert_eq!(fail.message, "expected status 201, got 404");
}

#[test]
fn one_line_joins_nonblank_lines() {
    assert_eq!(one_line("  a \n\n b\r\n  \n c"), "a | b | c");
    assert_eq!(one_line(""), "");
}

#[test]
fn script_preview_numbers_at_most_twelve_lines() {
    assert_eq!(script_preview("a\nb"), "  1: a\n  2: b");
    let long: Vec<String> = (1..=13).map(|i| format!("l{i}")).collect();
    let preview = script_preview(&long.join("\n"));
    let lines: Vec<&str> = preview.lines().collect();
    assert_eq!(lines.len(), 13);
    assert_eq!(lines[11], " 12: l12");
    assert_eq!(lines[12], "  ...");
}

#[test]
fn script_errors_become_diagnostics() {
    let errors = vec![
        ScriptRuntimeError { name: Some("TypeError".to_string()), message: "boom".to_string(), stack: Some("at x".to_string()) },
        ScriptRuntimeError { name: None, message: "second".to_string(), stack: None },
    ];
    let d = script_diagnostics("pre-request", "x()", &errors);
    assert_eq!(d.len(), 2);
    assert_eq!(d[0].kind, "TypeError");
    assert_eq!(d[1].kind, "script");
    assert_eq!(d[0].details.as_deref(), Some("at x"));
    assert_eq!(d[0].source_preview.as_deref(), Some("  1: x()"));
    assert_eq!(format_script_error("pre-request", &errors), "pre-request script failed: boom");
    assert_eq!(format_script_error("response handler", &vec![]), "response handler script failed");
    let r = ExecutionDiagnostic::runtime("pre-request", "missing".to_string(), None);
    assert_eq!(r.kind, "script");
    assert!(r.source_preview.is_none());
}

#[test]
fn unsupported_script_features_are_refused() {
    assert_eq!(
        reject_unsupported_script_features("  import x from 'y'").unwrap_err(),
        "ES module imports are not supported yet"
    );
    assert!(reject_unsupported_script_features("a();\nimport y").is_err());
    assert_eq!(
        reject_unsupported_script_features("crypto.subtle").unwrap_err(),
        "JetBrains Crypto API is not supported yet"
    );
    assert!(reject_unsupported_script_features("client.log('important')").is_ok());
}

#[test]
fn script_paths_stay_inside_the_plans_directory() {
    assert_eq!(safe_join("data/plans", "scripts/a.js").unwrap(), "data/plans/scripts/a.js");
    assert_eq!(safe_join("data/plans/", "a.js").unwrap(), "data/plans/a.js");
    assert_eq!(
        safe_join("data/plans", "/etc/passwd").unwrap_err(),
        "external script path /etc/passwd must be relative"
    );
    assert_eq!(
        safe_join("data/plans", "a/../../x.js").unwrap_err(),
        "external script path a/../../x.js cannot leave data/plans"
    );
    assert!(safe_join("data/plans", "a/..b/x.js").is_ok());
}

#[test]
fn scripts_are_located_inline_or_on_disk() {
    let inline = TestPlanScript::Inline { source: "x()".to_string() };
    assert!(matches!(locate_script(&inline, None), Ok(ScriptSource::Text(t)) if t == "x()"));
    let file = TestPlanScript::File { path: "a.js".to_string() };
    assert_eq!(
        locate_script(&file, None).unwrap_err(),
        "external script a.js cannot be resolved for ad-hoc execution"
    );
    assert!(matches!(locate_script(&file, Some("plans")), Ok(ScriptSource::File(p)) if p == "plans/a.js"));
}

#[test]
fn previews_keep_the_first_eight_kibibytes() {
    assert_eq!(preview_bytes(b"hello"), "hello");
    let big = vec![b'a'; 9000];
    assert_eq!(preview_bytes(&big).len(), 8192);
    assert_eq!(preview_bytes(&[0xff, b'a']), "\u{fffd}a");
}

#[test]
fn runtime_substitution_follows_the_resolution_order() {
    let file = vars(&[("a", "file"), ("b", "file-b")]);
    let globals = vars(&[("a", "global")]);
    let request_vars = vars(&[("c", "request")]);
    let env = vars(&[("HOME_DIR", "/home/me")]);
    let (r, _) = substitute_runtime("{{a}} {{b}} {{c}} {{$env.HOME_DIR}}", &file, &globals, &request_vars, &env);
    assert_eq!(r.unwrap(), "global file-b request /home/me");
    let (r, _) = substitute_runtime("x {{ nope }} y", &file, &globals, &request_vars, &env);
    assert_eq!(r.unwrap_err().message(), "unresolved variable {{nope}}");
}

#[test]
fn requests_are_resolved_before_sending() {
    let req = request("POST {{base}}/x\nX-Token: {{token}}\n\n{\"a\": \"{{a}}\"}");
    let exec = ExecutableRequest::from_plan(&req);
    assert_eq!(exec.url, "{{base}}/x");
    let file = vars(&[("base", "https://api.test"), ("token", "t1"), ("a", "1")]);
    let none = Variables::new();
    let resolved = resolve_request(&exec, &file, &none, &none, &none).unwrap();
    assert_eq!(resolved.url, "https://api.test/x");
    assert_eq!(resolved.headers[0].value, "t1");
    assert_eq!(resolved.body.as_deref(), Some("{\"a\": \"1\"}"));
    let bad = vars(&[("base", "ftp://api.test")]);
    let err = resolve_request(&exec, &bad, &none, &none, &none).unwrap_err();
    assert_eq!(err.message(), "unsupported URL scheme ftp; only http and https are supported");
    let missing = resolve_request(&exec, &none, &none, &none, &none).unwrap_err();
    assert_eq!(missing.message(), "unresolved variable {{base}}");
}

#[test]
fn bad_methods_and_headers_are_caught_before_sending() {
    let ok = ExecutableRequest { method: "GET".to_string(), url: "https://a.test".to_string(), headers: vec![], body: None };
    assert!(check_request(&ok).is_ok());
    let bad_method = ExecutableRequest { method: "G ET".to_string(), url: "https://a.test".to_string(), headers: vec![], body: None };
    assert_eq!(check_request(&bad_method).unwrap_err(), "invalid method: invalid HTTP method");
    let bad_name = ExecutableRequest {
        method: "GET".to_string(),
        url: "https://a.test".to_string(),
        headers: vec![HttpHeader { name: "bad name".to_string(), value: "v".to_string() }],
        body: None,
    };
    assert_eq!(check_request(&bad_name).unwrap_err(), "invalid header name bad name: invalid HTTP header name");
    let bad_value = ExecutableRequest {
        method: "GET".to_string(),
        url: "https://a.test".to_string(),
        headers: vec![HttpHeader { name: "x".to_string(), value: "a\nb".to_string() }],
        body: None,
    };
    assert_eq!(check_request(&bad_value).unwrap_err(), "invalid value for header x: failed to parse header value");
}

fn cert(id: &str, hosts: &[&str]) -> CertificateConfig {
    CertificateConfig {
        id: id.to_string(),
        name: format!("{id} name"),
        hosts: hosts.iter().map(|h| h.to_string()).collect(),
        enabled: true,
        cert_path: String::new(),
        key_path: String::new(),
        cert_file_name: String::new(),
        key_file_name: String::new(),
        fingerprint_sha256: String::new(),
        created_at_ms: 0,
        updated_at_ms: 0,
    }
}

fn skipped_message(choice: ClientChoice) -> String {
    match choice {
        ClientChoice::Default(m) => m.message.unwrap(),
        ClientChoice::Certificate(..) => panic!("a certificate was chosen"),
    }
}

#[test]
fn client_certificates_are_chosen_for_https_hosts() {
    let store = CertificateStore::new(vec![cert("c1", &["*.example.com"])]);
    assert_eq!(skipped_message(choose_client("http://api.example.com", Some(&store))), "mTLS skipped for non-HTTPS URL");
    assert_eq!(skipped_message(choose_client("not a url", Some(&store))), "mTLS skipped because request URL could not be parsed");
    assert_eq!(skipped_message(choose_client("https://api.example.com", None)), "mTLS skipped because no certificate store is configured");
    assert_eq!(skipped_message(choose_client("https://other.test", Some(&store))), "mTLS: no configured client certificate matched other.test");
    match choose_client("https://api.example.com/x", Some(&store)) {
        ClientChoice::Certificate(m, r) => {
            assert_eq!(m.id, "c1");
            assert!(r.certificate_selected);
            assert_eq!(r.certificate_name.as_deref(), Some("c1 name"));
            assert_eq!(r.message.as_deref(), Some("mTLS: https host api.example.com matched *.example.com using c1 name"));
        }
        ClientChoice::Default(_) => panic!("no certificate was chosen"),
    }
}

#[test]
fn a_run_passes_only_without_errors_and_with_passing_checks() {
    let req = request("GET https://example.com/ok");
    let mut run = RequestRun::start(&req);
    assert_eq!(run.executable.url, "https://example.com/ok");
    let none = Variables::new();
    run.resolve(&none, &none, &none, &none);
    assert!(run.error.is_none());
    run.status = Some(200);
    run.record_body(b"{}");
    run.check_status(&req, 200);
    let result = run.finish(&req, 5);
    assert!(result.ok);
    assert_eq!(result.assertions.len(), 1);
    assert_eq!(result.response_bytes, 2);
    assert_eq!(result.response_preview, "{}");

    let mut run = RequestRun::start(&req);
    run.status = Some(500);
    run.check_status(&req, 500);
    let result = run.finish(&req, 5);
    assert!(!result.ok);
    assert_eq!(result.assertions[0].message, "expected status 200, got 500");
}

#[test]
fn script_errors_stop_a_run() {
    let req = request("GET https://example.com/ok");
    let mut run = RequestRun::start(&req);
    let go_on = run.record_script(
        "pre-request",
        "throw 1",
        ScriptOutcome {
            tests: vec![AssertionResult { name: "t".to_string(), passed: false, message: "no".to_string() }],
            logs: vec!["hello".to_string()],
            errors: vec![ScriptRuntimeError { name: None, message: "1".to_string(), stack: None }],
        },
    );
    assert!(!go_on);
    assert_eq!(run.logs, vec!["hello".to_string()]);
    assert_eq!(run.error.as_deref(), Some("pre-request script failed: 1"));
    assert_eq!(run.diagnostics.len(), 1);
    let result = run.stopped(&req, 1);
    assert!(!result.ok);
    assert!(result.status.is_none());

    let mut run = RequestRun::start(&req);
    run.record_missing_script("pre-request", "external script a.js cannot be resolved for ad-hoc execution".to_string());
    assert_eq!(run.diagnostics[0].phase, "pre-request");
    let result = run.failed_before_send(&req, 2, "late".to_string());
    assert_eq!(result.error.as_deref(), Some("late"));
    assert_eq!(result.response_bytes, 0);
}

#[test]
fn unresolved_placeholders_stop_a_run() {
    let req = request("GET https://example.com/{{missing}}");
    let mut run = RequestRun::start(&req);
    let none = Variables::new();
    run.resolve(&none, &none, &none, &none);
    assert_eq!(run.error.as_deref(), Some("unresolved variable {{missing}}"));
    run.record_body_error("eof");
    assert_eq!(run.error.as_deref(), Some("failed to read response body: eof"));
}

#[test]
fn reports_count_passed_and_failed_requests() {
    let req = request("GET https://example.com/ok");
    let mut ok_run = RequestRun::start(&req);
    ok_run.status = Some(200);
    ok_run.check_status(&req, 200);
    let ok = ok_run.finish(&req, 3);
    let mut bad_run = RequestRun::start(&req);
    bad_run.status = None;
    bad_run.error = Some("connection refused".to_string());
    bad_run.mtls = MtlsResult {
        certificate_selected: true,
        certificate_id: Some("c1".to_string()),
        certificate_name: None,
        matched_host_pattern: Some("*.example.com".to_string()),
        message: Some("mTLS: picked".to_string()),
    };
    bad_run.diagnostics.push(ExecutionDiagnostic {
        kind: "script".to_string(),
        phase: "pre-request".to_string(),
        message: "boom".to_string(),
        details: Some("a\n b".to_string()),
        source_preview: Some("  1: x".to_string()),
    });
    bad_run.logs.push("note".to_string());
    let bad = bad_run.finish(&req, 4);
    let report = plan_report("exec-1".to_string(), "p.http", "P", "GET x".to_string(), 10, 20, 7, vec![ok, bad]);
    assert_eq!(report.total, 2);
    assert_eq!(report.passed, 1);
    assert_eq!(report.failed, 1);
    assert_eq!(report.plan_path, "p.http");
    let log = execution_log(&report);
    let expected = [
        "Execution exec-1",
        "Plan P (p.http)",
        "Result: 1/2 passed, 1 failed in 7 ms",
        "",
        "PASS GET https://example.com/ok -> 200 in 3 ms",
        "  PASS HTTP status is successful: status was 200",
        "FAIL GET https://example.com/ok -> ERR in 4 ms",
        "  error: connection refused",
        "  mTLS: picked",
        "  mtls certificate: unknown (*.example.com)",
        "  diagnostic [script:pre-request]: boom",
        "    details: a | b",
        "    script:",
        "        1: x",
        "  log: note",
    ]
    .join("\n");
    assert_eq!(log, expected);
}

#[test]
fn nothing_is_sent_after_a_stop_or_an_unresolved_placeholder() {
    let none = Variables::new();
    let req = request("GET https://example.com/{{missing}}");
    let mut run = RequestRun::start(&req);
    assert!(!run.prepare(&none, &none, &none, &none));
    assert_eq!(run.error.as_deref(), Some("unresolved variable {{missing}}"));

    let req = request("GET https://example.com/{{id}}");
    let mut stopped = RequestRun::start(&req);
    stopped.record_script_failure("pre-request", "throw 1", "script failed".to_string());
    assert!(!stopped.prepare(&none, &none, &vars(&[("id", "7")]), &none));
    assert_eq!(stopped.executable.url, "https://example.com/{{id}}");
    assert_eq!(stopped.error.as_deref(), Some("script failed"));

    let mut ok = RequestRun::start(&req);
    assert!(ok.prepare(&none, &none, &vars(&[("id", "7")]), &none));
    assert_eq!(ok.executable.url, "https://example.com/7");
}

#[test]
fn drawn_dynamic_values_have_their_shape() {
    let none = Variables::new();
    let (uuid, _) = substitute_runtime("{{$uuid}}", &none, &none, &none, &none);
    let uuid = uuid.unwrap();
    assert_eq!(uuid.len(), 36);
    assert_eq!(uuid.as_bytes()[14], b'4');
    assert!(uuid.chars().all(|c| c == '-' || c.is_ascii_hexdigit()));
    let (ts, _) = substitute_runtime("{{$timestamp}}", &none, &none, &none, &none);
    assert!(ts.unwrap().parse::<i64>().is_ok());
}

#[test]
fn methods_and_headers_follow_the_token_and_value_rules() {
    let req = |method: &str, name: &str, value: &str| ExecutableRequest {
        method: method.to_string(),
        url: "https://a.test".to_string(),
        headers: vec![HttpHeader { name: name.to_string(), value: value.to_string() }],
        body: None,
    };
    assert!(check_request(&req("M-SEARCH", "X-Trace_Id", "a\tb é")).is_ok());
    assert!(check_request(&req("wOw!!", "x", "v")).is_ok());
    assert!(check_request(&req("", "x", "v")).is_err());
    assert!(check_request(&req("GÉT", "x", "v")).is_err());
    assert!(check_request(&req("GET", "", "v")).is_err());
    assert!(check_request(&req("GET", "x(y)", "v")).is_err());
    assert!(check_request(&req("GET", &"a".repeat(65535), "v")).is_ok());
    assert!(check_request(&req("GET", &"a".repeat(65536), "v")).is_err());
    assert!(check_request(&req("GET", "x", "a\u{7f}")).is_err());
}

#[test]
fn dynamic_names_are_always_filled() {
    let none = Variables::new();
    let (iso, _) = substitute_runtime("{{$isoTimestamp}}", &none, &none, &none, &none);
    let iso = iso.unwrap();
    assert!(iso.ends_with("+00:00"));
    assert_eq!(&iso[4..5], "-");
    assert_eq!(&iso[10..11], "T");
    let (uuid, _) = substitute_runtime("id={{ $random.uuid }}", &none, &none, &none, &none);
    assert_eq!(uuid.unwrap().len(), 3 + 36);
    let req = request("GET https://example.com/{{$uuid}}");
    let mut run = RequestRun::start(&req);
    assert!(run.prepare(&none, &none, &none, &none));
    assert!(!run.executable.url.contains("{{"));
}

#[test]
fn a_run_records_its_client_status_and_send_error() {
    let req = request("GET https://example.com");
    let mut run = RequestRun::start(&req);
    assert!(!run.mtls.certificate_selected && run.mtls.certificate_id.is_none());
    let mut choice = MtlsResult::default();
    choice.message = Some("no certificate".to_string());
    run.use_client(choice);
    assert_eq!(run.mtls.message.as_deref(), Some("no certificate"));
    run.record_status(204);
    assert_eq!(run.status, Some(204));
    run.record_send_error("connection refused".to_string());
    assert_eq!(run.error.as_deref(), Some("connection refused"));
}
