use gate_keeper::error::{AppError, ErrorKind};
use gate_keeper::plan::{AssertionKind, TestPlanInput, TestPlanScript};
use gate_keeper::plan_parser::{parse, parse_client_test_name, parse_status_assertion, validate_url};
use gate_keeper::substitution::Variables;

fn input(content: &str) -> TestPlanInput {
    TestPlanInput {
        name: Some("Smoke".to_string()),
        content: content.to_string(),
        variables: Variables::new(),
    }
}

fn chars(s: &str) -> Vec<char> {
    s.chars().collect()
}

#[test]
fn parses_variables_multiple_requests_body_and_assertions() {
    let plan = parse(input(
        r#"
@host = https://example.com

### Create user
POST {{host}}/users
Content-Type: application/json

{"name":"Ada"}
> {% client.test("created", () => client.assert(response.status === 201)); %}

###
# @name Fetch user
GET {{host}}/users/1
"#,
    ))
    .unwrap();

    assert_eq!(plan.name, "Smoke");
    assert_eq!(plan.requests.len(), 2);
    assert_eq!(plan.requests[0].name, "Create user");
    assert_eq!(plan.requests[0].method, "POST");
    assert_eq!(plan.requests[0].url, "https://example.com/users");
    assert_eq!(plan.requests[0].body.as_deref(), Some("{\"name\":\"Ada\"}"));
    assert_eq!(plan.requests[0].assertions[0].name, "created");
    assert_eq!(plan.requests[1].name, "Fetch user");
}

#[test]
fn preserves_unresolved_variables_for_runtime_resolution() {
    let plan = parse(input("GET https://example.com/{{missing}}")).unwrap();
    assert_eq!(plan.requests[0].url, "https://example.com/{{missing}}");
}

#[test]
fn rejects_empty_plans() {
    let err = parse(input("@host = https://example.com")).unwrap_err();
    assert!(matches!(err, AppError::BadRequest(_)));
}

#[test]
fn requests_keep_raw_text_and_defaults() {
    let plan = parse(TestPlanInput {
        name: Some("   ".to_string()),
        content: "get https://example.com/{{path}}\nAccept: {{type}}\nbroken header\n\nline one\n\n\n"
            .to_string(),
        variables: {
            let mut v = Variables::new();
            v.insert("type".to_string(), "text/plain".to_string());
            v
        },
    })
    .unwrap();
    assert_eq!(plan.name, "Uploaded test plan");
    let r = &plan.requests[0];
    assert_eq!(r.id, 1);
    assert_eq!(r.method, "GET");
    assert_eq!(r.name, "GET https://example.com/{{path}}");
    assert_eq!(r.raw_url, "https://example.com/{{path}}");
    assert_eq!(r.headers[0].name, "Accept");
    assert_eq!(r.headers[0].value, "text/plain");
    assert_eq!(r.raw_headers[0].value, "{{type}}");
    assert_eq!(r.body.as_deref(), Some("line one"));
    assert_eq!(r.assertions.len(), 1);
    assert_eq!(r.assertions[0].name, "HTTP status is successful");
    assert_eq!(r.assertions[0].kind, AssertionKind::StatusEquals { expected: 200 });
    assert_eq!(plan.warnings, vec!["Request 1 ignored malformed header: broken header".to_string()]);
}

#[test]
fn given_variables_override_file_variables() {
    let mut given = Variables::new();
    given.insert("host".to_string(), "http://override.test".to_string());
    let plan = parse(TestPlanInput {
        name: None,
        content: "@host = https://file.test\nGET {{host}}/x".to_string(),
        variables: given,
    })
    .unwrap();
    assert_eq!(plan.requests[0].url, "http://override.test/x");
    assert_eq!(plan.variables.get("host").as_deref(), Some("http://override.test"));
}

#[test]
fn scripts_are_collected_with_their_markers() {
    let plan = parse(input(
        "< {% request.variables.set('a', 1); %}\nPOST https://example.com\n< ./pre.js\n\n{}\n> {%\nclient.test(\"ok\", function() { client.assert(response.status == 204); });\n%}\n> handler.js",
    ))
    .unwrap();
    let r = &plan.requests[0];
    assert_eq!(r.pre_request_scripts.len(), 2);
    assert!(matches!(&r.pre_request_scripts[0], TestPlanScript::Inline { source } if source == "request.variables.set('a', 1);"));
    assert!(matches!(&r.pre_request_scripts[1], TestPlanScript::File { path } if path == "./pre.js"));
    assert_eq!(r.response_handler_scripts.len(), 2);
    assert_eq!(r.assertions.len(), 2);
    assert_eq!(r.assertions[0].name, "ok");
    assert_eq!(r.assertions[0].kind, AssertionKind::StatusEquals { expected: 204 });
    assert_eq!(r.body.as_deref(), Some("{}"));
}

#[test]
fn unterminated_scripts_are_warned_about() {
    let plan = parse(input("GET https://example.com\n> {% client.log(1);\nmore")).unwrap();
    assert_eq!(plan.warnings, vec!["Request 1 has an unterminated script block".to_string()]);
    assert!(matches!(&plan.requests[0].response_handler_scripts[0], TestPlanScript::Inline { source } if source == "client.log(1);\nmore"));
    assert_eq!(plan.requests[0].assertions.len(), 0);
}

#[test]
fn missing_urls_and_bad_schemes_are_refused() {
    let err = parse(input("GET")).unwrap_err();
    assert!(matches!(err, AppError::BadRequest(_)));
    let err = parse(input("### one\nGET https://a.test\n### two\nPOST")).unwrap_err();
    assert_eq!(err.message(), "request 2 is missing a URL");
    let err = parse(input("GET ftp://example.com/file")).unwrap_err();
    assert_eq!(err.message(), "unsupported URL scheme ftp; only http and https are supported");
    let err = parse(input("GET not a url")).unwrap_err();
    assert!(err.message().starts_with("invalid request URL not: "));
    assert_eq!(err.kind(), ErrorKind::BadRequest);
}

#[test]
fn validate_url_accepts_http_and_https_only() {
    assert!(validate_url("http://example.com").is_ok());
    assert!(validate_url("https://example.com/a?b=c").is_ok());
    assert!(validate_url("mailto:me@example.com").is_err());
}

#[test]
fn status_assertions_are_read_from_handler_lines() {
    assert_eq!(parse_status_assertion(&chars("client.assert(response.status === 201)")), Some(201));
    assert_eq!(parse_status_assertion(&chars("response.status ==  404;")), Some(404));
    assert_eq!(parse_status_assertion(&chars("response.status === 99999")), None);
    assert_eq!(parse_status_assertion(&chars("response.body")), None);
    assert_eq!(parse_client_test_name(&chars("client.test('it\\'s ok', fn)")), Some(chars("it's ok")));
    assert_eq!(parse_client_test_name(&chars("client.test(`unterminated")), None);
    assert_eq!(parse_client_test_name(&chars("client.test(name)")), None);
}

#[test]
fn dynamic_placeholders_are_drawn_while_reading() {
    let plan = parse(input("GET https://example.com/{{$uuid}}/{{$timestamp}}")).unwrap();
    let url = &plan.requests[0].url;
    assert!(!url.contains("{{"));
    let tail = &url["https://example.com/".len()..];
    let parts: Vec<&str> = tail.split('/').collect();
    assert_eq!(parts[0].len(), 36);
    assert_eq!(&parts[0][14..15], "4");
    assert!(parts[1].chars().all(|c| c.is_ascii_digit()));
}

#[test]
fn dynamic_values_are_filled_when_a_plan_is_read() {
    let plan = parse(TestPlanInput {
        name: None,
        content: "GET https://example.com/{{$uuid}}?t={{$timestamp}}\n".to_string(),
        variables: Variables::new(),
    })
    .unwrap();
    let url = &plan.requests[0].url;
    assert!(!url.contains("{{"));
    assert_eq!(url.len(), "https://example.com/".len() + 36 + 3 + url.split("?t=").nth(1).unwrap().len());
}
