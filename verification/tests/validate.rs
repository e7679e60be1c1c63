use mpodol::action::{Action, ArgMap, ArgValue, Tool};
use mpodol::grammar::{compile_step, grammar_admits_path};
use mpodol::runbook::{example_service_restart, Permit, Runbook, Step};
use mpodol::validate::{normalize_lexical, validate, validate_syntactic, RejectCode};
use serde_json::Value;

/// The action that a JSON object spells.
fn act(s: &str) -> Action {
    let v: Value = serde_json::from_str(s).expect("test fixture must parse");
    let name = v["tool"].as_str().expect("a tool");
    let tool = Tool::all()
        .into_iter()
        .find(|t| t.as_str() == name)
        .expect("a known tool");
    let mut args = ArgMap::new();
    for (key, value) in v["args"].as_object().expect("arguments") {
        let value = match value.as_str() {
            Some(text) => ArgValue::Str(text.to_string()),
            None => ArgValue::Int(value.as_u64().expect("a whole number")),
        };
        args.insert(key.clone(), value);
    }
    Action { tool, args }
}

// ---- the test that keeps the validator honest -------------------------
// A validator that rejects everything passes every negative test below.
#[test]
fn semantic_accepts_intended_action() {
    let rb = example_service_restart();
    validate(
        &rb,
        0,
        &act(r#"{"tool":"file_read","args":{"path":"/etc/mpodol/telemetry.conf"}}"#),
    )
    .expect("the happy path must pass");

    validate(
        &rb,
        1,
        &act(r#"{"tool":"shell_exec","args":{"cmd":"systemctl restart telemetry-agent","timeout_ms":4000}}"#),
    )
    .expect("the happy path must pass");

    validate(
        &rb,
        2,
        &act(r#"{"tool":"file_write","args":{"path":"/var/log/mpodol/run.log","content":"ok"}}"#),
    )
    .expect("the happy path must pass");
}

// ---- the case that proves both layers are load-bearing ----------------
#[test]
fn semantic_rejects_traversal_that_grammar_admits() {
    let rb = example_service_restart();
    let step = rb.step(0).unwrap();
    let permit = step.permit_for(Tool::FileRead).unwrap();
    let sneaky = "/etc/mpodol/../../etc/passwd";

    // Half 1: the grammar admits it. The baked-in root prefix matches
    // exactly, and every remaining character is in the `char` class.
    let g = compile_step(step).unwrap();
    assert!(g.gbnf.contains(r#""\"/etc/mpodol/""#));
    assert!(
        grammar_admits_path(permit, sneaky),
        "grammar should admit this path shape — that is the whole point"
    );

    // Half 2: the semantic pass rejects it anyway.
    let err = validate(
        &rb,
        0,
        &act(r#"{"tool":"file_read","args":{"path":"/etc/mpodol/../../etc/passwd"}}"#),
    )
    .unwrap_err();
    assert_eq!(err.code, RejectCode::PathOutsideRoot);
    assert!(err.reason.contains("/etc/passwd"), "reason: {}", err.reason);
    // The hint has to name the mechanism, or the repair loop teaches nothing.
    assert!(err.repair_hint.contains(".."), "hint: {}", err.repair_hint);
}

#[test]
fn semantic_rejects_wrong_tool_independently_of_grammar() {
    // Nothing here consults the grammar: an action arriving from a replayed
    // log or a future API never passed through sampling at all.
    let rb = example_service_restart();
    let err = validate(
        &rb,
        0,
        &act(r#"{"tool":"http_fetch","args":{"url":"https://example.com/x"}}"#),
    )
    .unwrap_err();
    assert_eq!(err.code, RejectCode::ToolNotPermittedAtStep);
}

#[test]
fn out_of_order_is_distinguished_from_forbidden() {
    let rb = example_service_restart();
    // shell_exec is legitimate, but at step 1, not step 0.
    let err = validate(
        &rb,
        0,
        &act(r#"{"tool":"shell_exec","args":{"cmd":"systemctl restart x","timeout_ms":100}}"#),
    )
    .unwrap_err();
    assert_eq!(err.code, RejectCode::StepOutOfOrder);
    assert!(err.repair_hint.contains("comes later"));
}

#[test]
fn shell_chaining_is_rejected_even_with_allowed_argv0() {
    // The argv0 allowlist is worthless on its own: `systemctl` is permitted,
    // and the grammar's `char*` tail happily admits `; rm -rf /`.
    let rb = example_service_restart();
    let err = validate(
        &rb,
        1,
        &act(r#"{"tool":"shell_exec","args":{"cmd":"systemctl restart x; rm -rf /","timeout_ms":100}}"#),
    )
    .unwrap_err();
    assert_eq!(err.code, RejectCode::ShellMetacharacter);
}

#[test]
fn disallowed_argv0_is_rejected() {
    let rb = example_service_restart();
    let err = validate(
        &rb,
        1,
        &act(r#"{"tool":"shell_exec","args":{"cmd":"reboot now","timeout_ms":100}}"#),
    )
    .unwrap_err();
    assert_eq!(err.code, RejectCode::Argv0NotAllowed);
    assert!(err.repair_hint.contains("systemctl"));
}

#[test]
fn timeout_ceiling_is_enforced_beyond_the_digit_bound() {
    // 9999 has four digits, so the grammar admits it; the ceiling is 5000.
    let rb = example_service_restart();
    let err = validate(
        &rb,
        1,
        &act(r#"{"tool":"shell_exec","args":{"cmd":"systemctl restart x","timeout_ms":9999}}"#),
    )
    .unwrap_err();
    assert_eq!(err.code, RejectCode::TimeoutAboveCeiling);
}

#[test]
fn text_byte_cap_is_enforced() {
    let rb = example_service_restart();
    let big = "x".repeat(4097);
    let a = act(&format!(
        r#"{{"tool":"file_write","args":{{"path":"/var/log/mpodol/run.log","content":"{}"}}}}"#,
        big
    ));
    let err = validate(&rb, 2, &a).unwrap_err();
    assert_eq!(err.code, RejectCode::ArgTooLarge);
}

#[test]
fn path_root_check_respects_segment_boundaries() {
    // `/etc/mpodolicious/` must not pass for the root `/etc/mpodol/`.
    let rb = example_service_restart();
    let err = validate(
        &rb,
        0,
        &act(r#"{"tool":"file_read","args":{"path":"/etc/mpodolicious/secrets"}}"#),
    )
    .unwrap_err();
    assert_eq!(err.code, RejectCode::PathOutsideRoot);
}

#[test]
fn normalize_lexical_cases() {
    assert_eq!(normalize_lexical("/a/./b/../c").as_deref(), Some("/a/c"));
    assert_eq!(normalize_lexical("/a//b/").as_deref(), Some("/a/b"));
    assert_eq!(normalize_lexical("/..") , None);
    assert_eq!(normalize_lexical("/a/../.."), None);
    assert_eq!(normalize_lexical("a/b"), None);
    assert_eq!(normalize_lexical("/").as_deref(), Some("/"));
}

#[test]
fn syntactic_catches_missing_and_extra_args() {
    let e = validate_syntactic(&act(r#"{"tool":"file_write","args":{"path":"/tmp/x"}}"#))
        .unwrap_err();
    assert_eq!(e.code, RejectCode::MissingArg);
    assert!(e.repair_hint.contains("content"));

    let e = validate_syntactic(&act(
        r#"{"tool":"file_read","args":{"path":"/tmp/x","mode":"rw"}}"#,
    ))
    .unwrap_err();
    assert_eq!(e.code, RejectCode::UnknownArg);
}

#[test]
fn syntactic_catches_wrong_type() {
    let e = validate_syntactic(&act(
        r#"{"tool":"shell_exec","args":{"cmd":"ls","timeout_ms":"1000"}}"#,
    ))
    .unwrap_err();
    assert_eq!(e.code, RejectCode::ArgType);
    assert!(e.repair_hint.contains("whole number"));
}

#[test]
fn syntactic_catches_control_characters_grammar_lets_through() {
    let mut a = act(r#"{"tool":"file_read","args":{"path":"/etc/mpodol/x"}}"#);
    a.args
        .insert("path".into(), ArgValue::Str("/etc/mpodol/x\u{0007}".into()));
    let e = validate_syntactic(&a).unwrap_err();
    assert_eq!(e.code, RejectCode::ControlCharacter);
}

#[test]
fn step_past_end_of_runbook_is_rejected() {
    let rb = example_service_restart();
    let e = validate(&rb, 99, &act(r#"{"tool":"file_read","args":{"path":"/etc/mpodol/x"}}"#))
        .unwrap_err();
    assert_eq!(e.code, RejectCode::StepUnknown);
}

#[test]
fn url_host_allowlist() {
    let rb = Runbook {
        name: "fetch".into(),
        steps: vec![Step::new(
            "get",
            "fetch the manifest",
            vec![Permit::new(Tool::HttpFetch).hosts(["updates.local"])],
        )],
    };
    validate(
        &rb,
        0,
        &act(&format!(
            r#"{{"tool":"http_fetch","args":{{"url":"https://updates.local/{}.json"}}}}"#,
            "manifest"
        )),
    )
    .unwrap();

    let e = validate(
        &rb,
        0,
        &act(r#"{"tool":"http_fetch","args":{"url":"https://evil.example/x"}}"#),
    )
    .unwrap_err();
    assert_eq!(e.code, RejectCode::HostNotAllowed);

    // userinfo trick: the real host is evil.example, not updates.local.
    let e = validate(
        &rb,
        0,
        &act(r#"{"tool":"http_fetch","args":{"url":"https://updates.local@evil.example/x"}}"#),
    )
    .unwrap_err();
    assert_eq!(e.code, RejectCode::HostNotAllowed);
}

#[test]
fn reject_codes_are_unique_strings() {
    let all = [
        RejectCode::MissingArg,
        RejectCode::UnknownArg,
        RejectCode::ArgType,
        RejectCode::ControlCharacter,
        RejectCode::StepUnknown,
        RejectCode::ToolNotPermittedAtStep,
        RejectCode::StepOutOfOrder,
        RejectCode::PathNotAbsolute,
        RejectCode::PathAboveFilesystemRoot,
        RejectCode::PathOutsideRoot,
        RejectCode::Argv0NotAllowed,
        RejectCode::ShellMetacharacter,
        RejectCode::HostNotAllowed,
        RejectCode::UrlMalformed,
        RejectCode::ArgTooLarge,
        RejectCode::TimeoutAboveCeiling,
    ];
    let mut seen: Vec<&str> = vec![];
    for c in all {
        assert!(!seen.contains(&c.as_str()), "duplicate code {}", c.as_str());
        seen.push(c.as_str());
    }
}
