use mpodol::action::Tool;
use mpodol::grammar::{compile_step, spellable_tools, GrammarError};
use mpodol::runbook::{example_service_restart, Permit, Step};

#[test]
fn grammar_is_step_scoped() {
    let rb = example_service_restart();
    let g0 = compile_step(rb.step(0).unwrap()).unwrap();
    let g1 = compile_step(rb.step(1).unwrap()).unwrap();

    assert_ne!(g0.gbnf, g1.gbnf, "different steps must get different grammars");
    assert_eq!(spellable_tools(&g0), vec![Tool::FileRead]);
    assert_eq!(spellable_tools(&g1), vec![Tool::ShellExec]);

    // The point of the whole exercise: at step 1, "file_write" is not a
    // thing the model is able to say.
    assert!(!g1.gbnf.contains("file_write"));
    assert!(!g0.gbnf.contains("shell_exec"));
}

#[test]
fn grammar_bakes_path_root_as_literal() {
    let rb = example_service_restart();
    let g = compile_step(rb.step(0).unwrap()).unwrap();
    // The opening JSON quote and the root travel together as one literal,
    // so the prefix cannot be skipped.
    assert!(
        g.gbnf.contains(r#""\"/etc/mpodol/""#),
        "root not baked in:\n{}",
        g.gbnf
    );
}

#[test]
fn grammar_bakes_argv0_allowlist() {
    let rb = example_service_restart();
    let g = compile_step(rb.step(1).unwrap()).unwrap();
    let rule = g
        .gbnf
        .lines()
        .find(|l| l.starts_with("a0-cmd ::="))
        .expect("cmd rule must exist");
    // Exact rule text, not a substring search: the property under test is
    // that the allowlist contains *only* what the operator authorized, and a
    // loose `contains` check cannot see an extra alternative.
    assert_eq!(
        rule,
        r#"a0-cmd ::= "\"systemctl\"" | "\"systemctl " char* "\"""#
    );
}

#[test]
fn argv0_is_anchored_not_merely_prefixed() {
    // `systemctlfoo` must not be spellable: argv0 either ends at the closing
    // quote or is followed by a space.
    let rb = example_service_restart();
    let g = compile_step(rb.step(1).unwrap()).unwrap();
    assert!(!g.gbnf.contains(r#""\"systemctl" char*"#), "argv0 left unanchored:\n{}", g.gbnf);
}

#[test]
fn integer_digit_bound_tracks_the_ceiling() {
    let rb = example_service_restart();
    let g = compile_step(rb.step(1).unwrap()).unwrap();
    // max_timeout_ms = 5000 -> 4 digits max.
    assert!(g.gbnf.contains("[0-9] [0-9] [0-9] [0-9]"));
    assert!(!g.gbnf.contains("[0-9] [0-9] [0-9] [0-9] [0-9]"));
}

#[test]
fn keys_are_emitted_in_declared_order() {
    let step = Step::new(
        "edit",
        "x",
        vec![Permit::new(Tool::FileEdit).roots(["/tmp/"])],
    );
    let g = compile_step(&step).unwrap();
    let p = g.gbnf.find("path").unwrap();
    let f = g.gbnf.find("find").unwrap();
    let r = g.gbnf.find("replace").unwrap();
    assert!(p < f && f < r, "declared arg order must survive into the grammar");
}

#[test]
fn unconstrained_path_warns_rather_than_silently_widening() {
    let step = Step::new("s", "x", vec![Permit::new(Tool::FileRead)]);
    let g = compile_step(&step).unwrap();
    assert!(g.warnings.iter().any(|w| w.contains("no path_roots")));
}

#[test]
fn unconstrained_shell_warns() {
    let step = Step::new("s", "x", vec![Permit::new(Tool::ShellExec)]);
    let g = compile_step(&step).unwrap();
    assert!(g.warnings.iter().any(|w| w.contains("no argv0_allow")));
}

#[test]
fn hostile_literal_is_rejected_not_escaped() {
    let step = Step::new(
        "s",
        "x",
        vec![Permit::new(Tool::FileRead).roots(["/tmp/\"; rm -rf /"])],
    );
    match compile_step(&step) {
        Err(GrammarError::UnsafeLiteral { field, .. }) => assert_eq!(field, "path_roots"),
        other => panic!("expected UnsafeLiteral, got {:?}", other),
    }
}

#[test]
fn multi_tool_step_produces_one_alternative_per_tool() {
    let step = Step::new(
        "s",
        "x",
        vec![
            Permit::new(Tool::FileRead).roots(["/etc/"]),
            Permit::new(Tool::Search).roots(["/etc/"]),
        ],
    );
    let g = compile_step(&step).unwrap();
    assert!(g.gbnf.starts_with("# mpodol GBNF"));
    assert!(g.gbnf.contains("root ::= act-0 | act-1"));
    assert_eq!(spellable_tools(&g), vec![Tool::FileRead, Tool::Search]);
}

#[test]
fn empty_step_has_no_grammar() {
    let step = Step::new("s", "x", vec![]);
    assert!(matches!(compile_step(&step), Err(GrammarError::NoPermits { .. })));
}
