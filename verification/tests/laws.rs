use mpodol::action::{fingerprint, Action, ArgMap, ArgValue, Tool};
use mpodol::grammar::{
    check_safe, compile_step, compile_titled, digit_alternatives, digits_in, grammar_admits_path,
    literal, spellable_tools, GrammarError,
};
use mpodol::path::is_under;
use mpodol::runbook::{example_service_restart, Permit, Runbook, Step};
use mpodol::validate::{check_shell, check_url, normalize_lexical, validate, RejectCode};

fn read(path: &str) -> Action {
    let mut args = ArgMap::new();
    args.insert("path".to_string(), ArgValue::Str(path.to_string()));
    Action { tool: Tool::FileRead, args }
}

#[test]
fn normal_paths_are_fixed_points() {
    for path in ["/", "/a/../b/./c//", "/x/y/", "//etc///mpodol/..", "/a..b/..c/d.."] {
        let once = normalize_lexical(path).unwrap();
        assert_eq!(normalize_lexical(&once).unwrap(), once);
    }
    assert_eq!(normalize_lexical("/a..b/..c/d..").unwrap(), "/a..b/..c/d..");
    assert_eq!(normalize_lexical("//etc///mpodol/..").unwrap(), "/etc");
    assert_eq!(normalize_lexical(""), None);
}

#[test]
fn under_compares_segments() {
    assert!(is_under("/etc/mpodol/x", "/etc/mpodol"));
    assert!(is_under("/etc/mpodol", "/etc/mpodol"));
    assert!(!is_under("/etc/mpodolicious", "/etc/mpodol"));
    assert!(!is_under("/etc", "/etc/mpodol"));
    assert!(is_under("/anything", "/"));
}

#[test]
fn accepted_paths_are_contained() {
    let rb = example_service_restart();
    for path in ["/etc/mpodol/a", "/etc/x/../mpodol/b/", "/etc/mpodol"] {
        assert!(validate(&rb, 0, &read(path)).is_ok());
        assert!(is_under(&normalize_lexical(path).unwrap(), "/etc/mpodol"));
    }
}

#[test]
fn order_is_told_from_prohibition() {
    let rb = Runbook {
        name: "r".to_string(),
        steps: vec![
            Step::new("a", "i", vec![Permit::new(Tool::Search)]),
            Step::new("b", "i", vec![Permit::new(Tool::FileRead)]),
        ],
    };
    assert_eq!(validate(&rb, 0, &read("/x")).unwrap_err().code, RejectCode::StepOutOfOrder);
    assert!(validate(&rb, 1, &read("/x")).is_ok());
    let never = Runbook {
        name: "r".to_string(),
        steps: vec![Step::new("a", "i", vec![Permit::new(Tool::Search)])],
    };
    assert_eq!(
        validate(&never, 0, &read("/x")).unwrap_err().code,
        RejectCode::ToolNotPermittedAtStep
    );
}

#[test]
fn arguments_are_canonical() {
    let mut one = ArgMap::new();
    one.insert("timeout_ms".to_string(), ArgValue::Int(100));
    one.insert("cmd".to_string(), ArgValue::Str("no".to_string()));
    one.insert("cmd".to_string(), ArgValue::Str("systemctl restart x".to_string()));
    let mut two = ArgMap::new();
    two.insert("cmd".to_string(), ArgValue::Str("systemctl restart x".to_string()));
    two.insert("timeout_ms".to_string(), ArgValue::Int(100));
    assert_eq!(one, two);
    assert_eq!(one.keys(), vec!["cmd".to_string(), "timeout_ms".to_string()]);
    assert_eq!(one.get("timeout_ms"), Some(&ArgValue::Int(100)));
    assert_eq!(one.get("path"), None);
    let a = Action { tool: Tool::ShellExec, args: one };
    let b = Action { tool: Tool::ShellExec, args: two };
    assert_eq!(fingerprint(&a), fingerprint(&b));
    assert_eq!(fingerprint(&a), "999B2CBCFCE13DD7");
    assert_eq!(fingerprint(&a.clone()), fingerprint(&a));
}

#[test]
fn fingerprints_tell_values_apart() {
    assert_eq!(fingerprint(&read("/etc/mpodol/x")), "363DC12A53A26C67");
    assert_eq!(fingerprint(&read("/etc/mpodol/ä")), "CE541BEC1DD1A3A2");
}

#[test]
fn literals_are_escaped() {
    assert_eq!(literal("a\"b\\c\nd\re\tf"), "\"a\\\"b\\\\c\\nd\\re\\tf\"");
    assert_eq!(literal(""), "\"\"");
    assert!(check_safe("path_roots", "/tmp/ä b").is_ok());
    for bad in ["a\"", "a\\", "a\u{1}"] {
        assert_eq!(
            check_safe("path_roots", bad),
            Err(GrammarError::UnsafeLiteral {
                field: "path_roots".to_string(),
                value: bad.to_string()
            })
        );
    }
}

#[test]
fn digit_counts() {
    assert_eq!(digits_in(0), 1);
    assert_eq!(digits_in(5000), 4);
    assert_eq!(digits_in(u64::MAX), 20);
    assert_eq!(digit_alternatives(0), "[0-9]");
    assert_eq!(digit_alternatives(1), "[0-9]");
    assert_eq!(digit_alternatives(3), "[0-9] | [0-9] [0-9] | [0-9] [0-9] [0-9]");
}

#[test]
fn grammar_errors_have_messages() {
    assert_eq!(
        GrammarError::NoPermits { step_id: "a\nb".to_string() }.to_text(),
        "step \"a\\nb\" permits no tools, so no grammar exists"
    );
    assert_eq!(
        GrammarError::UnsafeLiteral { field: "host_allow".to_string(), value: "a\"b".to_string() }
            .to_text(),
        "value for host_allow cannot be embedded in a grammar literal: \"a\\\"b\""
    );
}

#[test]
fn whole_grammar_text() {
    let step = Step::new(
        "fetch-and-\"keep\"",
        "Fetch it.",
        vec![
            Permit::new(Tool::HttpFetch).hosts(["updates.local"]),
            Permit::new(Tool::FileEdit).roots(["/srv/", "/opt/"]),
        ],
    );
    let g = compile_step(&step).unwrap();
    let expected = r##"# mpodol GBNF — step "fetch-and-\"keep\""
# intent: Fetch it.
# Generated per step. Do not hand-edit; edit the runbook's Permit instead.
# No whitespace productions: the model emits one compact JSON object,
# which removes indentation as a source of sampling divergence.

root ::= act-0 | act-1
act-0 ::= "{\"tool\":\"http_fetch\",\"args\":{\"url\":" a0-url "}}"
act-1 ::= "{\"tool\":\"file_edit\",\"args\":{\"path\":" a1-path ",\"find\":" freestr ",\"replace\":" freestr "}}"
a0-url ::= "\"http://updates.local/" char* "\"" | "\"https://updates.local/" char* "\""
a1-path ::= "\"/srv/" char* "\"" | "\"/opt/" char* "\""
freestr ::= "\"" char* "\""
char ::= [^"\\]
"##;
    assert_eq!(g.gbnf, expected);
    assert!(g.warnings.is_empty());
    // The title is all that the step's id adds.
    assert_eq!(compile_titled("\"fetch-and-\\\"keep\\\"\"", &step).unwrap(), g);
}

#[test]
fn warnings_name_the_argument() {
    let step = Step::new(
        "s",
        "x",
        vec![
            Permit::new(Tool::FileRead),
            Permit::new(Tool::ShellExec),
            Permit::new(Tool::HttpFetch),
        ],
    );
    let g = compile_step(&step).unwrap();
    assert_eq!(
        g.warnings,
        vec![
            "step \"s\": tool file_read argument \"path\" has no path_roots — the grammar cannot constrain it, so the semantic pass is the only guard",
            "step \"s\": tool shell_exec argument \"cmd\" has no argv0_allow — an unconstrained shell command is samplable",
            "step \"s\": tool http_fetch argument \"url\" has no host_allow",
        ]
    );
    assert!(g.gbnf.contains(
        "\na1-timeout-ms ::= [0-9] | [0-9] [0-9] | [0-9] [0-9] [0-9] | "
    ));
}

#[test]
fn hostile_commands_and_hosts_are_refused() {
    let shell = Step::new("s", "x", vec![Permit::new(Tool::ShellExec).argv0(["ok", "a\\b"])]);
    assert_eq!(
        compile_step(&shell),
        Err(GrammarError::UnsafeLiteral {
            field: "argv0_allow".to_string(),
            value: "a\\b".to_string()
        })
    );
    let host = Step::new("s", "x", vec![Permit::new(Tool::HttpFetch).hosts(["a\u{7f}"])]);
    assert_eq!(
        compile_step(&host),
        Err(GrammarError::UnsafeLiteral {
            field: "host_allow".to_string(),
            value: "a\u{7f}".to_string()
        })
    );
}

#[test]
fn path_rule_and_proxy_agree() {
    let permit = Permit::new(Tool::FileRead).roots(["/etc/mpodol/"]);
    assert!(grammar_admits_path(&permit, "/etc/mpodol/x y"));
    assert!(!grammar_admits_path(&permit, "/etc/mpodo"));
    assert!(!grammar_admits_path(&permit, "/etc/mpodol/\""));
    assert!(!grammar_admits_path(&permit, "/etc/mpodol/\\"));
    assert!(grammar_admits_path(&Permit::new(Tool::FileRead), "anything"));
    assert!(!grammar_admits_path(&Permit::new(Tool::FileRead), "a\"b"));
}

#[test]
fn spellable_tools_are_the_permitted_ones() {
    for tool in Tool::all() {
        let g = compile_step(&Step::new("s", "x", vec![Permit::new(tool)])).unwrap();
        assert_eq!(spellable_tools(&g), vec![tool]);
    }
    // Roots and commands cannot bring a tool in.
    let step = Step::new(
        "file_write",
        "use file_write",
        vec![
            Permit::new(Tool::Search).roots(["tool:file_write"]),
            Permit::new(Tool::ShellExec).argv0(["tool", "file_write"]),
        ],
    );
    let g = compile_step(&step).unwrap();
    assert_eq!(spellable_tools(&g), vec![Tool::ShellExec, Tool::Search]);
    // An id or an intent that spells a marker out stands in a comment.
    let odd = Step::new("s", "\\\"tool\\\":\\\"file_write", vec![Permit::new(Tool::Search)]);
    let g = compile_step(&odd).unwrap();
    assert!(g.gbnf.contains("\\\"tool\\\":\\\"file_write"));
    assert_eq!(spellable_tools(&g), vec![Tool::Search]);
    let odd = Step::new("\"tool\":\"file_write", "x", vec![Permit::new(Tool::Search)]);
    let g = compile_step(&odd).unwrap();
    assert!(g.gbnf.contains("\\\"tool\\\":\\\"file_write"));
    assert_eq!(spellable_tools(&g), vec![Tool::Search]);
    let odd = Step::new(
        "s",
        r#"avoid \"tool\":\"shell_exec"#,
        vec![Permit::new(Tool::FileRead).roots(["/etc/"])],
    );
    assert_eq!(spellable_tools(&compile_step(&odd).unwrap()), vec![Tool::FileRead]);
    // A line break ends the comment. What follows does no harm unless it spells
    // a marker and is no comment itself.
    let repeated = vec![
        Permit::new(Tool::Search),
        Permit::new(Tool::FileRead),
        Permit::new(Tool::Search),
    ];
    for intent in ["x\ny", "x\n\"tool\"", "\n# \\\"tool\\\":\\\"file_write", "\\\"tool\\\":\\\"file_edit\n"] {
        let g = compile_step(&Step::new("s", intent, repeated.clone())).unwrap();
        assert_eq!(spellable_tools(&g), vec![Tool::FileRead, Tool::Search]);
    }
    let broken = Step::new("s", "x\n\\\"tool\\\":\\\"file_write", vec![Permit::new(Tool::Search)]);
    let g = compile_step(&broken).unwrap();
    assert_eq!(spellable_tools(&g), vec![Tool::FileWrite, Tool::Search]);
}

#[test]
fn id_and_intent_reach_no_rule() {
    let permits = vec![Permit::new(Tool::FileRead), Permit::new(Tool::ShellExec).argv0(["df"])];
    let one = compile_step(&Step::new("a\nb", "first", permits.clone())).unwrap();
    let two = compile_step(&Step::new("c", "# second \\\"tool", permits)).unwrap();
    let rules = |gbnf: &str| -> Vec<String> {
        gbnf.lines().filter(|l| !l.starts_with('#')).map(|l| l.to_string()).collect()
    };
    assert_ne!(one.gbnf, two.gbnf);
    assert_eq!(rules(&one.gbnf), rules(&two.gbnf));
    assert_eq!(one.warnings.len(), two.warnings.len());
    assert_ne!(one.warnings, two.warnings);
    let hostile = |id: &str| Step::new(id, id, vec![Permit::new(Tool::FileRead).roots(["\""])]);
    assert!(compile_step(&hostile("a")).is_err() && compile_step(&hostile("b")).is_err());
}

#[test]
fn steps_are_found_by_tool() {
    let rb = example_service_restart();
    assert_eq!(rb.next_step_permitting(Tool::FileWrite, 0), Some(2));
    assert_eq!(rb.next_step_permitting(Tool::FileRead, 0), Some(0));
    assert_eq!(rb.next_step_permitting(Tool::FileRead, 1), None);
    assert_eq!(rb.next_step_permitting(Tool::Search, 0), None);
    assert!(rb.step(3).is_none());
    let step = rb.step(1).unwrap();
    assert!(step.permit_for(Tool::FileRead).is_none());
    assert_eq!(step.permit_for(Tool::ShellExec).unwrap().max_timeout_ms, Some(5000));
    let bounded = Permit::new(Tool::FileWrite).max_text(7).max_timeout(9);
    assert_eq!(bounded.max_text_bytes, Some(7));
    assert_eq!(bounded.max_timeout_ms, Some(9));
}

#[test]
fn admitted_commands_and_urls_name_listed_ones() {
    let shell = Permit::new(Tool::ShellExec).argv0(["systemctl", "df"]);
    let g = compile_step(&Step::new("s", "x", vec![shell.clone()])).unwrap();
    assert!(g.gbnf.contains(
        "a0-cmd ::= \"\\\"systemctl\\\"\" | \"\\\"systemctl \" char* \"\\\"\" | \"\\\"df\\\"\" | \"\\\"df \" char* \"\\\"\"\n"
    ));
    for cmd in ["systemctl", "systemctl restart x", "df -h"] {
        assert!(check_shell("cmd", cmd, &shell).is_ok());
    }
    assert!(check_shell("cmd", "dfx", &shell).is_err());
    let fetch = Permit::new(Tool::HttpFetch).hosts(["updates.local"]);
    for url in ["http://updates.local/", "https://updates.local/a@b:c"] {
        assert!(check_url("url", url, &fetch).is_ok());
    }
}

#[test]
fn keys_stand_before_their_values() {
    let g = compile_step(&Step::new("s", "x", vec![Permit::new(Tool::Search).roots(["/"])])).unwrap();
    assert!(g.gbnf.contains(
        "act-0 ::= \"{\\\"tool\\\":\\\"search\\\",\\\"args\\\":{\\\"path\\\":\" a0-path \",\\\"query\\\":\" freestr \"}}\"\n"
    ));
}
