//! The text of a compiled grammar, entry by entry and line by line.

use crate::action::{ArgKind, ArgSpec, Tool};
use crate::grammar;
use crate::grammar::Symbol;
use crate::language;
use crate::runbook::{Permit, Step};
use crate::scope;
use crate::text;
use vstd::prelude::*;
use vstd::string::*;

verus! {

// ---- literals -----------------------------------------------------------
/// The law of escaping: each character of a text is escaped on its own, and
/// only quotes, backslashes, line ends and tabs are.
pub proof fn law_escape_goes_by_characters(a: Seq<char>, b: Seq<char>, c: char)
    ensures
        grammar::escape(Seq::empty()) == Seq::<char>::empty(),
        grammar::escape(a + b) == grammar::escape(a) + grammar::escape(b),
        grammar::escape(seq![c]) == (if c == '"' || c == '\\' {
            seq!['\\', c]
        } else if c == '\n' {
            seq!['\\', 'n']
        } else if c == '\r' {
            seq!['\\', 'r']
        } else if c == '\t' {
            seq!['\\', 't']
        } else {
            seq![c]
        }),
        grammar::literal_text(a) == seq!['"'] + grammar::escape(a) + seq!['"'],
{
    scope::lemma_escape_concat(a, b);
    reveal_with_fuel(grammar::escape, 2);
    let one = seq![c];
    assert(one.drop_last() =~= Seq::<char>::empty());
    assert(grammar::escape(one) =~= grammar::escape_char(c));
}

/// A character that stands in a literal as it is: no control character, quote
/// or backslash.
pub open spec fn harmless(c: char) -> bool {
    !(c < ' ' || '\u{7f}' <= c <= '\u{9f}' || c == '"' || c == '\\')
}

proof fn lemma_harmless(c: char)
    ensures
        harmless(c) <==> !text::is_control(c) && c != '"' && c != '\\',
{
    text::law_control_characters(c);
}

/// The law of embedding: a text is embedded exactly if all of its characters
/// are harmless, and then stands in a literal unchanged.
pub proof fn law_embedded_text_stands_unchanged(s: Seq<char>)
    ensures
        grammar::embeddable(s) <==> forall|i: int| 0 <= i < s.len() ==> harmless(#[trigger] s[i]),
        grammar::embeddable(s) ==> grammar::literal_text(s) == seq!['"'] + s + seq!['"'],
{
    if grammar::embeddable(s) {
        scope::lemma_escape_plain(s);
        assert forall|i: int| 0 <= i < s.len() implies harmless(#[trigger] s[i]) by {
            lemma_harmless(s[i]);
        }
    }
    if forall|i: int| 0 <= i < s.len() ==> harmless(#[trigger] s[i]) {
        assert forall|i: int| 0 <= i < s.len() implies !text::is_control(#[trigger] s[i]) && s[i]
            != '"' && s[i] != '\\' by {
            lemma_harmless(s[i]);
        }
    }
}

// ---- alternatives -------------------------------------------------------
/// One more symbol is written after a space.
proof fn lemma_one_more_symbol(alt: Seq<Symbol>, sym: Symbol)
    ensures
        grammar::alternative_text(alt.push(sym)) == (if alt.len() == 0 {
            grammar::symbol_text(sym)
        } else {
            grammar::alternative_text(alt) + " "@ + grammar::symbol_text(sym)
        }),
{
    let parts = grammar::symbol_texts(alt);
    let last = seq![grammar::symbol_text(sym)];
    assert(grammar::symbol_texts(alt.push(sym)) =~= parts + last);
    text::law_join_puts_between(parts, last, " "@);
    if alt.len() == 0 {
        assert(parts + last =~= last);
        text::law_join_puts_between(last, last, " "@);
    }
}

/// One more alternative is written after a bar.
proof fn lemma_one_more_alternative(alts: Seq<Seq<Symbol>>, alt: Seq<Symbol>)
    ensures
        grammar::alternatives_text(alts.push(alt)) == (if alts.len() == 0 {
            grammar::alternative_text(alt)
        } else {
            grammar::alternatives_text(alts) + " | "@ + grammar::alternative_text(alt)
        }),
{
    let parts = grammar::alternative_texts(alts);
    let last = seq![grammar::alternative_text(alt)];
    assert(grammar::alternative_texts(alts.push(alt)) =~= parts + last);
    text::law_join_puts_between(parts, last, " | "@);
    if alts.len() == 0 {
        assert(parts + last =~= last);
        text::law_join_puts_between(last, last, " | "@);
    }
}

/// The parts of an open string, regrouped.
proof fn lemma_regroup_open(a: Seq<char>, t: Seq<char>, b: Seq<char>, c: Seq<char>, d: Seq<char>)
    ensures
        a + t + b + c + d == a + t + (b + c + d),
{
    assert(a + t + b + c + d =~= a + t + (b + c + d));
}

/// The literal of a quote and more.
proof fn lemma_quote_literal(t: Seq<char>)
    requires
        grammar::embeddable(t),
    ensures
        grammar::literal_text(seq!['"'] + t) == "\"\\\""@ + t + seq!['"'],
{
    let q = seq!['"'];
    let none = Seq::<char>::empty();
    scope::lemma_escape_quote(none, t);
    scope::lemma_escape_plain(t);
    assert(none + q + t =~= q + t);
    reveal_strlit("\"\\\"");
    assert(q + (none + seq!['\\', '"'] + t) =~= "\"\\\""@ + t);
}

/// What follows the part of an open string that varies.
proof fn lemma_open_end()
    ensures
        seq!['"'] + (" "@ + "char*"@ + " "@) + grammar::literal_text(seq!['"'])
            == "\" char* \"\\\"\""@,
{
    let q = seq!['"'];
    let none = Seq::<char>::empty();
    lemma_quote_literal(none);
    assert(q + none =~= q);
    reveal_strlit("\"\\\"");
    reveal_strlit("\" char* \"\\\"\"");
    reveal_strlit(" ");
    reveal_strlit("char*");
    assert(q + (" "@ + "char*"@ + " "@) + ("\"\\\""@ + none + q) =~= "\" char* \"\\\"\""@);
}

/// An open string as it is written, with text before and after the part that
/// varies.
proof fn lemma_open_string_text(t: Seq<char>)
    requires
        grammar::embeddable(t),
    ensures
        grammar::alternative_text(grammar::open_string(seq!['"'] + t)) == "\"\\\""@ + t
            + "\" char* \"\\\"\""@,
{
    let q = seq!['"'];
    let syms = Seq::<Symbol>::empty();
    let first = Symbol::Text(q + t);
    let last = Symbol::Text(q);
    lemma_one_more_symbol(syms, first);
    lemma_one_more_symbol(syms.push(first), Symbol::FreeChars);
    lemma_one_more_symbol(syms.push(first).push(Symbol::FreeChars), last);
    assert(syms.push(first).push(Symbol::FreeChars).push(last) =~= grammar::open_string(q + t));
    lemma_quote_literal(t);
    lemma_open_end();
    let start = "\"\\\""@;
    let gap = " "@ + "char*"@ + " "@;
    let end = grammar::literal_text(q);
    assert(start + t + q + " "@ + "char*"@ + " "@ =~= start + t + q + gap);
    lemma_regroup_open(start, t, q, gap, end);
}

/// The law of roots as they are written: each root adds one alternative, in
/// which the opening quote and the root are one literal.
pub proof fn law_root_adds_its_alternative(roots: Seq<Seq<char>>, root: Seq<char>)
    requires
        grammar::embeddable(root),
    ensures
        grammar::alternatives_text(grammar::root_alternatives(roots.push(root))) == (
        if roots.len() == 0 {
            Seq::<char>::empty()
        } else {
            grammar::alternatives_text(grammar::root_alternatives(roots)) + " | "@
        }) + ("\"\\\""@ + root + "\" char* \"\\\"\""@),
{
    let alts = grammar::root_alternatives(roots);
    let alt = grammar::open_string(seq!['"'] + root);
    assert(roots.push(root).drop_last() =~= roots);
    language::lemma_root_alternatives(roots);
    lemma_one_more_alternative(alts, alt);
    lemma_open_string_text(root);
    if roots.len() == 0 {
        let t = "\"\\\""@ + root + "\" char* \"\\\"\""@;
        assert(Seq::<char>::empty() + t =~= t);
    }
}

/// A command as a whole string.
proof fn lemma_whole_text(argv0: Seq<char>)
    requires
        grammar::embeddable(argv0),
    ensures
        grammar::alternative_text(seq![Symbol::Text(seq!['"'] + argv0 + seq!['"'])])
            == "\"\\\""@ + argv0 + "\\\"\""@,
{
    let q = seq!['"'];
    let none = Seq::<char>::empty();
    let sym = Symbol::Text(q + argv0 + q);
    lemma_one_more_symbol(Seq::<Symbol>::empty(), sym);
    assert(Seq::<Symbol>::empty().push(sym) =~= seq![sym]);
    scope::lemma_escape_quote(none, argv0 + q);
    scope::lemma_escape_quote(argv0, none);
    assert(argv0 + q + none =~= argv0 + q);
    assert(none + q + (argv0 + q) =~= q + argv0 + q);
    reveal_strlit("\"\\\"");
    reveal_strlit("\\\"\"");
    assert(grammar::literal_text(q + argv0 + q) =~= "\"\\\""@ + argv0 + "\\\"\""@);
}

/// A command that more follows.
proof fn lemma_spaced_text(argv0: Seq<char>)
    requires
        grammar::embeddable(argv0),
    ensures
        grammar::alternative_text(grammar::open_string(seq!['"'] + argv0 + seq![' ']))
            == "\"\\\""@ + argv0 + " \" char* \"\\\"\""@,
{
    let spaced = argv0 + seq![' '];
    assert forall|i: int| 0 <= i < spaced.len() implies !text::is_control(#[trigger] spaced[i])
        && spaced[i] != '"' && spaced[i] != '\\' by {
        if i < argv0.len() {
            assert(spaced[i] == argv0[i]);
        } else {
            lemma_harmless(' ');
        }
    }
    lemma_open_string_text(spaced);
    assert(seq!['"'] + spaced =~= seq!['"'] + argv0 + seq![' ']);
    reveal_strlit("\" char* \"\\\"\"");
    reveal_strlit(" \" char* \"\\\"\"");
    assert(seq![' '] + "\" char* \"\\\"\""@ =~= " \" char* \"\\\"\""@);
    assert("\"\\\""@ + spaced + "\" char* \"\\\"\""@ =~= "\"\\\""@ + argv0 + (seq![' ']
        + "\" char* \"\\\"\""@));
}

/// The law of commands as they are written: each command adds two
/// alternatives, one in which it is the whole string and one in which a space
/// and anything follow it.
pub proof fn law_command_adds_its_alternatives(allow: Seq<Seq<char>>, argv0: Seq<char>)
    requires
        grammar::embeddable(argv0),
    ensures
        grammar::alternatives_text(grammar::command_alternatives(allow.push(argv0))) == (
        if allow.len() == 0 {
            Seq::<char>::empty()
        } else {
            grammar::alternatives_text(grammar::command_alternatives(allow)) + " | "@
        }) + ("\"\\\""@ + argv0 + "\\\"\""@) + " | "@ + ("\"\\\""@ + argv0
            + " \" char* \"\\\"\""@),
{
    let q = seq!['"'];
    let alts = grammar::command_alternatives(allow);
    let alone = seq![Symbol::Text(q + argv0 + q)];
    let open = grammar::open_string(q + argv0 + seq![' ']);
    assert(allow.push(argv0).drop_last() =~= allow);
    language::lemma_command_alternatives(allow);
    lemma_one_more_alternative(alts, alone);
    lemma_one_more_alternative(alts.push(alone), open);
    lemma_whole_text(argv0);
    lemma_spaced_text(argv0);
    if allow.len() == 0 {
        let whole = "\"\\\""@ + argv0 + "\\\"\""@;
        assert(Seq::<char>::empty() + whole =~= whole);
    }
}

/// The law of hosts as they are written: each host adds two alternatives, one
/// for each scheme, that end the host with a slash.
pub proof fn law_host_adds_its_alternatives(hosts: Seq<Seq<char>>, host: Seq<char>)
    requires
        grammar::embeddable(host),
    ensures
        grammar::alternatives_text(grammar::host_alternatives(hosts.push(host))) == (
        if hosts.len() == 0 {
            Seq::<char>::empty()
        } else {
            grammar::alternatives_text(grammar::host_alternatives(hosts)) + " | "@
        }) + ("\"\\\"http://"@ + host + "/\" char* \"\\\"\""@) + " | "@ + ("\"\\\"https://"@ + host
            + "/\" char* \"\\\"\""@),
{
    let alts = grammar::host_alternatives(hosts);
    let plain = grammar::open_string("\"http://"@ + host + seq!['/']);
    let secure = grammar::open_string("\"https://"@ + host + seq!['/']);
    assert(hosts.push(host).drop_last() =~= hosts);
    language::lemma_host_alternatives(hosts);
    lemma_one_more_alternative(alts, plain);
    lemma_one_more_alternative(alts.push(plain), secure);
    lemma_host_text("http://"@, host);
    lemma_host_text("https://"@, host);
    reveal_strlit("\"http://");
    reveal_strlit("\"https://");
    reveal_strlit("http://");
    reveal_strlit("https://");
    reveal_strlit("\"\\\"");
    reveal_strlit("\"\\\"http://");
    reveal_strlit("\"\\\"https://");
    assert("\"http://"@ + host + seq!['/'] =~= seq!['"'] + ("http://"@ + host + seq!['/']));
    assert("\"https://"@ + host + seq!['/'] =~= seq!['"'] + ("https://"@ + host + seq!['/']));
    assert("\"\\\""@ + "http://"@ =~= "\"\\\"http://"@);
    assert("\"\\\""@ + "https://"@ =~= "\"\\\"https://"@);
    let first = "\"\\\"http://"@ + host + "/\" char* \"\\\"\""@;
    if hosts.len() == 0 {
        assert(Seq::<char>::empty() + first =~= first);
    }
}

proof fn lemma_host_text(scheme: Seq<char>, host: Seq<char>)
    requires
        scheme == "http://"@ || scheme == "https://"@,
        grammar::embeddable(host),
    ensures
        grammar::alternative_text(
            grammar::open_string(seq!['"'] + (scheme + host + seq!['/'])),
        ) == "\"\\\""@ + scheme + host + "/\" char* \"\\\"\""@,
{
    reveal_strlit("http://");
    reveal_strlit("https://");
    reveal_strlit("/\" char* \"\\\"\"");
    reveal_strlit("\" char* \"\\\"\"");
    let t = scheme + host + seq!['/'];
    assert forall|i: int| 0 <= i < t.len() implies !text::is_control(#[trigger] t[i]) && t[i] != '"'
        && t[i] != '\\' by {
        text::law_control_characters(t[i]);
        if i >= scheme.len() && i < scheme.len() + host.len() {
            assert(t[i] == host[i - scheme.len()]);
        } else if i < scheme.len() {
            assert(t[i] == scheme[i]);
        }
    }
    lemma_open_string_text(t);
    assert("\"\\\""@ + t + "\" char* \"\\\"\""@ =~= "\"\\\""@ + scheme + host
        + "/\" char* \"\\\"\""@);
}

/// The law of digits as they are written: each further digit that is allowed
/// adds an alternative with one digit more, and there is always one with a
/// single digit.
pub proof fn law_digit_adds_its_alternative(max: nat)
    requires
        max >= 1,
    ensures
        grammar::alternatives_text(grammar::digit_counts(0)) == "[0-9]"@,
        grammar::alternatives_text(grammar::digit_counts(1)) == "[0-9]"@,
        grammar::alternative_text(grammar::digits(1)) == "[0-9]"@,
        grammar::alternative_text(grammar::digits(max + 1)) == grammar::alternative_text(
            grammar::digits(max),
        ) + " [0-9]"@,
        grammar::alternatives_text(grammar::digit_counts(max + 1)) == grammar::alternatives_text(
            grammar::digit_counts(max),
        ) + " | "@ + grammar::alternative_text(grammar::digits(max + 1)),
{
    let none = Seq::<Symbol>::empty();
    let alts = Seq::<Seq<Symbol>>::empty();
    lemma_one_more_symbol(none, Symbol::Digit);
    assert(none.push(Symbol::Digit) =~= grammar::digits(1));
    lemma_one_more_alternative(alts, grammar::digits(1));
    assert(alts.push(grammar::digits(1)) =~= grammar::digit_counts(1));
    assert(grammar::digit_counts(0) =~= grammar::digit_counts(1));
    lemma_one_more_symbol(grammar::digits(max), Symbol::Digit);
    assert(grammar::digits(max).push(Symbol::Digit) =~= grammar::digits(max + 1));
    reveal_strlit(" ");
    reveal_strlit("[0-9]");
    reveal_strlit(" [0-9]");
    assert(" "@ + "[0-9]"@ =~= " [0-9]"@);
    assert(grammar::alternative_text(grammar::digits(max)) + " "@ + "[0-9]"@
        =~= grammar::alternative_text(grammar::digits(max)) + " [0-9]"@);
    language::lemma_digit_counts(max);
    lemma_one_more_alternative(grammar::digit_counts(max), grammar::digits(max + 1));
}

// ---- arguments ----------------------------------------------------------
/// The list of a permit that bounds a kind of argument, if any does.
pub open spec fn bounding_list(permit: Permit, kind: ArgKind) -> Option<Seq<String>> {
    match kind {
        ArgKind::Path => Some(permit.path_roots@),
        ArgKind::Shell => Some(permit.argv0_allow@),
        ArgKind::Url => Some(permit.host_allow@),
        ArgKind::Text => None,
        ArgKind::Int => None,
    }
}

/// The law of arguments: an argument whose list is empty, and every free text,
/// is any string; any other argument has a rule of its own, named after the
/// permit's place and the argument, over the alternatives of its list or, for a
/// number, over up to as many digits as its ceiling has, or nine.
pub proof fn law_argument_is_bounded_by_its_list(i: nat, permit: Permit, arg: ArgSpec)
    ensures
        ({
            let name = "a"@ + text::decimal(i) + "-"@ + grammar::dashed(arg.name@);
            let symbol = grammar::value_symbol(i, permit, arg);
            let rule = grammar::value_rule(i, permit, arg);
            let free = symbol == Symbol::Rule("freestr"@) && rule is None;
            &&& arg.kind is Text ==> free
            &&& arg.kind is Path && permit.path_roots@.len() == 0 ==> free
            &&& arg.kind is Shell && permit.argv0_allow@.len() == 0 ==> free
            &&& arg.kind is Url && permit.host_allow@.len() == 0 ==> free
            &&& arg.kind is Path && permit.path_roots@.len() > 0 ==> symbol == Symbol::Rule(name)
                && rule == Some(
                name + " ::= "@ + grammar::alternatives_text(
                    grammar::root_alternatives(text::texts(permit.path_roots@)),
                ),
            )
            &&& arg.kind is Shell && permit.argv0_allow@.len() > 0 ==> symbol == Symbol::Rule(name)
                && rule == Some(
                name + " ::= "@ + grammar::alternatives_text(
                    grammar::command_alternatives(text::texts(permit.argv0_allow@)),
                ),
            )
            &&& arg.kind is Url && permit.host_allow@.len() > 0 ==> symbol == Symbol::Rule(name)
                && rule == Some(
                name + " ::= "@ + grammar::alternatives_text(
                    grammar::host_alternatives(text::texts(permit.host_allow@)),
                ),
            )
            &&& arg.kind is Int ==> symbol == Symbol::Rule(name) && rule == Some(
                name + " ::= "@ + grammar::alternatives_text(
                    grammar::digit_counts(
                        if arg.name@ == "timeout_ms"@ && permit.max_timeout_ms is Some {
                            text::decimal(permit.max_timeout_ms->0 as nat).len()
                        } else {
                            9
                        },
                    ),
                ),
            )
        }),
{
}

/// The law of dashes: underscores, and nothing else, become dashes.
pub proof fn law_dashes_replace_underscores(s: Seq<char>)
    ensures
        grammar::dashed(s).len() == s.len(),
        forall|i: int|
            0 <= i < s.len() ==> #[trigger] grammar::dashed(s)[i] == (if s[i] == '_' {
                '-'
            } else {
                s[i]
            }),
{
}

/// The law of warnings as they are written: an argument whose list is empty is
/// warned of, with the step's title, the tool, the argument and the list; a
/// free text, a number or an argument with a list is not.
pub proof fn law_warning_names_the_missing_list(title: Seq<char>, permit: Permit, arg: ArgSpec)
    ensures
        ({
            let lead = "step "@ + title + ": tool "@ + permit.tool.name() + " argument \""@
                + arg.name@;
            let warning = grammar::value_warning(title, permit, arg);
            &&& match bounding_list(permit, arg.kind) {
                None => warning is None,
                Some(list) => warning is Some <==> list.len() == 0,
            }
            &&& arg.kind is Path && permit.path_roots@.len() == 0 ==> warning == Some(
                lead
                    + "\" has no path_roots — the grammar cannot constrain it, so the semantic pass is the only guard"@,
            )
            &&& arg.kind is Shell && permit.argv0_allow@.len() == 0 ==> warning == Some(
                lead
                    + "\" has no argv0_allow — an unconstrained shell command is samplable"@,
            )
            &&& arg.kind is Url && permit.host_allow@.len() == 0 ==> warning == Some(
                lead + "\" has no host_allow"@,
            )
        }),
{
}

// ---- permits ------------------------------------------------------------
/// A text as a list of one, nothing as an empty list.
pub open spec fn listed(o: Option<Seq<char>>) -> Seq<Seq<char>> {
    match o {
        Some(t) => seq![t],
        None => Seq::<Seq<char>>::empty(),
    }
}

/// An argument of the permit's tool is any string: one is free text, or the
/// list that would bound it is empty.
pub open spec fn leaves_a_string_free(permit: Permit) -> bool {
    match permit.tool {
        Tool::FileWrite | Tool::FileEdit | Tool::Search => true,
        Tool::FileRead => permit.path_roots@.len() == 0,
        Tool::ShellExec => permit.argv0_allow@.len() == 0,
        Tool::HttpFetch => permit.host_allow@.len() == 0,
    }
}

/// The law of permits: of each tool's arguments only the first can be warned
/// of, and only that one and the timeout have a rule of their own.
pub proof fn law_permit_adds_its_rules(title: Seq<char>, i: nat, permit: Permit)
    ensures
        ({
            let args = permit.tool.declared();
            let n = args.len() as int;
            let first = listed(grammar::value_rule(i, permit, args[0]));
            &&& grammar::permit_warnings(title, permit, n) == listed(
                grammar::value_warning(title, permit, args[0]),
            )
            &&& grammar::permit_value_rules(i, permit, n) == (if permit.tool is ShellExec {
                first + listed(grammar::value_rule(i, permit, args[1]))
            } else {
                first
            })
            &&& grammar::takes_any_string(permit) == leaves_a_string_free(permit)
            &&& grammar::takes_string(permit)
        }),
{
    reveal_with_fuel(grammar::permit_warnings, 4);
    reveal_with_fuel(grammar::permit_value_rules, 4);
    let args = permit.tool.declared();
    let n = args.len() as int;
    assert(args[0].kind != ArgKind::Int);
    assert(grammar::takes_string(permit));
    assert(grammar::own_alternatives(permit, args[0]) is None
        || grammar::own_alternatives(permit, args[0]) is Some);
    if n > 1 {
        assert(args[1].kind is Text || permit.tool is ShellExec);
        assert(grammar::own_alternatives(permit, args[1]) is None || permit.tool is ShellExec);
    }
    assert(grammar::permit_warnings(title, permit, n) =~= listed(
        grammar::value_warning(title, permit, args[0]),
    ));
    assert(grammar::permit_value_rules(i, permit, n) =~= (if permit.tool is ShellExec {
        listed(grammar::value_rule(i, permit, args[0])) + listed(
            grammar::value_rule(i, permit, args[1]),
        )
    } else {
        listed(grammar::value_rule(i, permit, args[0]))
    }));
}

// ---- actions ------------------------------------------------------------
/// The escaped forms of the fixed texts of an action.
proof fn lemma_fixed_texts()
    ensures
        grammar::escape("{\"tool\":\""@) == "{\\\"tool\\\":\\\""@,
        grammar::escape("\",\"args\":{"@) == "\\\",\\\"args\\\":{"@,
        grammar::escape("\""@) == "\\\""@,
        grammar::escape("\":"@) == "\\\":"@,
        grammar::escape(",\""@) == ",\\\""@,
        grammar::escape("}}"@) == "}}"@,
{
    let none = Seq::<char>::empty();
    let q = seq!['"'];
    let b = seq!['\\', '"'];
    let tool = seq!['t', 'o', 'o', 'l'];
    let args = seq!['a', 'r', 'g', 's'];
    lemma_plain_text(seq!['{']);
    lemma_plain_text(tool);
    lemma_plain_text(seq![':']);
    lemma_plain_text(seq![',']);
    lemma_plain_text(args);
    lemma_plain_text(seq![':', '{']);
    lemma_plain_text(seq!['}', '}']);
    lemma_plain_text(none);
    assert(grammar::escape("{\"tool\":\""@) == "{\\\"tool\\\":\\\""@) by {
        reveal_strlit("{\"tool\":\"");
        reveal_strlit("{\\\"tool\\\":\\\"");
        scope::lemma_escape_quote(seq![':'], none);
        scope::lemma_escape_quote(tool, seq![':'] + q + none);
        scope::lemma_escape_quote(seq!['{'], tool + q + (seq![':'] + q + none));
        assert("{\"tool\":\""@ =~= seq!['{'] + q + (tool + q + (seq![':'] + q + none)));
        assert("{\\\"tool\\\":\\\""@ =~= seq!['{'] + b + (tool + b + (seq![':'] + b + none)));
    }
    assert(grammar::escape("\",\"args\":{"@) == "\\\",\\\"args\\\":{"@) by {
        reveal_strlit("\",\"args\":{");
        reveal_strlit("\\\",\\\"args\\\":{");
        let end = seq![':', '{'];
        scope::lemma_escape_quote(args, end);
        scope::lemma_escape_quote(seq![','], args + q + end);
        scope::lemma_escape_quote(none, seq![','] + q + (args + q + end));
        assert("\",\"args\":{"@ =~= none + q + (seq![','] + q + (args + q + end)));
        assert("\\\",\\\"args\\\":{"@ =~= none + b + (seq![','] + b + (args + b + end)));
    }
    assert(grammar::escape("\""@) == "\\\""@) by {
        reveal_strlit("\"");
        reveal_strlit("\\\"");
        scope::lemma_escape_quote(none, none);
        assert("\""@ =~= none + q + none);
        assert("\\\""@ =~= none + b + none);
    }
    assert(grammar::escape("\":"@) == "\\\":"@) by {
        reveal_strlit("\":");
        reveal_strlit("\\\":");
        scope::lemma_escape_quote(none, seq![':']);
        assert("\":"@ =~= none + q + seq![':']);
        assert("\\\":"@ =~= none + b + seq![':']);
    }
    assert(grammar::escape(",\""@) == ",\\\""@) by {
        reveal_strlit(",\"");
        reveal_strlit(",\\\"");
        scope::lemma_escape_quote(seq![','], none);
        assert(",\""@ =~= seq![','] + q + none);
        assert(",\\\""@ =~= seq![','] + b + none);
    }
    assert(grammar::escape("}}"@) == "}}"@) by {
        reveal_strlit("}}");
        assert("}}"@ =~= seq!['}', '}']);
    }
}

proof fn lemma_plain_text(s: Seq<char>)
    requires
        forall|i: int| 0 <= i < s.len() ==> harmless(#[trigger] s[i]),
    ensures
        grammar::embeddable(s),
        grammar::escape(s) == s,
{
    law_embedded_text_stands_unchanged(s);
    scope::lemma_escape_plain(s);
}

/// The literal before the value of an action's first argument.
pub open spec fn first_key_text(tool: Tool) -> Seq<char> {
    "\"{\\\"tool\\\":\\\""@ + tool.name() + "\\\",\\\"args\\\":{\\\""@ + tool.declared()[0].name@
        + "\\\":\""@
}

/// The literal before the value of a later argument.
pub open spec fn next_key_text(name: Seq<char>) -> Seq<char> {
    "\",\\\""@ + name + "\\\":\""@
}

proof fn lemma_first_key(tool: Tool)
    ensures
        grammar::literal_text(grammar::lead(tool, 0)) == first_key_text(tool),
{
    let name = tool.name();
    let arg = tool.declared()[0].name@;
    let x = "{\"tool\":\""@;
    let y = "\",\"args\":{"@;
    let z = "\":"@;
    let q = "\""@;
    lemma_fixed_texts();
    scope::lemma_names_embed(tool);
    scope::lemma_escape_plain(name);
    scope::lemma_escape_plain(arg);
    scope::lemma_escape_concat(x, name);
    scope::lemma_escape_concat(x + name, y);
    scope::lemma_escape_concat(x + name + y, q);
    scope::lemma_escape_concat(x + name + y + q, arg);
    scope::lemma_escape_concat(x + name + y + q + arg, z);
    let e = "{\\\"tool\\\":\\\""@ + name + "\\\",\\\"args\\\":{"@ + "\\\""@ + arg + "\\\":"@;
    assert(grammar::escape(grammar::lead(tool, 0)) == e);
    reveal_strlit("\"{\\\"tool\\\":\\\"");
    reveal_strlit("{\\\"tool\\\":\\\"");
    reveal_strlit("\\\",\\\"args\\\":{\\\"");
    reveal_strlit("\\\",\\\"args\\\":{");
    reveal_strlit("\\\"");
    reveal_strlit("\\\":\"");
    reveal_strlit("\\\":");
    assert(seq!['"'] + "{\\\"tool\\\":\\\""@ =~= "\"{\\\"tool\\\":\\\""@);
    assert("\\\",\\\"args\\\":{"@ + "\\\""@ =~= "\\\",\\\"args\\\":{\\\""@);
    assert("\\\":"@ + seq!['"'] =~= "\\\":\""@);
    lemma_regroup_key(
        seq!['"'],
        "{\\\"tool\\\":\\\""@,
        name,
        "\\\",\\\"args\\\":{"@,
        "\\\""@,
        arg,
        "\\\":"@,
    );
}

proof fn lemma_regroup_key(
    q: Seq<char>,
    a: Seq<char>,
    b: Seq<char>,
    c: Seq<char>,
    d: Seq<char>,
    e: Seq<char>,
    f: Seq<char>,
)
    ensures
        q + (a + b + c + d + e + f) + q == (q + a) + b + (c + d) + e + (f + q),
{
    assert(q + (a + b + c + d + e + f) + q =~= (q + a) + b + (c + d) + e + (f + q));
}

proof fn lemma_next_key(tool: Tool, j: int)
    requires
        0 < j < tool.declared().len(),
    ensures
        grammar::literal_text(grammar::lead(tool, j)) == next_key_text(tool.declared()[j].name@),
{
    let arg = tool.declared()[j].name@;
    let start = ",\""@;
    let z = "\":"@;
    lemma_fixed_texts();
    scope::lemma_names_embed(tool);
    assert(grammar::embeddable(tool.declared()[j].name@));
    scope::lemma_escape_plain(arg);
    scope::lemma_escape_concat(start, arg);
    scope::lemma_escape_concat(start + arg, z);
    assert(","@ + "\""@ =~= start) by {
        reveal_strlit(",");
        reveal_strlit("\"");
        reveal_strlit(",\"");
    }
    assert(grammar::lead(tool, j) == start + arg + z);
    assert(grammar::escape(grammar::lead(tool, j)) == ",\\\""@ + arg + "\\\":"@);
    reveal_strlit("\",\\\"");
    reveal_strlit(",\\\"");
    reveal_strlit("\\\":\"");
    reveal_strlit("\\\":");
    assert(seq!['"'] + ",\\\""@ =~= "\",\\\""@);
    assert("\\\":"@ + seq!['"'] =~= "\\\":\""@);
    assert(seq!['"'] + (",\\\""@ + arg + "\\\":"@) + seq!['"'] =~= (seq!['"'] + ",\\\""@) + arg + (
    "\\\":"@ + seq!['"']));
}

/// The text of an action's symbols, argument by argument.
proof fn lemma_action_text(i: nat, permit: Permit, n: int)
    requires
        0 < n <= permit.tool.declared().len(),
    ensures
        ({
            let arg = permit.tool.declared()[n - 1];
            let value = grammar::symbol_text(grammar::value_symbol(i, permit, arg));
            grammar::alternative_text(grammar::action_symbols(i, permit, n)) == (if n == 1 {
                first_key_text(permit.tool)
            } else {
                grammar::alternative_text(grammar::action_symbols(i, permit, n - 1)) + " "@
                    + next_key_text(arg.name@)
            }) + " "@ + value
        }),
{
    let before = grammar::action_symbols(i, permit, n - 1);
    let lead = Symbol::Text(grammar::lead(permit.tool, n - 1));
    let symbol = grammar::value_symbol(i, permit, permit.tool.declared()[n - 1]);
    grammar::lemma_action_symbols(i, permit, n - 1);
    lemma_one_more_symbol(before, lead);
    lemma_one_more_symbol(before.push(lead), symbol);
    if n == 1 {
        lemma_first_key(permit.tool);
    } else {
        lemma_next_key(permit.tool, n - 1);
    }
}

/// The law of actions as they are written: the rule of a permit is named after
/// its place and spells the whole action: the tool, each key in its literal and
/// the value's symbol after it, in the order in which the tool declares them.
pub proof fn law_action_rule_spells_the_action(i: nat, permit: Permit)
    ensures
        ({
            let args = permit.tool.declared();
            let value = |j: int| grammar::symbol_text(grammar::value_symbol(i, permit, args[j]));
            let start = "act-"@ + text::decimal(i) + " ::= "@;
            let one = first_key_text(permit.tool) + " "@ + value(0);
            let two = one + " "@ + next_key_text(args[1].name@) + " "@ + value(1);
            let three = two + " "@ + next_key_text(args[2].name@) + " "@ + value(2);
            &&& 1 <= args.len() <= 3
            &&& args.len() == 1 ==> grammar::action_rule(i, permit) == start + (one + " "@
                + "\"}}\""@)
            &&& args.len() == 2 ==> grammar::action_rule(i, permit) == start + (two + " "@
                + "\"}}\""@)
            &&& args.len() == 3 ==> grammar::action_rule(i, permit) == start + (three + " "@
                + "\"}}\""@)
        }),
{
    let args = permit.tool.declared();
    let n = args.len() as int;
    lemma_action_text(i, permit, 1);
    if n >= 2 {
        lemma_action_text(i, permit, 2);
    }
    if n >= 3 {
        lemma_action_text(i, permit, 3);
    }
    let syms = grammar::action_symbols(i, permit, n);
    grammar::lemma_action_symbols(i, permit, n);
    let end = Symbol::Text(grammar::closing(permit.tool));
    lemma_one_more_symbol(syms, end);
    lemma_fixed_texts();
    assert(grammar::closing(permit.tool) =~= "}}"@);
    reveal_strlit("\"}}\"");
    reveal_strlit("}}");
    assert(grammar::symbol_text(end) =~= "\"}}\""@);
}

// ---- rules as lines -----------------------------------------------------
/// No symbol refers to a rule.
spec fn self_contained(alt: Seq<Symbol>) -> bool {
    forall|k: int| 0 <= k < alt.len() ==> !((#[trigger] alt[k]) is Rule)
}

proof fn lemma_unbroken_concat(a: Seq<char>, b: Seq<char>)
    requires
        scope::free_of(a, '\n'),
        scope::free_of(b, '\n'),
    ensures
        scope::free_of(a + b, '\n'),
{
    assert forall|i: int| 0 <= i < (a + b).len() implies #[trigger] (a + b)[i] != '\n' by {
        if i < a.len() {
            assert((a + b)[i] == a[i]);
        } else {
            assert((a + b)[i] == b[i - a.len()]);
        }
    }
}

proof fn lemma_unbroken_symbol(sym: Symbol)
    requires
        !(sym is Rule),
    ensures
        scope::free_of(grammar::symbol_text(sym), '\n'),
{
    reveal_strlit("char*");
    reveal_strlit("[0-9]");
    if let Symbol::Text(t) = sym {
        scope::lemma_escape_unbroken(t);
        lemma_unbroken_concat(seq!['"'], grammar::escape(t));
        lemma_unbroken_concat(seq!['"'] + grammar::escape(t), seq!['"']);
    }
}

proof fn lemma_unbroken_alternative(alt: Seq<Symbol>)
    requires
        self_contained(alt),
    ensures
        scope::free_of(grammar::alternative_text(alt), '\n'),
{
    let parts = grammar::symbol_texts(alt);
    assert forall|k: int| 0 <= k < parts.len() implies scope::free_of(#[trigger] parts[k], '\n') by {
        assert(!(alt[k] is Rule));
        lemma_unbroken_symbol(alt[k]);
    }
    reveal_strlit(" ");
    scope::lemma_join_unbroken(parts, " "@);
}

proof fn lemma_unbroken_alternatives(alts: Seq<Seq<Symbol>>)
    requires
        forall|k: int| 0 <= k < alts.len() ==> self_contained(#[trigger] alts[k]),
    ensures
        scope::free_of(grammar::alternatives_text(alts), '\n'),
{
    let parts = grammar::alternative_texts(alts);
    assert forall|k: int| 0 <= k < parts.len() implies scope::free_of(#[trigger] parts[k], '\n') by {
        assert(self_contained(alts[k]));
        lemma_unbroken_alternative(alts[k]);
    }
    reveal_strlit(" | ");
    scope::lemma_join_unbroken(parts, " | "@);
}

/// The alternatives of a value refer to no rule.
proof fn lemma_values_refer_to_nothing(permit: Permit, arg: ArgSpec)
    requires
        grammar::own_alternatives(permit, arg) is Some,
    ensures
        forall|k: int|
            0 <= k < grammar::own_alternatives(permit, arg)->0.len() ==> self_contained(
                #[trigger] grammar::own_alternatives(permit, arg)->0[k],
            ),
{
    let alts = grammar::own_alternatives(permit, arg)->0;
    let roots = text::texts(permit.path_roots@);
    let allow = text::texts(permit.argv0_allow@);
    let hosts = text::texts(permit.host_allow@);
    language::lemma_root_alternatives(roots);
    language::lemma_command_alternatives(allow);
    language::lemma_host_alternatives(hosts);
    language::lemma_digit_counts(grammar::max_digits(permit, arg));
    assert forall|k: int| 0 <= k < alts.len() implies self_contained(#[trigger] alts[k]) by {
        match arg.kind {
            ArgKind::Path => {},
            ArgKind::Shell => {
                let i = k / 2;
                assert(allow[i] == allow[k / 2]);
                assert(k == 2 * i || k == 2 * i + 1);
            },
            ArgKind::Url => {
                let i = k / 2;
                assert(hosts[i] == hosts[k / 2]);
                assert(k == 2 * i || k == 2 * i + 1);
            },
            ArgKind::Text => {},
            ArgKind::Int => {},
        }
    }
}

proof fn lemma_unbroken_rule_name(i: nat, arg: ArgSpec)
    requires
        grammar::embeddable(arg.name@),
    ensures
        scope::free_of(grammar::rule_name(i, arg), '\n'),
{
    reveal_strlit("a");
    reveal_strlit("-");
    scope::lemma_decimal_unbroken(i);
    let name = grammar::dashed(arg.name@);
    assert forall|k: int| 0 <= k < name.len() implies #[trigger] name[k] != '\n' by {
        lemma_harmless(arg.name@[k]);
        assert(!text::is_control(arg.name@[k]));
    }
    lemma_unbroken_concat("a"@, text::decimal(i));
    lemma_unbroken_concat("a"@ + text::decimal(i), "-"@);
    lemma_unbroken_concat("a"@ + text::decimal(i) + "-"@, name);
}

/// The rule of an argument is one line.
proof fn lemma_value_rule_line(i: nat, permit: Permit, arg: ArgSpec)
    requires
        grammar::embeddable(arg.name@),
        grammar::value_rule(i, permit, arg) is Some,
    ensures
        scope::free_of(grammar::value_rule(i, permit, arg)->0, '\n'),
{
    let alts = grammar::own_alternatives(permit, arg)->0;
    lemma_values_refer_to_nothing(permit, arg);
    lemma_unbroken_alternatives(alts);
    lemma_unbroken_rule_name(i, arg);
    reveal_strlit(" ::= ");
    let name = grammar::rule_name(i, arg);
    lemma_unbroken_concat(name, " ::= "@);
    lemma_unbroken_concat(name + " ::= "@, grammar::alternatives_text(alts));
}

/// The rules under a permit: one line each, and each is there.
proof fn lemma_permit_rule_lines(i: nat, permit: Permit, n: int)
    requires
        0 <= n <= permit.tool.declared().len(),
    ensures
        forall|k: int|
            0 <= k < grammar::permit_value_rules(i, permit, n).len() ==> scope::free_of(
                #[trigger] grammar::permit_value_rules(i, permit, n)[k],
                '\n',
            ),
        forall|j: int|
            0 <= j < n && grammar::value_rule(i, permit, #[trigger] permit.tool.declared()[j])
                is Some ==> grammar::permit_value_rules(i, permit, n).contains(
                grammar::value_rule(i, permit, permit.tool.declared()[j])->0,
            ),
    decreases n,
{
    if n > 0 {
        lemma_permit_rule_lines(i, permit, n - 1);
        let before = grammar::permit_value_rules(i, permit, n - 1);
        let all = grammar::permit_value_rules(i, permit, n);
        let arg = permit.tool.declared()[n - 1];
        scope::lemma_names_embed(permit.tool);
        assert(grammar::embeddable(arg.name@));
        if grammar::value_rule(i, permit, arg) is Some {
            lemma_value_rule_line(i, permit, arg);
            assert(all[before.len() as int] == grammar::value_rule(i, permit, arg)->0);
        }
        assert forall|k: int| 0 <= k < all.len() implies scope::free_of(#[trigger] all[k], '\n') by {
            if k < before.len() {
                assert(all[k] == before[k]);
            }
        }
        assert forall|j: int|
            0 <= j < n && grammar::value_rule(i, permit, #[trigger] permit.tool.declared()[j])
                is Some implies all.contains(
            grammar::value_rule(i, permit, permit.tool.declared()[j])->0,
        ) by {
            if j < n - 1 {
                let r = grammar::value_rule(i, permit, permit.tool.declared()[j])->0;
                let k = before.index_of(r);
                assert(all[k] == r);
            }
        }
    }
}

/// The value rules: one line each, and those of every permit are there.
proof fn lemma_value_rule_lines(permits: Seq<Permit>, n: int)
    requires
        0 <= n <= permits.len(),
    ensures
        forall|k: int|
            0 <= k < grammar::value_rules(permits, n).len() ==> scope::free_of(
                #[trigger] grammar::value_rules(permits, n)[k],
                '\n',
            ),
        forall|i: int, r: Seq<char>|
            0 <= i < n && #[trigger] grammar::permit_value_rules(
                i as nat,
                permits[i],
                permits[i].tool.declared().len() as int,
            ).contains(r) ==> grammar::value_rules(permits, n).contains(r),
    decreases n,
{
    if n > 0 {
        lemma_value_rule_lines(permits, n - 1);
        let before = grammar::value_rules(permits, n - 1);
        let p = permits[n - 1];
        let more = grammar::permit_value_rules((n - 1) as nat, p, p.tool.declared().len() as int);
        let all = grammar::value_rules(permits, n);
        lemma_permit_rule_lines((n - 1) as nat, p, p.tool.declared().len() as int);
        assert forall|k: int| 0 <= k < all.len() implies scope::free_of(#[trigger] all[k], '\n') by {
            if k < before.len() {
                assert(all[k] == before[k]);
            } else {
                assert(all[k] == more[k - before.len()]);
            }
        }
        assert forall|i: int, r: Seq<char>|
            0 <= i < n && #[trigger] grammar::permit_value_rules(
                i as nat,
                permits[i],
                permits[i].tool.declared().len() as int,
            ).contains(r) implies all.contains(r) by {
            if i < n - 1 {
                let k = before.index_of(r);
                assert(all[k] == r);
            } else {
                let k = more.index_of(r);
                assert(all[before.len() + k] == r);
            }
        }
    }
}

/// The line of the rule for the start of a grammar.
pub open spec fn root_line(count: nat) -> Seq<char> {
    "root ::= "@ + text::join(
        Seq::new(count, |i: int| "act-"@ + text::decimal(i as nat)),
        " | "@,
    )
}

proof fn lemma_root_line(count: nat)
    ensures
        scope::free_of(root_line(count), '\n'),
        root_line(count) == "root ::= "@ + text::join(grammar::action_rule_names(count), " | "@),
{
    let names = Seq::new(count, |i: int| "act-"@ + text::decimal(i as nat));
    assert(names =~= grammar::action_rule_names(count));
    reveal_strlit("root ::= ");
    reveal_strlit("act-");
    reveal_strlit(" | ");
    assert forall|i: int| 0 <= i < names.len() implies scope::free_of(#[trigger] names[i], '\n') by {
        scope::lemma_decimal_unbroken(i as nat);
        lemma_unbroken_concat("act-"@, text::decimal(i as nat));
    }
    scope::lemma_join_unbroken(names, " | "@);
    lemma_unbroken_concat("root ::= "@, text::join(names, " | "@));
}

/// A line that nothing more follows.
proof fn lemma_last_line(line: Seq<char>)
    requires
        scope::free_of(line, '\n'),
    ensures
        text::split(line.push('\n'), '\n') == seq![line, Seq::<char>::empty()],
{
    let none = Seq::<char>::empty();
    text::lemma_split_concat(line, none, '\n');
    text::lemma_split_whole(line, '\n');
    text::lemma_split_whole(none, '\n');
    assert(line.push('\n') + none =~= line.push('\n'));
    assert(seq![line] + seq![none] =~= seq![line, none]);
}

/// The lines of the shared rules.
proof fn lemma_shared_lines(any_string: bool)
    ensures
        ({
            let none = Seq::<char>::empty();
            let free = if any_string {
                "freestr ::= \"\\\"\" char* \"\\\"\"\n"@
            } else {
                none
            };
            text::split(free + "char ::= [^\"\\\\]\n"@, '\n') == (if any_string {
                seq!["freestr ::= \"\\\"\" char* \"\\\"\""@]
            } else {
                Seq::<Seq<char>>::empty()
            }) + seq!["char ::= [^\"\\\\]"@, none]
        }),
{
    let none = Seq::<char>::empty();
    let f = "freestr ::= \"\\\"\" char* \"\\\"\""@;
    let c = "char ::= [^\"\\\\]"@;
    reveal_strlit("freestr ::= \"\\\"\" char* \"\\\"\"\n");
    reveal_strlit("freestr ::= \"\\\"\" char* \"\\\"\"");
    reveal_strlit("char ::= [^\"\\\\]\n");
    reveal_strlit("char ::= [^\"\\\\]");
    assert("freestr ::= \"\\\"\" char* \"\\\"\"\n"@ =~= f.push('\n'));
    assert("char ::= [^\"\\\\]\n"@ =~= c.push('\n'));
    lemma_last_line(c);
    if any_string {
        text::lemma_split_concat(f, c.push('\n'), '\n');
        text::lemma_split_whole(f, '\n');
    } else {
        assert(none + c.push('\n') =~= c.push('\n'));
        assert(Seq::<Seq<char>>::empty() + seq![c, none] =~= seq![c, none]);
    }
}

/// The law of lines in a grammar: the rules are the start, one line for each
/// permit, the rules of the arguments in order, the rule of any string exactly
/// if some permit leaves a string free, and the rule of a character.
pub proof fn law_rules_stand_line_by_line(permits: Seq<Permit>)
    requires
        permits.len() > 0,
    ensures
        text::split(grammar::body(permits), '\n') == seq![root_line(permits.len())]
            + grammar::action_rules(permits, permits.len()) + grammar::value_rules(
            permits,
            permits.len() as int,
        ) + (if exists|i: int|
            0 <= i < permits.len() && leaves_a_string_free(#[trigger] permits[i]) {
            seq!["freestr ::= \"\\\"\" char* \"\\\"\""@]
        } else {
            Seq::<Seq<char>>::empty()
        }) + seq!["char ::= [^\"\\\\]"@, Seq::<char>::empty()],
{
    let n = permits.len();
    let root = root_line(n);
    let actions = grammar::action_rules(permits, n);
    let values = grammar::value_rules(permits, n as int);
    let any_string = exists|i: int|
        0 <= i < n && leaves_a_string_free(#[trigger] permits[i]);
    let free = if any_string {
        "freestr ::= \"\\\"\" char* \"\\\"\"\n"@
    } else {
        Seq::<char>::empty()
    };
    let chars = "char ::= [^\"\\\\]\n"@;
    lemma_root_line(n);
    assert forall|i: int| 0 <= i < n implies grammar::takes_any_string(#[trigger] permits[i])
        == leaves_a_string_free(permits[i]) && grammar::takes_string(permits[i]) by {
        law_permit_adds_its_rules(Seq::<char>::empty(), i as nat, permits[i]);
    }
    assert(any_string == exists|i: int|
        0 <= i < n && grammar::takes_any_string(#[trigger] permits[i])) by {
        if any_string {
            let i = choose|i: int| 0 <= i < n && leaves_a_string_free(#[trigger] permits[i]);
            assert(grammar::takes_any_string(permits[i]));
        }
        if exists|i: int| 0 <= i < n && grammar::takes_any_string(#[trigger] permits[i]) {
            let i = choose|i: int| 0 <= i < n && grammar::takes_any_string(#[trigger] permits[i]);
            assert(leaves_a_string_free(permits[i]));
        }
    }
    assert(grammar::takes_string(permits[0]));
    assert forall|i: int| 0 <= i < actions.len() implies scope::free_of(
        #[trigger] actions[i],
        '\n',
    ) by {
        scope::lemma_action_rule_line(i as nat, permits[i]);
    }
    lemma_value_rule_lines(permits, n as int);
    lemma_shared_lines(any_string);
    let rest = grammar::lines(values) + (free + chars);
    scope::lemma_lines_pieces(values, free + chars);
    scope::lemma_lines_pieces(actions, rest);
    text::lemma_split_concat(root, grammar::lines(actions) + rest, '\n');
    text::lemma_split_whole(root, '\n');
    reveal_strlit("\n");
    assert(root + "\n"@ =~= root.push('\n'));
    assert(grammar::body(permits) == root + "\n"@ + grammar::lines(actions) + grammar::lines(
        values,
    ) + free + chars);
    assert(grammar::body(permits) =~= root.push('\n') + (grammar::lines(actions) + rest));
    let fixed = text::split(free + chars, '\n');
    assert(seq![root] + (actions + (values + fixed)) =~= seq![root] + actions + values + fixed);
    let f = if any_string {
        seq!["freestr ::= \"\\\"\" char* \"\\\"\""@]
    } else {
        Seq::<Seq<char>>::empty()
    };
    let c = seq!["char ::= [^\"\\\\]"@, Seq::<char>::empty()];
    assert(seq![root] + actions + values + (f + c) =~= seq![root] + actions + values + f + c);
}

// ---- steps --------------------------------------------------------------
proof fn lemma_earlier_permits(title: Seq<char>, permits: Seq<Permit>, p: Permit, n: int)
    requires
        0 <= n <= permits.len(),
    ensures
        grammar::value_rules(permits.push(p), n) == grammar::value_rules(permits, n),
        grammar::warnings(title, permits.push(p), n) == grammar::warnings(title, permits, n),
    decreases n,
{
    if n > 0 {
        lemma_earlier_permits(title, permits, p, n - 1);
        assert(permits.push(p)[n - 1] == permits[n - 1]);
    }
}

/// The law of one more permit: it adds its action's rule, its arguments' rules
/// and its warnings after those of the permits before it, and changes nothing
/// about those.
pub proof fn law_permit_adds_to_the_grammar(title: Seq<char>, permits: Seq<Permit>, p: Permit)
    ensures
        ({
            let n = permits.len();
            let more = permits.push(p);
            let args = p.tool.declared().len() as int;
            &&& grammar::action_rules(more, n + 1) == grammar::action_rules(permits, n).push(
                grammar::action_rule(n, p),
            )
            &&& grammar::value_rules(more, n as int + 1) == grammar::value_rules(permits, n as int)
                + grammar::permit_value_rules(n, p, args)
            &&& grammar::warnings(title, more, n as int + 1) == grammar::warnings(
                title,
                permits,
                n as int,
            ) + grammar::permit_warnings(title, p, args)
            &&& grammar::action_rules(Seq::empty(), 0) == Seq::<Seq<char>>::empty()
            &&& grammar::value_rules(Seq::empty(), 0) == Seq::<Seq<char>>::empty()
            &&& grammar::warnings(title, Seq::empty(), 0) == Seq::<Seq<char>>::empty()
        }),
{
    let n = permits.len();
    let more = permits.push(p);
    lemma_earlier_permits(title, permits, p, n as int);
    assert(grammar::action_rules(more, n + 1) =~= grammar::action_rules(permits, n).push(
        grammar::action_rule(n, p),
    ));
    assert(grammar::action_rules(Seq::empty(), 0) =~= Seq::<Seq<char>>::empty());
}

/// The head of a grammar ends a line.
proof fn lemma_head_ends_a_line(title: Seq<char>, intent: Seq<char>)
    ensures
        grammar::header(title, intent).len() > 0,
        grammar::header(title, intent).last() == '\n',
{
    reveal_strlit("# which removes indentation as a source of sampling divergence.\n\n");
}

/// A line of the rules is a line of the grammar.
proof fn lemma_line_of_grammar(title: Seq<char>, step: Step, line: Seq<char>)
    requires
        text::split(grammar::body(step.permits@), '\n').contains(line),
    ensures
        text::split(
            grammar::header(title, step.intent@) + grammar::body(step.permits@),
            '\n',
        ).contains(line),
{
    let head = grammar::header(title, step.intent@);
    let body = grammar::body(step.permits@);
    lemma_head_ends_a_line(title, step.intent@);
    let front = head.drop_last();
    assert(front.push('\n') =~= head);
    text::lemma_split_concat(front, body, '\n');
    let pieces = text::split(body, '\n');
    let k = pieces.index_of(line);
    let all = text::split(head + body, '\n');
    assert(all[text::split(front, '\n').len() + k] == line);
}

/// The grammar has a line that defines the rule.
pub open spec fn defines(gbnf: Seq<char>, name: Seq<char>) -> bool {
    exists|line: Seq<char>| #[trigger]
        text::split(gbnf, '\n').contains(line) && text::starts_with(line, name + " ::= "@)
}

proof fn lemma_begins(name: Seq<char>, right: Seq<char>)
    ensures
        text::starts_with(name + " ::= "@ + right, name + " ::= "@),
{
    let line = name + " ::= "@ + right;
    let start = name + " ::= "@;
    assert(start =~= line.subrange(0, start.len() as int));
}

/// The law of definition: every rule that a compiled grammar refers to is
/// defined by one of its lines: those that the start names, those that stand
/// for the values of arguments, and the ones that these share.
pub proof fn law_every_reference_is_defined(title: Seq<char>, step: Step, i: int, j: int)
    requires
        grammar::compiled(title, step) is Ok,
        0 <= i < step.permits@.len(),
        0 <= j < step.permits@[i].tool.declared().len(),
    ensures
        ({
            let gbnf = grammar::compiled(title, step)->Ok_0.0;
            let lines = text::split(gbnf, '\n');
            let permit = step.permits@[i];
            let symbol = grammar::value_symbol(i as nat, permit, permit.tool.declared()[j]);
            &&& lines.contains(root_line(step.permits@.len()))
            &&& defines(gbnf, "act-"@ + text::decimal(i as nat))
            &&& symbol matches Symbol::Rule(name) && defines(gbnf, name)
            &&& symbol == Symbol::Rule("freestr"@) ==> lines.contains(
                "freestr ::= \"\\\"\" char* \"\\\"\""@,
            )
            &&& lines.contains("char ::= [^\"\\\\]"@)
        }),
{
    let permits = step.permits@;
    let n = permits.len();
    let permit = permits[i];
    let args = permit.tool.declared();
    let arg = args[j];
    let gbnf = grammar::compiled(title, step)->Ok_0.0;
    let pieces = text::split(grammar::body(permits), '\n');
    let actions = grammar::action_rules(permits, n);
    let values = grammar::value_rules(permits, n as int);
    let f = "freestr ::= \"\\\"\" char* \"\\\"\""@;
    let c = "char ::= [^\"\\\\]"@;
    law_rules_stand_line_by_line(permits);
    assert(pieces[0] == root_line(n));
    lemma_line_of_grammar(title, step, root_line(n));
    assert(pieces[1 + i] == actions[i]);
    lemma_line_of_grammar(title, step, actions[i]);
    lemma_begins(
        "act-"@ + text::decimal(i as nat),
        grammar::alternative_text(grammar::action_alternative(i as nat, permit)),
    );
    assert(text::split(gbnf, '\n').contains(actions[i]));
    assert(pieces[pieces.len() - 2] == c);
    lemma_line_of_grammar(title, step, c);
    law_argument_is_bounded_by_its_list(i as nat, permit, arg);
    if grammar::value_rule(i as nat, permit, arg) is Some {
        let rule = grammar::value_rule(i as nat, permit, arg)->0;
        lemma_permit_rule_lines(i as nat, permit, args.len() as int);
        lemma_value_rule_lines(permits, n as int);
        assert(grammar::permit_value_rules(
            i as nat,
            permits[i],
            permits[i].tool.declared().len() as int,
        ).contains(rule));
        let k = values.index_of(rule);
        assert(pieces[1 + n + k] == rule);
        lemma_line_of_grammar(title, step, rule);
        lemma_begins(
            grammar::rule_name(i as nat, arg),
            grammar::alternatives_text(grammar::own_alternatives(permit, arg)->0),
        );
        assert(text::split(gbnf, '\n').contains(rule));
        assert("freestr"@ != grammar::rule_name(i as nat, arg)) by {
            reveal_strlit("freestr");
            reveal_strlit("a");
            assert(grammar::rule_name(i as nat, arg)[0] == 'a');
        }
    } else {
        assert(grammar::own_alternatives(permit, args[j]) is None);
        assert(grammar::takes_any_string(permit));
        law_permit_adds_its_rules(title, i as nat, permit);
        assert(leaves_a_string_free(permits[i]));
        assert(pieces[1 + n as int + values.len()] == f);
        lemma_line_of_grammar(title, step, f);
        reveal_strlit("freestr ::= \"\\\"\" char* \"\\\"\"");
        reveal_strlit("freestr");
        reveal_strlit(" ::= ");
        let start = "freestr"@ + " ::= "@;
        assert(start =~= f.subrange(0, start.len() as int));
        assert(text::split(gbnf, '\n').contains(f));
    }
}

/// The first character of a value rule.
proof fn lemma_value_rules_begin(permits: Seq<Permit>, n: int, k: int)
    requires
        0 <= n <= permits.len(),
        0 <= k < grammar::value_rules(permits, n).len(),
    ensures
        grammar::value_rules(permits, n)[k].len() > 0,
        grammar::value_rules(permits, n)[k][0] == 'a',
    decreases n,
{
    let before = grammar::value_rules(permits, n - 1);
    if k < before.len() {
        lemma_value_rules_begin(permits, n - 1, k);
        assert(grammar::value_rules(permits, n)[k] == before[k]);
    } else {
        let p = permits[n - 1];
        let m = (n - 1) as nat;
        let args = p.tool.declared();
        let more = grammar::permit_value_rules(m, p, args.len() as int);
        assert(grammar::value_rules(permits, n)[k] == more[k - before.len()]);
        law_permit_adds_its_rules(Seq::<char>::empty(), m, p);
        reveal_strlit("a");
        let first = listed(grammar::value_rule(m, p, args[0]));
        if k - before.len() < first.len() {
            assert(more[k - before.len()] == grammar::value_rule(m, p, args[0])->0);
        } else {
            assert(more[k - before.len()] == grammar::value_rule(m, p, args[1])->0);
        }
    }
}

/// The law of the shared rule's need: the rule of any string stands among a
/// grammar's rules only if the value of some argument refers to it.
pub proof fn law_any_string_is_defined_only_if_needed(permits: Seq<Permit>)
    requires
        permits.len() > 0,
        text::split(grammar::body(permits), '\n').contains(
            "freestr ::= \"\\\"\" char* \"\\\"\""@,
        ),
    ensures
        exists|i: int, j: int|
            0 <= i < permits.len() && 0 <= j < permits[i].tool.declared().len()
                && grammar::value_symbol(
                i as nat,
                permits[i],
                #[trigger] permits[i].tool.declared()[j],
            ) == Symbol::Rule("freestr"@),
{
    let f = "freestr ::= \"\\\"\" char* \"\\\"\""@;
    let n = permits.len() as int;
    let pieces = text::split(grammar::body(permits), '\n');
    let values = grammar::value_rules(permits, n);
    law_rules_stand_line_by_line(permits);
    reveal_strlit("freestr ::= \"\\\"\" char* \"\\\"\"");
    reveal_strlit("char ::= [^\"\\\\]");
    reveal_strlit("root ::= ");
    reveal_strlit("act-");
    let k = pieces.index_of(f);
    assert(f[0] == 'f');
    if k == 0 {
        assert(pieces[k] == root_line(permits.len()));
        assert(pieces[k][0] == 'r');
    } else if k <= n {
        assert(pieces[k] == grammar::action_rule((k - 1) as nat, permits[k - 1]));
        assert(pieces[k][0] == 'a');
    } else if k <= n + values.len() {
        assert(pieces[k] == values[k - n - 1]);
        lemma_value_rules_begin(permits, n, k - n - 1);
    }
    assert(k > n + values.len());
    if !exists|i: int| 0 <= i < permits.len() && leaves_a_string_free(#[trigger] permits[i]) {
        assert(pieces[k] == seq!["char ::= [^\"\\\\]"@, Seq::<char>::empty()][k - n - 1
            - values.len()]);
        assert(false);
    }
    let i = choose|i: int| 0 <= i < permits.len() && leaves_a_string_free(#[trigger] permits[i]);
    law_permit_adds_its_rules(Seq::<char>::empty(), i as nat, permits[i]);
    let j = choose|j: int|
        0 <= j < permits[i].tool.declared().len() && grammar::own_alternatives(
            permits[i],
            #[trigger] permits[i].tool.declared()[j],
        ) is None;
    assert(grammar::value_symbol(i as nat, permits[i], permits[i].tool.declared()[j])
        == Symbol::Rule("freestr"@));
}

// ---- refusals -----------------------------------------------------------
/// Every text in the list that bounds an argument may be embedded.
pub open spec fn list_embeds(permit: Permit, arg: ArgSpec) -> bool {
    bounding_list(permit, arg.kind) matches Some(list) ==> forall|k: int|
        0 <= k < list.len() ==> grammar::embeddable((#[trigger] list[k])@)
}

/// Every list that bounds an argument of the permit's tool embeds.
pub open spec fn permit_embeds(permit: Permit) -> bool {
    forall|j: int|
        0 <= j < permit.tool.declared().len() ==> list_embeds(
            permit,
            #[trigger] permit.tool.declared()[j],
        )
}

proof fn lemma_list_embeds(permit: Permit, arg: ArgSpec)
    requires
        list_embeds(permit, arg),
    ensures
        grammar::value_failure(permit, arg) is None,
{
    let items = grammar::bounds(permit, arg.kind);
    grammar::lemma_first_hostile(items, 0);
    assert forall|k: int| 0 <= k < items.len() implies grammar::embeddable(#[trigger] items[k]) by {
        let list = bounding_list(permit, arg.kind)->0;
        assert(items[k] == list[k]@);
    }
}

proof fn lemma_hostile_item(items: Seq<Seq<char>>, m: int, k: int)
    requires
        0 <= m <= k < items.len(),
        forall|l: int| m <= l < k ==> grammar::embeddable(#[trigger] items[l]),
        !grammar::embeddable(items[k]),
    ensures
        grammar::first_hostile(items, m) == Some(items[k]),
    decreases k - m,
{
    if m < k {
        assert(grammar::embeddable(items[m]));
        lemma_hostile_item(items, m + 1, k);
    }
}

proof fn lemma_hostile_argument(permit: Permit, m: int, j: int)
    requires
        0 <= m <= j < permit.tool.declared().len(),
        forall|l: int| m <= l < j ==> list_embeds(permit, #[trigger] permit.tool.declared()[l]),
        grammar::value_failure(permit, permit.tool.declared()[j]) is Some,
    ensures
        grammar::permit_failure(permit, m) == grammar::value_failure(
            permit,
            permit.tool.declared()[j],
        ),
    decreases j - m,
{
    if m < j {
        lemma_list_embeds(permit, permit.tool.declared()[m]);
        lemma_hostile_argument(permit, m + 1, j);
    }
}

proof fn lemma_hostile_permit(permits: Seq<Permit>, m: int, i: int)
    requires
        0 <= m <= i < permits.len(),
        forall|l: int| m <= l < i ==> permit_embeds(#[trigger] permits[l]),
        grammar::permit_failure(permits[i], 0) is Some,
    ensures
        grammar::failure(permits, m) == grammar::permit_failure(permits[i], 0),
    decreases i - m,
{
    if m < i {
        let p = permits[m];
        grammar::lemma_permit_failure(p, 0);
        assert(permit_embeds(p));
        assert forall|j: int| 0 <= j < p.tool.declared().len() implies grammar::value_failure(
            p,
            #[trigger] p.tool.declared()[j],
        ) is None by {
            lemma_list_embeds(p, p.tool.declared()[j]);
        }
        lemma_hostile_permit(permits, m + 1, i);
    }
}

/// The law of refusals: the first text that may not be embedded, in the order
/// of the permits, of their arguments and of the lists, is the one that is
/// refused, under the name of its list; a step without permits has no grammar.
pub proof fn law_first_hostile_text_is_refused(
    title: Seq<char>,
    step: Step,
    i: int,
    j: int,
    k: int,
)
    requires
        step.permits@.len() > 0 ==> {
            let permit = step.permits@[i];
            &&& 0 <= i < step.permits@.len()
            &&& 0 <= j < permit.tool.declared().len()
            &&& bounding_list(permit, permit.tool.declared()[j].kind) matches Some(list)
            &&& 0 <= k < list.len()
            &&& forall|l: int| 0 <= l < i ==> permit_embeds(#[trigger] step.permits@[l])
            &&& forall|l: int|
                0 <= l < j ==> list_embeds(permit, #[trigger] permit.tool.declared()[l])
            &&& forall|l: int| 0 <= l < k ==> grammar::embeddable((#[trigger] list[l])@)
            &&& !grammar::embeddable(list[k]@)
        },
    ensures
        step.permits@.len() == 0 ==> grammar::compiled(title, step) == Err::<
            (Seq<char>, Seq<Seq<char>>),
            grammar::GrammarErrorView,
        >(grammar::GrammarErrorView::NoPermits { step_id: step.id@ }),
        step.permits@.len() > 0 ==> {
            let permit = step.permits@[i];
            let arg = permit.tool.declared()[j];
            grammar::compiled(title, step) == Err::<
                (Seq<char>, Seq<Seq<char>>),
                grammar::GrammarErrorView,
            >(
                grammar::GrammarErrorView::UnsafeLiteral {
                    field: if arg.kind is Path {
                        "path_roots"@
                    } else if arg.kind is Shell {
                        "argv0_allow"@
                    } else {
                        "host_allow"@
                    },
                    value: bounding_list(permit, arg.kind)->0[k]@,
                },
            )
        },
{
    if step.permits@.len() > 0 {
        let permit = step.permits@[i];
        let arg = permit.tool.declared()[j];
        let list = bounding_list(permit, arg.kind)->0;
        let items = grammar::bounds(permit, arg.kind);
        assert(items =~= text::texts(list));
        assert forall|l: int| 0 <= l < k implies grammar::embeddable(#[trigger] items[l]) by {
            assert(items[l] == list[l]@);
        }
        lemma_hostile_item(items, 0, k);
        lemma_hostile_argument(permit, 0, j);
        lemma_hostile_permit(step.permits@, 0, i);
    }
}

/// The law of compilation: a step with permits, all of whose lists may be
/// embedded, compiles to its head and its rules, with the warnings of its
/// permits.
pub proof fn law_embedded_step_compiles(title: Seq<char>, step: Step)
    requires
        step.permits@.len() > 0,
        forall|i: int| 0 <= i < step.permits@.len() ==> permit_embeds(#[trigger] step.permits@[i]),
    ensures
        grammar::compiled(title, step) == Ok::<
            (Seq<char>, Seq<Seq<char>>),
            grammar::GrammarErrorView,
        >(
            (
                "# mpodol GBNF — step "@ + title + "\n# intent: "@ + step.intent@
                    + "\n# Generated per step. Do not hand-edit; edit the runbook's Permit instead.\n"@
                    + "# No whitespace productions: the model emits one compact JSON object,\n"@
                    + "# which removes indentation as a source of sampling divergence.\n\n"@
                    + grammar::body(step.permits@),
                grammar::warnings(title, step.permits@, step.permits@.len() as int),
            ),
        ),
{
    let permits = step.permits@;
    grammar::lemma_failure(permits, 0);
    assert forall|i: int| 0 <= i < permits.len() implies grammar::permit_failure(
        #[trigger] permits[i],
        0,
    ) is None by {
        let p = permits[i];
        grammar::lemma_permit_failure(p, 0);
        assert(permit_embeds(p));
        assert forall|j: int| 0 <= j < p.tool.declared().len() implies grammar::value_failure(
            p,
            #[trigger] p.tool.declared()[j],
        ) is None by {
            lemma_list_embeds(p, p.tool.declared()[j]);
        }
    }
}

// ---- what can be spelled ------------------------------------------------
/// A line that is no comment names the tool.
pub open spec fn names_tool(line: Seq<char>, tool: Tool) -> bool {
    &&& line.len() == 0 || line[0] != '#'
    &&& exists|a: Seq<char>, b: Seq<char>|
        line == #[trigger] (a + ("\\\"tool\\\":\\\""@ + tool.name()) + b)
}

/// The law of spelling by lines: a grammar's text can spell a tool exactly if
/// one of its lines that is no comment names it, and the tools come in the
/// order of the vocabulary, each at most once.
pub proof fn law_tool_is_spelled_by_a_line(gbnf: Seq<char>, tool: Tool)
    ensures
        ({
            let lines = text::split(gbnf, '\n');
            let all = grammar::spelled(gbnf, 6);
            &&& all.contains(tool) <==> exists|k: int|
                0 <= k < lines.len() && names_tool(#[trigger] lines[k], tool)
            &&& forall|i: int, j: int|
                0 <= i < j < all.len() ==> place(#[trigger] all[i]) < place(#[trigger] all[j])
        }),
{
    let lines = text::split(gbnf, '\n');
    let kept = grammar::uncommented(lines);
    let m = grammar::marker(tool);
    scope::lemma_marker_unbroken(tool);
    scope::lemma_spelled(gbnf, 6, tool);
    let all = Tool::vocabulary();
    assert(all[0] == Tool::FileRead && all[1] == Tool::FileWrite && all[2] == Tool::FileEdit
        && all[3] == Tool::ShellExec && all[4] == Tool::Search && all[5] == Tool::HttpFetch);
    reveal_strlit("\n");
    assert("\n"@ =~= seq!['\n']);
    scope::lemma_joined(kept, "\n"@, '\n', None, m);
    if text::contains_text(grammar::rules_of(gbnf), m) {
        let k = choose|k: int| 0 <= k < kept.len() && text::contains_text(#[trigger] kept[k], m);
        scope::lemma_uncommented_from(lines, k);
        lemma_kept_is_no_comment(lines, k);
        let j = lines.index_of(kept[k]);
        text::law_occurrence_is_a_part(lines[j], m);
        assert(names_tool(lines[j], tool));
    }
    if exists|k: int| 0 <= k < lines.len() && names_tool(#[trigger] lines[k], tool) {
        let k = choose|k: int| 0 <= k < lines.len() && names_tool(#[trigger] lines[k], tool);
        text::law_occurrence_is_a_part(lines[k], m);
        scope::lemma_uncommented_keeps(lines, k);
        let j = kept.index_of(lines[k]);
        assert(text::contains_text(kept[j], m));
    }
    lemma_spelled_in_order(gbnf, 6);
}

/// The place of a tool in the vocabulary.
pub open spec fn place(tool: Tool) -> int {
    match tool {
        Tool::FileRead => 0,
        Tool::FileWrite => 1,
        Tool::FileEdit => 2,
        Tool::ShellExec => 3,
        Tool::Search => 4,
        Tool::HttpFetch => 5,
    }
}

proof fn lemma_spelled_in_order(gbnf: Seq<char>, n: int)
    requires
        0 <= n <= 6,
    ensures
        forall|i: int|
            0 <= i < grammar::spelled(gbnf, n).len() ==> place(
                #[trigger] grammar::spelled(gbnf, n)[i],
            ) < n,
        forall|i: int, j: int|
            0 <= i < j < grammar::spelled(gbnf, n).len() ==> place(
                #[trigger] grammar::spelled(gbnf, n)[i],
            ) < place(#[trigger] grammar::spelled(gbnf, n)[j]),
    decreases n,
{
    if n > 0 {
        lemma_spelled_in_order(gbnf, n - 1);
        let before = grammar::spelled(gbnf, n - 1);
        let all = grammar::spelled(gbnf, n);
        assert(place(Tool::vocabulary()[n - 1]) == n - 1);
        assert forall|i: int| 0 <= i < all.len() implies place(#[trigger] all[i]) < n by {
            if i < before.len() {
                assert(all[i] == before[i]);
            }
        }
        assert forall|i: int, j: int| 0 <= i < j < all.len() implies place(#[trigger] all[i])
            < place(#[trigger] all[j]) by {
            assert(all[i] == before[i]);
            if j < before.len() {
                assert(all[j] == before[j]);
            }
        }
    }
}

proof fn lemma_kept_is_no_comment(lines: Seq<Seq<char>>, k: int)
    requires
        0 <= k < grammar::uncommented(lines).len(),
    ensures
        !grammar::is_comment(grammar::uncommented(lines)[k]),
    decreases lines.len(),
{
    let before = grammar::uncommented(lines.drop_last());
    if k < before.len() {
        lemma_kept_is_no_comment(lines.drop_last(), k);
    }
}

/// The law of admitted paths: the path rule of a permit admits a path exactly
/// if it holds no quote or backslash and, where there are roots, is one of them
/// and something more.
pub proof fn law_admitted_path_extends_a_root(permit: Permit, path: Seq<char>)
    ensures
        grammar::path_admitted(permit, path) <==> {
            &&& !path.contains('"') && !path.contains('\\')
            &&& permit.path_roots@.len() == 0 || exists|i: int, rest: Seq<char>|
                0 <= i < permit.path_roots@.len() && path == #[trigger] (permit.path_roots@[i]@
                    + rest)
        },
{
    if path.contains('"') {
        assert(!grammar::is_free(path[path.index_of('"')]));
    }
    if path.contains('\\') {
        assert(!grammar::is_free(path[path.index_of('\\')]));
    }
    if !path.contains('"') && !path.contains('\\') {
        assert forall|i: int| 0 <= i < path.len() implies grammar::is_free(#[trigger] path[i]) by {
            assert(path.contains(path[i]));
        }
    }
    assert forall|i: int| 0 <= i < permit.path_roots@.len() implies (text::starts_with(
        path,
        (#[trigger] permit.path_roots@[i])@,
    ) <==> exists|rest: Seq<char>| path == #[trigger] (permit.path_roots@[i]@ + rest)) by {
        text::law_occurrence_is_a_part(path, permit.path_roots@[i]@);
    }
}

} // verus!
