//! What the value rules of a compiled grammar admit, and how that compares
//! with what the validator accepts.

use crate::action::{ArgKind, ArgSpec};
use crate::grammar;
use crate::grammar::Symbol;
use crate::runbook::Permit;
use crate::text;
use crate::validate;
use vstd::prelude::*;

verus! {

/// A decimal digit.
pub open spec fn is_digit(c: char) -> bool {
    '0' <= c <= '9'
}

/// The symbols of a value derive `s`. A reference derives nothing here: the
/// alternatives of a value refer to no rule.
pub open spec fn derives(alt: Seq<Symbol>, s: Seq<char>) -> bool
    decreases alt.len(), s.len(),
{
    if alt.len() == 0 {
        s.len() == 0
    } else {
        let rest = alt.drop_first();
        match alt[0] {
            Symbol::Text(t) => text::starts_with(s, t) && derives(rest, s.skip(t.len() as int)),
            Symbol::FreeChars => derives(rest, s) || (s.len() > 0 && grammar::is_free(s[0])
                && derives(alt, s.skip(1))),
            Symbol::Digit => s.len() > 0 && is_digit(s[0]) && derives(rest, s.skip(1)),
            Symbol::Rule(_) => false,
        }
    }
}

/// One of the alternatives derives `s`.
pub open spec fn admits(alts: Seq<Seq<Symbol>>, s: Seq<char>) -> bool {
    exists|k: int| 0 <= k < alts.len() && derives(#[trigger] alts[k], s)
}

/// The alternatives for an argument's value: its own rule, or any string.
pub open spec fn value_alternatives(permit: Permit, arg: ArgSpec) -> Seq<Seq<Symbol>> {
    match grammar::own_alternatives(permit, arg) {
        Some(alts) => alts,
        None => seq![grammar::open_string(seq!['"'])],
    }
}

/// A text as a JSON string that needs no escapes.
pub open spec fn json(s: Seq<char>) -> Seq<char> {
    seq!['"'] + s + seq!['"']
}

/// The law of the shared rule: what a grammar writes for `freestr` is the rule
/// of any string.
pub proof fn law_freestr_is_any_string()
    ensures
        "freestr ::= \"\\\"\" char* \"\\\"\"\n"@ == "freestr ::= "@ + grammar::alternatives_text(
            seq![grammar::open_string(seq!['"'])],
        ) + "\n"@,
{
    reveal_strlit("freestr ::= \"\\\"\" char* \"\\\"\"\n");
    reveal_strlit("freestr ::= ");
    reveal_strlit("char*");
    reveal_strlit(" ");
    reveal_strlit("\n");
    let alt = grammar::open_string(seq!['"']);
    let parts = grammar::symbol_texts(alt);
    reveal_with_fuel(text::join, 3);
    reveal_with_fuel(grammar::escape, 2);
    let q = seq!['"'];
    assert(q.drop_last() =~= Seq::<char>::empty());
    assert(grammar::escape(q) =~= seq!['\\', '"']);
    assert(grammar::literal_text(q) =~= seq!['"', '\\', '"', '"']);
    assert(parts.drop_last().drop_last() =~= seq![grammar::literal_text(q)]);
    assert(parts.drop_last().last() == "char*"@);
    assert(parts.last() == grammar::literal_text(q));
    assert(grammar::alternative_texts(seq![alt]) =~= seq![grammar::alternative_text(alt)]);
    assert("freestr ::= \"\\\"\" char* \"\\\"\"\n"@ =~= "freestr ::= "@
        + grammar::alternatives_text(seq![alt]) + "\n"@);
}

/// Free characters and a closing quote derive exactly a free text with a
/// closing quote.
proof fn lemma_open_end(u: Seq<char>)
    ensures
        derives(seq![Symbol::FreeChars, Symbol::Text(seq!['"'])], u) <==> u.len() > 0 && u.last()
            == '"' && grammar::all_free(u.drop_last()),
    decreases u.len(),
{
    let q = seq!['"'];
    let alt = seq![Symbol::FreeChars, Symbol::Text(q)];
    assert(alt.drop_first() =~= seq![Symbol::Text(q)]);
    lemma_single_literal(q, u);
    if u.len() > 0 {
        let v = u.skip(1);
        lemma_open_end(v);
        if u.len() == 1 {
            assert(u =~= seq![u[0]]);
            assert(grammar::all_free(u.drop_last()));
        } else {
            assert(u.last() == v.last());
            assert(v.drop_last() =~= u.drop_last().skip(1));
            if grammar::is_free(u[0]) && grammar::all_free(v.drop_last()) {
                assert forall|i: int| 0 <= i < u.drop_last().len() implies grammar::is_free(
                    #[trigger] u.drop_last()[i],
                ) by {
                    if i > 0 {
                        assert(v.drop_last()[i - 1] == u.drop_last()[i]);
                    }
                }
            }
            if grammar::all_free(u.drop_last()) {
                assert(u.drop_last()[0] == u[0]);
                assert forall|i: int| 0 <= i < v.drop_last().len() implies grammar::is_free(
                    #[trigger] v.drop_last()[i],
                ) by {
                    assert(v.drop_last()[i] == u.drop_last()[i + 1]);
                }
            }
        }
    }
}

/// What a string with a fixed beginning derives.
proof fn lemma_open_string(prefix: Seq<char>, s: Seq<char>)
    ensures
        derives(grammar::open_string(prefix), s) <==> {
            &&& text::starts_with(s, prefix)
            &&& s.len() > prefix.len()
            &&& s.last() == '"'
            &&& grammar::all_free(s.subrange(prefix.len() as int, s.len() - 1))
        },
{
    let alt = grammar::open_string(prefix);
    assert(alt.drop_first() =~= seq![Symbol::FreeChars, Symbol::Text(seq!['"'])]);
    if text::starts_with(s, prefix) {
        let u = s.skip(prefix.len() as int);
        lemma_open_end(u);
        if u.len() > 0 {
            assert(u.drop_last() =~= s.subrange(prefix.len() as int, s.len() - 1));
        }
    }
}

/// The path alternatives are one per root.
pub(crate) proof fn lemma_root_alternatives(roots: Seq<Seq<char>>)
    ensures
        grammar::root_alternatives(roots).len() == roots.len(),
        forall|i: int|
            0 <= i < roots.len() ==> #[trigger] grammar::root_alternatives(roots)[i]
                == grammar::open_string(seq!['"'] + roots[i]),
    decreases roots.len(),
{
    if roots.len() > 0 {
        lemma_root_alternatives(roots.drop_last());
    }
}

/// The law of the path proxy: where a permit's roots can be embedded, the rule
/// that the compiler writes for a path argument derives exactly the paths that
/// [`grammar::grammar_admits_path`] admits.
pub proof fn law_path_rule_is_what_admits_path(permit: Permit, arg: ArgSpec, path: Seq<char>)
    requires
        arg.kind == ArgKind::Path,
        grammar::value_failure(permit, arg) is None,
    ensures
        admits(value_alternatives(permit, arg), json(path)) <==> grammar::path_admitted(
            permit,
            path,
        ),
{
    let alts = value_alternatives(permit, arg);
    let s = json(path);
    let roots = text::texts(permit.path_roots@);
    if roots.len() == 0 {
        let q = seq!['"'];
        lemma_open_string(q, s);
        assert(q =~= s.subrange(0, 1));
        assert(s.subrange(1, s.len() - 1) =~= path);
        assert(alts[0] == grammar::open_string(q));
        assert(admits(alts, s) <==> grammar::all_free(path));
    } else {
        lemma_root_alternatives(roots);
        grammar::lemma_first_hostile(roots, 0);
        assert forall|i: int| 0 <= i < roots.len() implies (derives(#[trigger] alts[i], s)
            <==> grammar::all_free(path) && text::starts_with(path, roots[i])) by {
            let r = roots[i];
            lemma_embedded_prefix(r, path);
            assert(grammar::embeddable(r));
        }
        if admits(alts, s) {
            let i = choose|i: int| 0 <= i < alts.len() && derives(#[trigger] alts[i], s);
            assert(roots[i] == permit.path_roots@[i]@);
        }
        if grammar::path_admitted(permit, path) {
            let i = choose|i: int|
                0 <= i < permit.path_roots@.len() && text::starts_with(
                    path,
                    (#[trigger] permit.path_roots@[i])@,
                );
            assert(roots[i] == permit.path_roots@[i]@);
            assert(derives(alts[i], s));
        }
    }
}

/// A string that begins with a quote and a given text derives exactly the
/// texts that go on freely from it.
proof fn lemma_string_prefix(start: Seq<char>, t: Seq<char>)
    ensures
        derives(grammar::open_string(seq!['"'] + start), json(t)) <==> text::starts_with(t, start)
            && grammar::all_free(t.skip(start.len() as int)),
{
    let s = json(t);
    let prefix = seq!['"'] + start;
    lemma_open_string(prefix, s);
    if text::starts_with(t, start) {
        assert(start =~= t.subrange(0, start.len() as int));
        assert(prefix =~= s.subrange(0, prefix.len() as int));
        assert(s.subrange(prefix.len() as int, s.len() - 1) =~= t.skip(start.len() as int));
    }
    if text::starts_with(s, prefix) && s.len() > prefix.len() {
        assert(prefix == s.subrange(0, prefix.len() as int));
        assert forall|k: int| 0 <= k < start.len() implies t[k] == start[k] by {
            assert(prefix[k + 1] == start[k]);
            assert(s.subrange(0, prefix.len() as int)[k + 1] == s[k + 1]);
        }
        assert(start =~= t.subrange(0, start.len() as int));
    }
}

/// The same for a text that may be embedded: then the whole is free.
proof fn lemma_embedded_prefix(start: Seq<char>, t: Seq<char>)
    requires
        grammar::embeddable(start),
    ensures
        derives(grammar::open_string(seq!['"'] + start), json(t)) <==> grammar::all_free(t)
            && text::starts_with(t, start),
{
    lemma_string_prefix(start, t);
    if text::starts_with(t, start) {
        let tail = t.skip(start.len() as int);
        assert(start == t.subrange(0, start.len() as int));
        if grammar::all_free(tail) {
            assert forall|k: int| 0 <= k < t.len() implies grammar::is_free(#[trigger] t[k]) by {
                if k < start.len() {
                    assert(start[k] == t[k]);
                } else {
                    assert(tail[k - start.len()] == t[k]);
                }
            }
        }
        if grammar::all_free(t) {
            assert forall|k: int| 0 <= k < tail.len() implies grammar::is_free(
                #[trigger] tail[k],
            ) by {
                assert(tail[k] == t[k + start.len()]);
            }
        }
    }
}

/// The command alternatives are two per command.
pub(crate) proof fn lemma_command_alternatives(allow: Seq<Seq<char>>)
    ensures
        grammar::command_alternatives(allow).len() == 2 * allow.len(),
        forall|i: int|
            0 <= i < allow.len() ==> {
                &&& grammar::command_alternatives(allow)[2 * i] == seq![
                    Symbol::Text(seq!['"'] + #[trigger] allow[i] + seq!['"']),
                ]
                &&& grammar::command_alternatives(allow)[2 * i + 1] == grammar::open_string(
                    seq!['"'] + allow[i] + seq![' '],
                )
            },
    decreases allow.len(),
{
    if allow.len() > 0 {
        let init = allow.drop_last();
        lemma_command_alternatives(init);
        assert forall|i: int| 0 <= i < allow.len() implies {
            &&& grammar::command_alternatives(allow)[2 * i] == seq![
                Symbol::Text(seq!['"'] + #[trigger] allow[i] + seq!['"']),
            ]
            &&& grammar::command_alternatives(allow)[2 * i + 1] == grammar::open_string(
                seq!['"'] + allow[i] + seq![' '],
            )
        } by {
            if i < init.len() {
                assert(init[i] == allow[i]);
            }
        }
    }
}

/// A single literal derives itself alone.
proof fn lemma_single_literal(t: Seq<char>, s: Seq<char>)
    ensures
        derives(seq![Symbol::Text(t)], s) <==> s == t,
{
    reveal_with_fuel(derives, 2);
    let alt = seq![Symbol::Text(t)];
    assert(alt.drop_first() =~= Seq::<Symbol>::empty());
    if derives(alt, s) {
        assert(s.skip(t.len() as int).len() == 0);
        assert(t =~= s.subrange(0, t.len() as int));
        assert(s =~= t);
    }
    if s == t {
        assert(t =~= s.subrange(0, t.len() as int));
    }
}

/// A command is spelled by a listed one: it is that one, or goes on from it
/// after a space, freely.
pub open spec fn anchored(cmd: Seq<char>, argv0: Seq<char>) -> bool {
    cmd == argv0 || (text::starts_with(cmd, argv0.push(' ')) && grammar::all_free(
        cmd.skip(argv0.len() as int + 1),
    ))
}

/// The law of anchoring: the rule of a bounded shell argument derives exactly
/// the commands that a listed command spells in full.
pub proof fn law_command_rule_is_anchored(permit: Permit, arg: ArgSpec, cmd: Seq<char>)
    requires
        arg.kind == ArgKind::Shell,
        permit.argv0_allow@.len() > 0,
    ensures
        admits(value_alternatives(permit, arg), json(cmd)) <==> exists|i: int|
            0 <= i < permit.argv0_allow@.len() && anchored(
                cmd,
                (#[trigger] permit.argv0_allow@[i])@,
            ),
{
    let alts = value_alternatives(permit, arg);
    let s = json(cmd);
    let allow = text::texts(permit.argv0_allow@);
    lemma_command_alternatives(allow);
    assert forall|i: int| 0 <= i < allow.len() implies (derives(alts[2 * i], s) || derives(
        alts[2 * i + 1],
        s,
    ) <==> anchored(cmd, #[trigger] allow[i])) by {
        let a = allow[i];
        let whole = seq!['"'] + a + seq!['"'];
        lemma_single_literal(whole, s);
        if s == whole {
            assert(cmd =~= s.subrange(1, s.len() - 1));
            assert(a =~= whole.subrange(1, whole.len() - 1));
        }
        lemma_string_prefix(a.push(' '), cmd);
        assert(seq!['"'] + a.push(' ') =~= seq!['"'] + a + seq![' ']);
    }
    if admits(alts, s) {
        let k = choose|k: int| 0 <= k < alts.len() && derives(#[trigger] alts[k], s);
        let i = k / 2;
        assert(k == 2 * i || k == 2 * i + 1);
        assert(allow[i] == permit.argv0_allow@[i]@);
        assert(anchored(cmd, allow[i]));
    }
    if exists|i: int|
        0 <= i < permit.argv0_allow@.len() && anchored(cmd, (#[trigger] permit.argv0_allow@[i])@) {
        let i = choose|i: int|
            0 <= i < permit.argv0_allow@.len() && anchored(
                cmd,
                (#[trigger] permit.argv0_allow@[i])@,
            );
        assert(allow[i] == permit.argv0_allow@[i]@);
        assert(derives(alts[2 * i], s) || derives(alts[2 * i + 1], s));
    }
}

/// The law of agreement on commands: where every listed command is one word,
/// a command that the grammar admits has a listed command as its first word,
/// which is what the validator asks of it.
pub proof fn law_admitted_command_is_listed(permit: Permit, arg: ArgSpec, cmd: Seq<char>)
    requires
        arg.kind == ArgKind::Shell,
        permit.argv0_allow@.len() > 0,
        forall|i: int|
            0 <= i < permit.argv0_allow@.len() ==> {
                let a = (#[trigger] permit.argv0_allow@[i])@;
                a.len() > 0 && forall|k: int| 0 <= k < a.len() ==> !text::is_space(#[trigger] a[k])
            },
        admits(value_alternatives(permit, arg), json(cmd)),
    ensures
        text::texts(permit.argv0_allow@).contains(validate::first_word(cmd)),
{
    law_command_rule_is_anchored(permit, arg, cmd);
    let i = choose|i: int|
        0 <= i < permit.argv0_allow@.len() && anchored(cmd, (#[trigger] permit.argv0_allow@[i])@);
    let a = permit.argv0_allow@[i]@;
    assert(text::texts(permit.argv0_allow@)[i] == a);
    if cmd != a {
        assert forall|k: int| 0 <= k < a.len() implies cmd[k] == a[k] by {
            assert(a.push(' ')[k] == cmd.subrange(0, a.len() as int + 1)[k]);
        }
        assert(cmd[a.len() as int] == ' ') by {
            assert(a.push(' ')[a.len() as int] == cmd.subrange(0, a.len() as int + 1)[a.len() as int]);
        }
    }
    assert(!text::is_space(a[0]));
    text::lemma_first_where(cmd, text::non_space(), 0);
    assert(cmd.skip(0) =~= cmd);
    assert forall|k: int| 0 <= k < a.len() implies !(text::space())(#[trigger] cmd[k]) by {
        assert(!text::is_space(a[k]));
    }
    text::lemma_first_where(cmd, text::space(), a.len() as int);
    assert(cmd.take(a.len() as int) =~= a);
}

/// So many digits derive exactly the texts of so many digits.
proof fn lemma_digits(n: nat, s: Seq<char>)
    ensures
        derives(grammar::digits(n), s) <==> s.len() == n && forall|i: int|
            0 <= i < s.len() ==> is_digit(#[trigger] s[i]),
    decreases n,
{
    if n > 0 {
        let alt = grammar::digits(n);
        assert(alt.drop_first() =~= grammar::digits((n - 1) as nat));
        if s.len() > 0 {
            lemma_digits((n - 1) as nat, s.skip(1));
            assert(forall|i: int| 0 < i < s.len() ==> #[trigger] s[i] == s.skip(1)[i - 1]);
            if s.len() == n && is_digit(s[0]) && forall|i: int|
                0 <= i < s.skip(1).len() ==> is_digit(#[trigger] s.skip(1)[i]) {
                assert forall|i: int| 0 <= i < s.len() implies is_digit(#[trigger] s[i]) by {
                    if i > 0 {
                        assert(s[i] == s.skip(1)[i - 1]);
                    }
                }
            }
            if forall|i: int| 0 <= i < s.len() ==> is_digit(#[trigger] s[i]) {
                assert forall|i: int| 0 <= i < s.skip(1).len() implies is_digit(
                    #[trigger] s.skip(1)[i],
                ) by {
                    assert(s.skip(1)[i] == s[i + 1]);
                }
                assert(is_digit(s[0]));
            }
        }
    }
}

pub(crate) proof fn lemma_digit_counts(max: nat)
    ensures
        grammar::digit_counts(max).len() == (if max <= 1 {
            1
        } else {
            max
        }),
        forall|i: int|
            0 <= i < grammar::digit_counts(max).len() ==> #[trigger] grammar::digit_counts(max)[i]
                == grammar::digits((i + 1) as nat),
    decreases max,
{
    if max > 1 {
        lemma_digit_counts((max - 1) as nat);
    }
}

/// The law of digit bounds: an integer rule derives exactly the texts of one
/// up to its bound of decimal digits.
pub proof fn law_digit_rule_counts_digits(max: nat, s: Seq<char>)
    ensures
        admits(grammar::digit_counts(max), s) <==> {
            &&& 1 <= s.len()
            &&& s.len() <= max || s.len() == 1
            &&& forall|i: int| 0 <= i < s.len() ==> is_digit(#[trigger] s[i])
        },
{
    let alts = grammar::digit_counts(max);
    lemma_digit_counts(max);
    assert forall|k: int| 0 <= k < alts.len() implies (derives(#[trigger] alts[k], s) <==> s.len()
        == k + 1 && forall|i: int| 0 <= i < s.len() ==> is_digit(#[trigger] s[i])) by {
        lemma_digits((k + 1) as nat, s);
    }
    if 1 <= s.len() && (s.len() <= max || s.len() == 1) && forall|i: int|
        0 <= i < s.len() ==> is_digit(#[trigger] s[i]) {
        assert(derives(alts[s.len() - 1], s));
    }
}

pub(crate) proof fn lemma_decimal_digits(n: nat)
    ensures
        text::decimal(n).len() >= 1,
        forall|i: int| 0 <= i < text::decimal(n).len() ==> is_digit(#[trigger] text::decimal(n)[i]),
    decreases n,
{
    if n >= 10 {
        lemma_decimal_digits(n / 10);
    }
}

proof fn lemma_decimal_monotone(a: nat, b: nat)
    requires
        a <= b,
    ensures
        text::decimal(a).len() <= text::decimal(b).len(),
    decreases b,
{
    lemma_decimal_digits(b / 10);
    if a >= 10 {
        lemma_decimal_monotone(a / 10, b / 10);
    }
}

/// The law of the ceiling: the grammar admits every timeout that the validator
/// allows under the same ceiling. (It also admits some above it.)
pub proof fn law_allowed_timeout_is_samplable(permit: Permit, arg: ArgSpec, n: nat, cap: u64)
    requires
        arg.kind == ArgKind::Int,
        arg.name@ == "timeout_ms"@,
        permit.max_timeout_ms == Some(cap),
        n <= cap,
    ensures
        admits(value_alternatives(permit, arg), text::decimal(n)),
{
    law_digit_rule_counts_digits(grammar::max_digits(permit, arg), text::decimal(n));
    lemma_decimal_digits(n);
    lemma_decimal_monotone(n, cap as nat);
}

/// The host alternatives are two per host.
pub(crate) proof fn lemma_host_alternatives(hosts: Seq<Seq<char>>)
    ensures
        grammar::host_alternatives(hosts).len() == 2 * hosts.len(),
        forall|i: int|
            0 <= i < hosts.len() ==> {
                &&& grammar::host_alternatives(hosts)[2 * i] == grammar::open_string(
                    "\"http://"@ + #[trigger] hosts[i] + seq!['/'],
                )
                &&& grammar::host_alternatives(hosts)[2 * i + 1] == grammar::open_string(
                    "\"https://"@ + hosts[i] + seq!['/'],
                )
            },
    decreases hosts.len(),
{
    if hosts.len() > 0 {
        let init = hosts.drop_last();
        lemma_host_alternatives(init);
        assert forall|i: int| 0 <= i < hosts.len() implies {
            &&& grammar::host_alternatives(hosts)[2 * i] == grammar::open_string(
                "\"http://"@ + #[trigger] hosts[i] + seq!['/'],
            )
            &&& grammar::host_alternatives(hosts)[2 * i + 1] == grammar::open_string(
                "\"https://"@ + hosts[i] + seq!['/'],
            )
        } by {
            if i < init.len() {
                assert(init[i] == hosts[i]);
            }
        }
    }
}

/// A URL begins with a scheme, a host and a slash, and goes on freely.
pub open spec fn on_host(url: Seq<char>, scheme: Seq<char>, host: Seq<char>) -> bool {
    let start = scheme + host + seq!['/'];
    text::starts_with(url, start) && grammar::all_free(url.skip(start.len() as int))
}

/// The law of hosts: the rule of a bounded URL argument derives exactly the
/// URLs on a listed host, under either scheme.
pub proof fn law_url_rule_names_a_listed_host(permit: Permit, arg: ArgSpec, url: Seq<char>)
    requires
        arg.kind == ArgKind::Url,
        permit.host_allow@.len() > 0,
    ensures
        admits(value_alternatives(permit, arg), json(url)) <==> exists|i: int|
            0 <= i < permit.host_allow@.len() && (on_host(
                url,
                "http://"@,
                (#[trigger] permit.host_allow@[i])@,
            ) || on_host(url, "https://"@, permit.host_allow@[i]@)),
{
    let alts = value_alternatives(permit, arg);
    let s = json(url);
    let hosts = text::texts(permit.host_allow@);
    lemma_host_alternatives(hosts);
    reveal_strlit("\"http://");
    reveal_strlit("\"https://");
    reveal_strlit("http://");
    reveal_strlit("https://");
    assert("\"http://"@ =~= seq!['"'] + "http://"@);
    assert("\"https://"@ =~= seq!['"'] + "https://"@);
    assert forall|i: int| 0 <= i < hosts.len() implies (derives(alts[2 * i], s) || derives(
        alts[2 * i + 1],
        s,
    ) <==> on_host(url, "http://"@, #[trigger] hosts[i]) || on_host(
        url,
        "https://"@,
        hosts[i],
    )) by {
        let plain = "http://"@ + hosts[i] + seq!['/'];
        let secure = "https://"@ + hosts[i] + seq!['/'];
        lemma_string_prefix(plain, url);
        lemma_string_prefix(secure, url);
        assert(seq!['"'] + plain =~= "\"http://"@ + hosts[i] + seq!['/']);
        assert(seq!['"'] + secure =~= "\"https://"@ + hosts[i] + seq!['/']);
    }
    if admits(alts, s) {
        let k = choose|k: int| 0 <= k < alts.len() && derives(#[trigger] alts[k], s);
        let i = k / 2;
        assert(k == 2 * i || k == 2 * i + 1);
        assert(hosts[i] == permit.host_allow@[i]@);
        assert(on_host(url, "http://"@, hosts[i]) || on_host(url, "https://"@, hosts[i]));
    }
    if exists|i: int|
        0 <= i < permit.host_allow@.len() && (on_host(
            url,
            "http://"@,
            (#[trigger] permit.host_allow@[i])@,
        ) || on_host(url, "https://"@, permit.host_allow@[i]@)) {
        let i = choose|i: int|
            0 <= i < permit.host_allow@.len() && (on_host(
                url,
                "http://"@,
                (#[trigger] permit.host_allow@[i])@,
            ) || on_host(url, "https://"@, permit.host_allow@[i]@));
        assert(hosts[i] == permit.host_allow@[i]@);
        assert(derives(alts[2 * i], s) || derives(alts[2 * i + 1], s));
    }
}

/// A host that stands in a URL as it is: not empty, and without the characters
/// that end a host or set off a port or a user name.
pub open spec fn plain_host(h: Seq<char>) -> bool {
    &&& h.len() > 0
    &&& forall|i: int|
        0 <= i < h.len() ==> {
            let c = #[trigger] h[i];
            c != '/' && c != '?' && c != '#' && c != '@' && c != ':'
        }
}

/// Where a plain host and a slash follow the scheme, that is the URL's host.
proof fn lemma_host_after_scheme(rest: Seq<char>, h: Seq<char>)
    requires
        plain_host(h),
        text::starts_with(rest, h.push('/')),
    ensures
        validate::host_of(rest) == h,
        validate::bare_host(h) == h,
{
    let n = h.len() as int;
    let ends = seq!['/', '?', '#'];
    let colon = seq![':'];
    assert(h.push('/') == rest.subrange(0, n + 1));
    assert forall|k: int| 0 <= k < n implies rest[k] == h[k] by {
        assert(h.push('/')[k] == rest.subrange(0, n + 1)[k]);
    }
    assert(rest[n] == '/') by {
        assert(h.push('/')[n] == rest.subrange(0, n + 1)[n]);
    }
    assert forall|k: int| 0 <= k < n implies !(text::one_of(ends))(#[trigger] rest[k]) by {
        assert(rest[k] == h[k]);
        assert(ends[0] == '/' && ends[1] == '?' && ends[2] == '#' && ends.len() == 3);
    }
    assert(ends[0] == '/');
    assert((text::one_of(ends))(rest[n]));
    text::lemma_first_where(rest, text::one_of(ends), n);
    assert(rest.take(n) =~= h);
    assert(!h.contains('@'));
    text::lemma_split_whole(h, '@');
    assert forall|k: int| 0 <= k < n implies !(text::one_of(colon))(#[trigger] h[k]) by {
        assert(h[k] != ':');
        assert(colon[0] == ':' && colon.len() == 1);
    }
    text::lemma_first_where(h, text::one_of(colon), n);
    assert(h.take(n) =~= h);
}

/// The law of agreement on hosts: where every listed host is plain, a URL that
/// the grammar admits names a listed host, which is what the validator asks of
/// it.
pub proof fn law_admitted_url_is_listed(permit: Permit, arg: ArgSpec, url: Seq<char>)
    requires
        arg.kind == ArgKind::Url,
        permit.host_allow@.len() > 0,
        forall|i: int|
            0 <= i < permit.host_allow@.len() ==> plain_host((#[trigger] permit.host_allow@[i])@),
        admits(value_alternatives(permit, arg), json(url)),
    ensures
        validate::after_scheme(url) matches Some(rest) && validate::host_of(rest).len() > 0
            && text::texts(permit.host_allow@).contains(
            validate::bare_host(validate::host_of(rest)),
        ),
{
    law_url_rule_names_a_listed_host(permit, arg, url);
    let i = choose|i: int|
        0 <= i < permit.host_allow@.len() && (on_host(
            url,
            "http://"@,
            (#[trigger] permit.host_allow@[i])@,
        ) || on_host(url, "https://"@, permit.host_allow@[i]@));
    let h = permit.host_allow@[i]@;
    assert(text::texts(permit.host_allow@)[i] == h);
    reveal_strlit("http://");
    reveal_strlit("https://");
    let scheme = if on_host(url, "https://"@, h) {
        "https://"@
    } else {
        "http://"@
    };
    let start = scheme + h + seq!['/'];
    assert(start == url.subrange(0, start.len() as int));
    assert forall|k: int| 0 <= k < start.len() implies url[k] == start[k] by {
        assert(start[k] == url.subrange(0, start.len() as int)[k]);
    }
    assert(scheme =~= url.subrange(0, scheme.len() as int));
    let rest = url.skip(scheme.len() as int);
    assert(h.push('/') =~= rest.subrange(0, h.len() as int + 1));
    if scheme == "http://"@ {
        assert(url[4] == ':');
        if text::starts_with(url, "https://"@) {
            assert("https://"@[4] == url.subrange(0, 8)[4]);
        }
        assert(!text::starts_with(url, "https://"@));
    }
    lemma_host_after_scheme(rest, h);
}

} // verus!
