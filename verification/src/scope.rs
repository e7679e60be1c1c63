//! Step scoping: a compiled grammar can spell exactly the tools that its step
//! permits.

use crate::action::{ArgKind, ArgSpec, Tool};
use crate::grammar;
use crate::grammar::Symbol;
use crate::language;
use crate::runbook;
use crate::runbook::{Permit, Step};
use crate::text;
use vstd::prelude::*;

verus! {

// ---- occurrences --------------------------------------------------------
/// `c` does not stand in `s`.
pub open spec fn free_of(s: Seq<char>, c: char) -> bool {
    forall|i: int| 0 <= i < s.len() ==> #[trigger] s[i] != c
}

/// An occurrence in a part is one in the whole.
proof fn lemma_part(a: Seq<char>, b: Seq<char>, c: Seq<char>, needle: Seq<char>)
    requires
        text::contains_text(b, needle),
    ensures
        text::contains_text(a + b + c, needle),
{
    let at = choose|at: int| #[trigger] text::occurs_at(b, needle, at);
    let whole = a + b + c;
    assert(whole.subrange(a.len() + at, a.len() + at + needle.len()) =~= b.subrange(
        at,
        at + needle.len(),
    ));
    assert(text::occurs_at(whole, needle, a.len() + at));
}

/// Around a character that the needle lacks, an occurrence is on one side.
proof fn lemma_sides(a: Seq<char>, c: char, b: Seq<char>, needle: Seq<char>)
    requires
        free_of(needle, c),
        needle.len() > 0,
    ensures
        text::contains_text(a.push(c) + b, needle) <==> text::contains_text(a, needle)
            || text::contains_text(b, needle),
{
    let whole = a.push(c) + b;
    let none = Seq::<char>::empty();
    if text::contains_text(whole, needle) {
        let at = choose|at: int| #[trigger] text::occurs_at(whole, needle, at);
        if at + needle.len() <= a.len() {
            assert(a.subrange(at, at + needle.len()) =~= whole.subrange(at, at + needle.len()));
            assert(text::occurs_at(a, needle, at));
        } else if at > a.len() {
            let p = at - a.len() - 1;
            assert(b.subrange(p, p + needle.len()) =~= whole.subrange(at, at + needle.len()));
            assert(text::occurs_at(b, needle, p));
        } else {
            assert(needle[a.len() - at] == whole.subrange(at, at + needle.len())[a.len() - at]);
            assert(whole[a.len() as int] == c);
            assert(false);
        }
    }
    if text::contains_text(a, needle) {
        lemma_part(none, a, seq![c] + b, needle);
        assert(none + a + (seq![c] + b) =~= whole);
    }
    if text::contains_text(b, needle) {
        lemma_part(a.push(c), b, none, needle);
        assert(a.push(c) + b + none =~= whole);
    }
}

/// How many backslashes stand in a text.
spec fn slashes(s: Seq<char>) -> nat
    decreases s.len(),
{
    if s.len() == 0 {
        0
    } else {
        slashes(s.drop_last()) + (if s.last() == '\\' {
            1nat
        } else {
            0nat
        })
    }
}

proof fn lemma_slashes_concat(a: Seq<char>, b: Seq<char>)
    ensures
        slashes(a + b) == slashes(a) + slashes(b),
    decreases b.len(),
{
    if b.len() == 0 {
        assert(a + b =~= a);
    } else {
        lemma_slashes_concat(a, b.drop_last());
        assert((a + b).drop_last() =~= a + b.drop_last());
    }
}

proof fn lemma_no_slashes(s: Seq<char>)
    requires
        free_of(s, '\\'),
    ensures
        slashes(s) == 0,
    decreases s.len(),
{
    if s.len() > 0 {
        lemma_no_slashes(s.drop_last());
    }
}

/// A text with fewer backslashes than the needle does not hold it.
proof fn lemma_too_few(s: Seq<char>, needle: Seq<char>)
    requires
        slashes(s) < slashes(needle),
    ensures
        !text::contains_text(s, needle),
{
    if text::contains_text(s, needle) {
        let at = choose|at: int| #[trigger] text::occurs_at(s, needle, at);
        let a = s.take(at);
        let b = s.skip(at + needle.len());
        assert(s =~= a + needle + b);
        lemma_slashes_concat(a, needle);
        lemma_slashes_concat(a + needle, b);
    }
}

/// Joined parts hold the needle exactly if one of them does. The separator is
/// a character that the needle lacks, or a text without the needle between two
/// of those.
pub(crate) proof fn lemma_joined(
    parts: Seq<Seq<char>>,
    sep: Seq<char>,
    c: char,
    mid: Option<Seq<char>>,
    needle: Seq<char>,
)
    requires
        free_of(needle, c),
        needle.len() > 0,
        match mid {
            None => sep == seq![c],
            Some(m) => sep == seq![c] + m + seq![c] && !text::contains_text(m, needle),
        },
    ensures
        text::contains_text(text::join(parts, sep), needle) <==> exists|i: int|
            0 <= i < parts.len() && text::contains_text(#[trigger] parts[i], needle),
    decreases parts.len(),
{
    if parts.len() == 0 {
        assert(!text::contains_text(Seq::<char>::empty(), needle));
    } else if parts.len() == 1 {
        if text::contains_text(parts[0], needle) {
            assert(text::contains_text(parts[0], needle));
        }
    } else {
        let init = parts.drop_last();
        let left = text::join(init, sep);
        lemma_joined(init, sep, c, mid, needle);
        match mid {
            None => {
                lemma_sides(left, c, parts.last(), needle);
                assert(left.push(c) + parts.last() =~= left + sep + parts.last());
            },
            Some(m) => {
                lemma_sides(m, c, parts.last(), needle);
                lemma_sides(left, c, m.push(c) + parts.last(), needle);
                assert(left.push(c) + (m.push(c) + parts.last()) =~= left + sep + parts.last());
            },
        }
        if text::contains_text(left, needle) {
            let i = choose|i: int|
                0 <= i < init.len() && text::contains_text(#[trigger] init[i], needle);
            assert(parts[i] == init[i]);
        }
        if exists|i: int| 0 <= i < parts.len() && text::contains_text(#[trigger] parts[i], needle) {
            let i = choose|i: int|
                0 <= i < parts.len() && text::contains_text(#[trigger] parts[i], needle);
            if i < init.len() {
                assert(init[i] == parts[i]);
            }
        }
    }
}

/// Lines hold the needle exactly if one of them does.
proof fn lemma_lines(rules: Seq<Seq<char>>, needle: Seq<char>)
    requires
        free_of(needle, '\n'),
        needle.len() > 0,
    ensures
        text::contains_text(grammar::lines(rules), needle) <==> exists|i: int|
            0 <= i < rules.len() && text::contains_text(#[trigger] rules[i], needle),
    decreases rules.len(),
{
    let none = Seq::<char>::empty();
    assert(!text::contains_text(none, needle));
    if rules.len() > 0 {
        let init = rules.drop_last();
        lemma_lines(init, needle);
        lemma_line_ends(init);
        let left = grammar::lines(init);
        reveal_strlit("\n");
        lemma_sides(rules.last(), '\n', none, needle);
        assert(rules.last().push('\n') + none =~= rules.last() + "\n"@);
        lemma_after_line(left, rules.last() + "\n"@, needle);
        assert(left + (rules.last() + "\n"@) =~= grammar::lines(rules));
        if text::contains_text(left, needle) {
            let i = choose|i: int|
                0 <= i < init.len() && text::contains_text(#[trigger] init[i], needle);
            assert(rules[i] == init[i]);
        }
        if exists|i: int| 0 <= i < rules.len() && text::contains_text(#[trigger] rules[i], needle) {
            let i = choose|i: int|
                0 <= i < rules.len() && text::contains_text(#[trigger] rules[i], needle);
            if i < init.len() {
                assert(init[i] == rules[i]);
            }
        }
    }
}

/// A text that is empty or ends a line.
spec fn ends_line(s: Seq<char>) -> bool {
    s.len() == 0 || s.last() == '\n'
}

proof fn lemma_line_ends(rules: Seq<Seq<char>>)
    ensures
        ends_line(grammar::lines(rules)),
{
    reveal_strlit("\n");
}

/// After the end of a line, an occurrence is on one side.
proof fn lemma_after_line(a: Seq<char>, b: Seq<char>, needle: Seq<char>)
    requires
        ends_line(a),
        free_of(needle, '\n'),
        needle.len() > 0,
    ensures
        text::contains_text(a + b, needle) <==> text::contains_text(a, needle)
            || text::contains_text(b, needle),
{
    let none = Seq::<char>::empty();
    assert(!text::contains_text(none, needle));
    if a.len() == 0 {
        assert(a + b =~= b);
        assert(a =~= none);
    } else {
        let front = a.drop_last();
        lemma_sides(front, '\n', b, needle);
        lemma_sides(front, '\n', none, needle);
        assert(front.push('\n') =~= a);
        assert(a + none =~= a);
    }
}

// ---- names and literals -------------------------------------------------
/// A character of a tool's or an argument's name.
spec fn name_char(c: char) -> bool {
    'a' <= c <= 'z' || c == '_'
}

spec fn is_name(s: Seq<char>) -> bool {
    forall|i: int| 0 <= i < s.len() ==> name_char(#[trigger] s[i])
}

/// Three characters that tell the tools' names apart.
spec fn telling(s: Seq<char>) -> (char, char, char) {
    (s[0], s[1], s[5])
}

proof fn lemma_tool_name(tool: Tool)
    ensures
        is_name(tool.name()),
        tool.name().len() >= 6,
        telling(tool.name()) == (match tool {
            Tool::FileRead => ('f', 'i', 'r'),
            Tool::FileWrite => ('f', 'i', 'w'),
            Tool::FileEdit => ('f', 'i', 'e'),
            Tool::ShellExec => ('s', 'h', '_'),
            Tool::Search => ('s', 'e', 'h'),
            Tool::HttpFetch => ('h', 't', 'f'),
        }),
{
    match tool {
        Tool::FileRead => {
            reveal_strlit("file_read");
        },
        Tool::FileWrite => {
            reveal_strlit("file_write");
        },
        Tool::FileEdit => {
            reveal_strlit("file_edit");
        },
        Tool::ShellExec => {
            reveal_strlit("shell_exec");
        },
        Tool::Search => {
            reveal_strlit("search");
        },
        Tool::HttpFetch => {
            reveal_strlit("http_fetch");
        },
    }
}

proof fn lemma_arg_name(tool: Tool, j: int)
    requires
        0 <= j < tool.declared().len(),
    ensures
        is_name(tool.declared()[j].name@),
{
    reveal_strlit("path");
    reveal_strlit("content");
    reveal_strlit("find");
    reveal_strlit("replace");
    reveal_strlit("cmd");
    reveal_strlit("timeout_ms");
    reveal_strlit("query");
    reveal_strlit("url");
}

pub(crate) proof fn lemma_escape_concat(a: Seq<char>, b: Seq<char>)
    ensures
        grammar::escape(a + b) == grammar::escape(a) + grammar::escape(b),
    decreases b.len(),
{
    if b.len() == 0 {
        assert(a + b =~= a);
        assert(grammar::escape(a) + grammar::escape(b) =~= grammar::escape(a));
    } else {
        lemma_escape_concat(a, b.drop_last());
        assert((a + b).drop_last() =~= a + b.drop_last());
        assert(grammar::escape(a + b) =~= grammar::escape(a) + grammar::escape(b));
    }
}

pub(crate) proof fn lemma_escape_plain(s: Seq<char>)
    requires
        grammar::embeddable(s),
    ensures
        grammar::escape(s) == s,
    decreases s.len(),
{
    if s.len() > 0 {
        lemma_escape_plain(s.drop_last());
        let c = s.last();
        assert(!text::is_control(s[s.len() - 1]));
        assert(grammar::escape_char(c) == seq![c]);
        assert(s.drop_last() + seq![c] =~= s);
    }
}

/// A text that may be embedded, a quote, and more.
pub(crate) proof fn lemma_escape_quote(a: Seq<char>, b: Seq<char>)
    requires
        grammar::embeddable(a),
    ensures
        grammar::escape(a + seq!['"'] + b) == a + seq!['\\', '"'] + grammar::escape(b),
{
    let q = seq!['"'];
    lemma_escape_plain(a);
    lemma_escape_concat(a, q);
    lemma_escape_concat(a + q, b);
    reveal_with_fuel(grammar::escape, 2);
    assert(q.drop_last() =~= Seq::<char>::empty());
    assert(grammar::escape(q) =~= seq!['\\', '"']);
}

proof fn lemma_one_slash()
    ensures
        slashes(seq!['\\']) == 1,
{
    reveal_with_fuel(slashes, 2);
    assert(seq!['\\'].drop_last() =~= Seq::<char>::empty());
}

/// The quotes around a literal add no backslashes.
proof fn lemma_literal_slashes(t: Seq<char>)
    ensures
        slashes(grammar::literal_text(t)) == slashes(grammar::escape(t)),
{
    let q = seq!['"'];
    lemma_no_slashes(q);
    lemma_slashes_concat(q, grammar::escape(t));
    lemma_slashes_concat(q + grammar::escape(t), q);
}

proof fn lemma_quoted_slashes(a: Seq<char>, b: Seq<char>)
    requires
        grammar::embeddable(a),
    ensures
        slashes(grammar::escape(a + seq!['"'] + b)) == 1 + slashes(grammar::escape(b)),
{
    lemma_escape_quote(a, b);
    lemma_no_slashes(a);
    let bs = seq!['\\', '"'];
    lemma_slashes_concat(a, bs);
    lemma_slashes_concat(a + bs, grammar::escape(b));
    assert(bs =~= seq!['\\'] + seq!['"']);
    lemma_slashes_concat(seq!['\\'], seq!['"']);
    lemma_no_slashes(seq!['"']);
    lemma_one_slash();
}

proof fn lemma_plain_slashes(s: Seq<char>)
    requires
        grammar::embeddable(s),
    ensures
        slashes(grammar::escape(s)) == 0,
{
    lemma_escape_plain(s);
    lemma_no_slashes(s);
}

// ---- the marker of a tool -----------------------------------------------
/// The part of a marker that is the same for every tool.
#[verifier::opaque]
spec fn marker_head() -> Seq<char> {
    seq!['\\', '"', 't', 'o', 'o', 'l', '\\', '"', ':', '\\', '"']
}

proof fn lemma_marker(tool: Tool)
    ensures
        marker_head().len() == 11,
        grammar::marker(tool) == marker_head() + tool.name(),
        slashes(grammar::marker(tool)) == 3,
        grammar::marker(tool).len() > 0,
        free_of(grammar::marker(tool), ' '),
        free_of(grammar::marker(tool), '\n'),
        free_of(grammar::marker(tool), ','),
        free_of(grammar::marker(tool), '{'),
{
    reveal(marker_head);
    reveal_strlit("\\\"tool\\\":\\\"");
    assert("\\\"tool\\\":\\\""@ =~= marker_head());
    lemma_tool_name(tool);
    let b = seq!['\\'];
    let t = seq!['"', 't', 'o', 'o', 'l'];
    let c = seq!['"', ':'];
    let q = seq!['"'];
    assert(marker_head() =~= b + t + b + c + b + q);
    lemma_one_slash();
    lemma_no_slashes(t);
    lemma_no_slashes(c);
    lemma_no_slashes(q);
    lemma_slashes_concat(b, t);
    lemma_slashes_concat(b + t, b);
    lemma_slashes_concat(b + t + b, c);
    lemma_slashes_concat(b + t + b + c, b);
    lemma_slashes_concat(b + t + b + c + b, q);
    let name = tool.name();
    assert(free_of(name, '\\')) by {
        assert forall|i: int| 0 <= i < name.len() implies #[trigger] name[i] != '\\' by {
            assert(name_char(name[i]));
        }
    }
    lemma_no_slashes(name);
    lemma_slashes_concat(marker_head(), name);
    let m = marker_head() + name;
    assert forall|i: int| 0 <= i < m.len() implies m[i] != ' ' && m[i] != '\n' && m[i] != ','
        && #[trigger] m[i] != '{' by {
        if i >= marker_head().len() {
            assert(name_char(name[i - marker_head().len()]));
        }
    }
}

/// The part of a tool's action that names it.
spec fn naming(tool: Tool) -> Seq<char> {
    marker_head() + tool.name() + seq!['\\', '"']
}

/// An occurrence agrees with the needle at each position.
proof fn lemma_occurs_char(hay: Seq<char>, needle: Seq<char>, at: int, i: int)
    requires
        text::occurs_at(hay, needle, at),
        0 <= i < needle.len(),
    ensures
        needle[i] == hay[at + i],
{
    assert(hay.subrange(at, at + needle.len())[i] == hay[at + i]);
}

/// Only at its beginning can the part that names a tool hold a marker.
proof fn lemma_naming_begins(tool: Tool, other: Tool, at: int)
    requires
        text::occurs_at(naming(tool), grammar::marker(other), at),
    ensures
        at == 0,
{
    let hay = naming(tool);
    let needle = grammar::marker(other);
    let name = tool.name();
    reveal(marker_head);
    lemma_marker(other);
    lemma_tool_name(tool);
    lemma_occurs_char(hay, needle, at, 0);
    lemma_occurs_char(hay, needle, at, 2);
    assert(needle[0] == '\\' && needle[2] == 't');
    if 11 <= at < 11 + name.len() {
        assert(hay[at] == name[at - 11]);
        assert(name_char(name[at - 11]));
        assert(false);
    } else if at >= 11 + name.len() {
        assert(hay.len() == 13 + name.len());
        assert(false);
    } else if at > 0 {
        assert(hay[at] == marker_head()[at]);
        assert(at == 6 || at == 9);
        assert(hay[8] == marker_head()[8]);
        assert(hay[11] == name[0]);
        assert(false);
    }
}

/// The telling characters tell the tools apart.
proof fn lemma_telling(tool: Tool, other: Tool)
    requires
        telling(tool.name()) == telling(other.name()),
    ensures
        tool == other,
{
    lemma_tool_name(tool);
    lemma_tool_name(other);
}

/// The part that names a tool holds the marker of that tool alone.
proof fn lemma_naming(tool: Tool, other: Tool)
    ensures
        text::contains_text(naming(tool), grammar::marker(other)) <==> tool == other,
{
    let hay = naming(tool);
    let needle = grammar::marker(other);
    let head = marker_head();
    let name = tool.name();
    let sought = other.name();
    lemma_marker(other);
    lemma_tool_name(tool);
    lemma_tool_name(other);
    if tool == other {
        assert(hay.subrange(0, needle.len() as int) =~= needle);
        assert(text::occurs_at(hay, needle, 0));
    }
    if text::contains_text(hay, needle) {
        let at = choose|at: int| #[trigger] text::occurs_at(hay, needle, at);
        lemma_naming_begins(tool, other, at);
        assert forall|i: int| 0 <= i < 6 implies #[trigger] name[i] == sought[i] by {
            lemma_occurs_char(hay, needle, 0, 11 + i);
            assert(needle[11 + i] == sought[i]);
            assert(hay[11 + i] == (head + name)[11 + i]);
        }
        lemma_telling(tool, other);
    }
}

/// A key and the colon after it, as they stand in a literal.
spec fn escaped_key(key: Seq<char>) -> Seq<char> {
    seq!['\\', '"'] + key + seq!['\\', '"'] + seq![':']
}

spec fn args_key() -> Seq<char> {
    seq!['a', 'r', 'g', 's']
}

proof fn lemma_key_slashes(key: Seq<char>)
    requires
        is_name(key),
    ensures
        slashes(escaped_key(key)) == 2,
        slashes(escaped_key(key) + seq!['"']) == 2,
{
    let q = seq!['"'];
    let bq = seq!['\\', '"'];
    let colon = seq![':'];
    lemma_one_slash();
    lemma_no_slashes(q);
    lemma_no_slashes(colon);
    assert forall|i: int| 0 <= i < key.len() implies #[trigger] key[i] != '\\' by {
        assert(name_char(key[i]));
    }
    lemma_no_slashes(key);
    assert(bq =~= seq!['\\'] + q);
    lemma_slashes_concat(seq!['\\'], q);
    lemma_slashes_concat(bq, key);
    lemma_slashes_concat(bq + key, bq);
    lemma_slashes_concat(bq + key + bq, colon);
    lemma_slashes_concat(escaped_key(key), q);
}

/// A name may be embedded.
proof fn lemma_name_embeds(s: Seq<char>)
    requires
        is_name(s),
    ensures
        grammar::embeddable(s),
{
    assert forall|i: int| 0 <= i < s.len() implies !text::is_control(#[trigger] s[i]) && s[i] != '"'
        && s[i] != '\\' by {
        assert(name_char(s[i]));
    }
}

/// The names of tools and arguments may be embedded.
pub(crate) proof fn lemma_names_embed(tool: Tool)
    ensures
        grammar::embeddable(tool.name()),
        forall|j: int|
            0 <= j < tool.declared().len() ==> grammar::embeddable(
                (#[trigger] tool.declared()[j]).name@,
            ),
{
    lemma_tool_name(tool);
    lemma_name_embeds(tool.name());
    assert forall|j: int| 0 <= j < tool.declared().len() implies grammar::embeddable(
        (#[trigger] tool.declared()[j]).name@,
    ) by {
        lemma_arg_name(tool, j);
        lemma_name_embeds(tool.declared()[j].name@);
    }
}

/// A marker stands on one line.
pub(crate) proof fn lemma_marker_unbroken(tool: Tool)
    ensures
        grammar::marker(tool).len() > 0,
        free_of(grammar::marker(tool), '\n'),
{
    lemma_marker(tool);
}

/// The escaped form of a key, a colon and more.
proof fn lemma_escaped_key(key: Seq<char>, more: Seq<char>)
    requires
        is_name(key),
    ensures
        grammar::escape(seq!['"'] + key + seq!['"'] + seq![':'] + more) == escaped_key(key)
            + grammar::escape(more),
{
    let q = seq!['"'];
    let none = Seq::<char>::empty();
    let colon = seq![':'];
    lemma_name_embeds(key);
    lemma_escape_quote(none, key + q + (colon + more));
    lemma_escape_quote(key, colon + more);
    lemma_escape_concat(colon, more);
    lemma_escape_plain(colon);
    assert(q + key + q + colon + more =~= none + q + (key + q + (colon + more)));
    assert(none + seq!['\\', '"'] + (key + seq!['\\', '"'] + (colon + grammar::escape(more)))
        =~= escaped_key(key) + grammar::escape(more));
}

/// A key before an opening brace and more.
proof fn lemma_escaped_object(key: Seq<char>, more: Seq<char>)
    requires
        is_name(key),
    ensures
        grammar::escape(seq!['"'] + key + seq!['"'] + seq![':'] + (seq!['{'] + more))
            == escaped_key(key).push('{') + grammar::escape(more),
{
    lemma_escaped_key(key, seq!['{'] + more);
    lemma_escape_concat(seq!['{'], more);
    lemma_escape_plain(seq!['{']);
    assert(escaped_key(key) + (seq!['{'] + grammar::escape(more)) =~= escaped_key(key).push('{')
        + grammar::escape(more));
}

/// A name between quotes, a comma and more.
proof fn lemma_escaped_item(name: Seq<char>, more: Seq<char>)
    requires
        is_name(name),
    ensures
        grammar::escape(seq!['"'] + name + seq!['"'] + (seq![','] + more)) == seq!['\\', '"'] + name
            + seq!['\\', '"'] + (seq![','] + grammar::escape(more)),
{
    let q = seq!['"'];
    let bq = seq!['\\', '"'];
    let none = Seq::<char>::empty();
    let rest = seq![','] + more;
    lemma_name_embeds(name);
    lemma_escape_quote(none, name + q + rest);
    lemma_escape_quote(name, rest);
    lemma_escape_concat(seq![','], more);
    lemma_escape_plain(seq![',']);
    assert(q + name + q + rest =~= none + q + (name + q + rest));
    assert(none + bq + (name + bq + grammar::escape(rest)) =~= bq + name + bq + grammar::escape(
        rest,
    ));
}

spec fn tool_key() -> Seq<char> {
    seq!['t', 'o', 'o', 'l']
}

/// The fixed text before the first argument as it stands in an action.
proof fn lemma_first_lead_text(tool: Tool)
    ensures
        grammar::lead(tool, 0) == ({
            let q = seq!['"'];
            let arg = q + tool.declared()[0].name@ + q + seq![':'];
            let args = q + args_key() + q + seq![':'] + (seq!['{'] + arg);
            let item = q + tool.name() + q + (seq![','] + args);
            seq!['{'] + (q + tool_key() + q + seq![':'] + item)
        }),
{
    let q = seq!['"'];
    let name = tool.name();
    let arg = tool.declared()[0].name@;
    let x = "{\"tool\":\""@;
    let y = "\",\"args\":{"@;
    let z = "\":"@;
    assert(x =~= seq!['{'] + (q + tool_key() + q + seq![':'] + q)) by {
        reveal_strlit("{\"tool\":\"");
    }
    assert(y =~= q + (seq![','] + (q + args_key() + q + seq![':'] + seq!['{']))) by {
        reveal_strlit("\",\"args\":{");
    }
    assert("\""@ =~= q) by {
        reveal_strlit("\"");
    }
    assert(z =~= q + seq![':']) by {
        reveal_strlit("\":");
    }
    assert(grammar::lead(tool, 0) == x + name + y + q + arg + z);
    let tail = q + arg + q + seq![':'];
    assert(y + q + arg + z =~= q + (seq![','] + (q + args_key() + q + seq![':'] + (seq!['{']
        + tail))));
    assert(x + name + y + q + arg + z =~= x + (name + (y + q + arg + z)));
}

proof fn lemma_regroup_item(k: Seq<char>, bq: Seq<char>, name: Seq<char>, e: Seq<char>)
    ensures
        k + (bq + name + bq + (seq![','] + e)) == (k + bq + name + bq).push(',') + e,
{
    assert(k + (bq + name + bq + (seq![','] + e)) =~= (k + bq + name + bq).push(',') + e);
}

proof fn lemma_regroup_ends(q: Seq<char>, x: Seq<char>, a: Seq<char>, key: Seq<char>)
    ensures
        q + (seq!['{'] + (x + (a + key))) + q == q.push('{') + (x + (a + (key + q))),
{
    assert(q + (seq!['{'] + (x + (a + key))) + q =~= q.push('{') + (x + (a + (key + q))));
}

/// The escaped form of the fixed text before the first argument.
proof fn lemma_first_lead_escaped(tool: Tool)
    ensures
        grammar::escape(grammar::lead(tool, 0)) == seq!['{'] + (naming(tool).push(',') + (
        escaped_key(args_key()).push('{') + escaped_key(tool.declared()[0].name@))),
{
    let name = tool.name();
    let key = tool.declared()[0].name@;
    let q = seq!['"'];
    let bq = seq!['\\', '"'];
    let none = Seq::<char>::empty();
    lemma_tool_name(tool);
    lemma_arg_name(tool, 0);
    lemma_first_lead_text(tool);
    let arg = q + key + q + seq![':'];
    let args = q + args_key() + q + seq![':'] + (seq!['{'] + arg);
    let item = q + name + q + (seq![','] + args);
    let all = q + tool_key() + q + seq![':'] + item;
    assert(grammar::escape(arg) == escaped_key(key)) by {
        lemma_escaped_key(key, none);
        assert(arg + none =~= arg);
        assert(escaped_key(key) + grammar::escape(none) =~= escaped_key(key));
    }
    let e_args = escaped_key(args_key()).push('{') + escaped_key(key);
    lemma_escaped_object(args_key(), arg);
    let e_item = bq + name + bq + (seq![','] + e_args);
    lemma_escaped_item(name, args);
    assert(grammar::escape(item) == e_item);
    lemma_escaped_key(tool_key(), item);
    assert(grammar::escape(all) == escaped_key(tool_key()) + e_item);
    lemma_escape_concat(seq!['{'], all);
    lemma_escape_plain(seq!['{']);
    lemma_regroup_item(escaped_key(tool_key()), bq, name, e_args);
    assert(escaped_key(tool_key()) + bq =~= marker_head()) by {
        reveal(marker_head);
    }
}

/// The literal of that text, by its parts.
proof fn lemma_first_lead_parts(tool: Tool)
    ensures
        grammar::literal_text(grammar::lead(tool, 0)) == seq!['"'].push('{') + (naming(tool).push(
            ',',
        ) + (escaped_key(args_key()).push('{') + (escaped_key(tool.declared()[0].name@)
            + seq!['"']))),
{
    lemma_first_lead_escaped(tool);
    lemma_regroup_ends(
        seq!['"'],
        naming(tool).push(','),
        escaped_key(args_key()).push('{'),
        escaped_key(tool.declared()[0].name@),
    );
}

/// The fixed text before an action's first argument holds the marker of the
/// action's own tool alone.
proof fn lemma_first_lead(tool: Tool, other: Tool)
    ensures
        text::contains_text(
            grammar::literal_text(grammar::lead(tool, 0)),
            grammar::marker(other),
        ) <==> tool == other,
{
    let needle = grammar::marker(other);
    let arg = tool.declared()[0].name@;
    let q = seq!['"'];
    lemma_marker(other);
    lemma_arg_name(tool, 0);
    lemma_first_lead_parts(tool);
    let args = escaped_key(args_key());
    let last = escaped_key(arg) + q;
    let inner = args.push('{') + last;
    let middle = naming(tool).push(',') + inner;
    lemma_sides(q, '{', middle, needle);
    lemma_sides(naming(tool), ',', inner, needle);
    lemma_sides(args, '{', last, needle);
    lemma_naming(tool, other);
    lemma_no_slashes(q);
    lemma_too_few(q, needle);
    lemma_key_slashes(args_key());
    lemma_too_few(args, needle);
    lemma_key_slashes(arg);
    lemma_too_few(last, needle);
}

// ---- rules --------------------------------------------------------------
/// A text with at most two backslashes does not hold a marker.
proof fn lemma_unmarked(s: Seq<char>, tool: Tool)
    requires
        slashes(s) <= 2,
    ensures
        !text::contains_text(s, grammar::marker(tool)),
{
    lemma_marker(tool);
    lemma_too_few(s, grammar::marker(tool));
}

/// Every symbol is written with at most two backslashes.
spec fn tame(alt: Seq<Symbol>) -> bool {
    forall|m: int| 0 <= m < alt.len() ==> slashes(grammar::symbol_text(#[trigger] alt[m])) <= 2
}

spec fn all_tame(alts: Seq<Seq<Symbol>>) -> bool {
    forall|k: int| 0 <= k < alts.len() ==> tame(#[trigger] alts[k])
}

proof fn lemma_open_string_tame(prefix: Seq<char>)
    requires
        slashes(grammar::escape(prefix)) <= 2,
    ensures
        tame(grammar::open_string(prefix)),
{
    let q = seq!['"'];
    let none = Seq::<char>::empty();
    lemma_literal_slashes(prefix);
    lemma_literal_slashes(q);
    lemma_quoted_slashes(none, none);
    assert(none + q + none =~= q);
    assert(slashes(grammar::escape(q)) == 1) by {
        assert(grammar::escape(none) =~= none);
    }
    reveal_strlit("char*");
    lemma_no_slashes("char*"@);
}

/// A quote and a text that may be embedded have one backslash when escaped.
proof fn lemma_opened_slashes(item: Seq<char>)
    requires
        grammar::embeddable(item),
    ensures
        slashes(grammar::escape(seq!['"'] + item)) == 1,
{
    let none = Seq::<char>::empty();
    lemma_quoted_slashes(none, item);
    lemma_plain_slashes(item);
    assert(none + seq!['"'] + item =~= seq!['"'] + item);
}

proof fn lemma_roots_tame(roots: Seq<Seq<char>>)
    requires
        grammar::first_hostile(roots, 0) is None,
    ensures
        all_tame(grammar::root_alternatives(roots)),
{
    let alts = grammar::root_alternatives(roots);
    language::lemma_root_alternatives(roots);
    grammar::lemma_first_hostile(roots, 0);
    assert forall|k: int| 0 <= k < alts.len() implies tame(#[trigger] alts[k]) by {
        lemma_opened_slashes(roots[k]);
        lemma_open_string_tame(seq!['"'] + roots[k]);
    }
}

proof fn lemma_commands_tame(allow: Seq<Seq<char>>)
    requires
        grammar::first_hostile(allow, 0) is None,
    ensures
        all_tame(grammar::command_alternatives(allow)),
{
    let alts = grammar::command_alternatives(allow);
    let q = seq!['"'];
    let none = Seq::<char>::empty();
    language::lemma_command_alternatives(allow);
    grammar::lemma_first_hostile(allow, 0);
    assert forall|k: int| 0 <= k < alts.len() implies tame(#[trigger] alts[k]) by {
        let i = k / 2;
        let a = allow[i];
        if k == 2 * i {
            let whole = q + a + q;
            lemma_quoted_slashes(none, a + q);
            assert(none + q + (a + q) =~= whole);
            lemma_quoted_slashes(a, none);
            assert(a + q + none =~= a + q);
            lemma_plain_slashes(none);
            lemma_literal_slashes(whole);
            assert(alts[k] == seq![Symbol::Text(whole)]);
        } else {
            let rest = a + seq![' '];
            assert(grammar::embeddable(rest));
            lemma_opened_slashes(rest);
            assert(q + rest =~= q + a + seq![' ']);
            lemma_open_string_tame(q + a + seq![' ']);
            assert(k == 2 * i + 1);
        }
    }
}

proof fn lemma_hosts_tame(hosts: Seq<Seq<char>>)
    requires
        grammar::first_hostile(hosts, 0) is None,
    ensures
        all_tame(grammar::host_alternatives(hosts)),
{
    let alts = grammar::host_alternatives(hosts);
    let q = seq!['"'];
    language::lemma_host_alternatives(hosts);
    grammar::lemma_first_hostile(hosts, 0);
    reveal_strlit("\"http://");
    reveal_strlit("\"https://");
    let plain = seq!['h', 't', 't', 'p', ':', '/', '/'];
    let secure = seq!['h', 't', 't', 'p', 's', ':', '/', '/'];
    assert("\"http://"@ =~= q + plain);
    assert("\"https://"@ =~= q + secure);
    assert(grammar::embeddable(plain));
    assert(grammar::embeddable(secure));
    assert forall|k: int| 0 <= k < alts.len() implies tame(#[trigger] alts[k]) by {
        let i = k / 2;
        let h = hosts[i];
        let scheme = if k == 2 * i {
            plain
        } else {
            secure
        };
        let rest = scheme + h + seq!['/'];
        assert(grammar::embeddable(rest));
        lemma_opened_slashes(rest);
        assert(q + rest =~= q + scheme + h + seq!['/']);
        lemma_open_string_tame(q + scheme + h + seq!['/']);
        assert(k == 2 * i || k == 2 * i + 1);
    }
}

proof fn lemma_digits_tame(max: nat)
    ensures
        all_tame(grammar::digit_counts(max)),
{
    language::lemma_digit_counts(max);
    reveal_strlit("[0-9]");
    lemma_no_slashes("[0-9]"@);
}

proof fn lemma_value_tame(permit: Permit, arg: ArgSpec)
    requires
        grammar::value_failure(permit, arg) is None,
        grammar::own_alternatives(permit, arg) is Some,
    ensures
        all_tame(grammar::own_alternatives(permit, arg)->0),
{
    match arg.kind {
        ArgKind::Path => {
            lemma_roots_tame(text::texts(permit.path_roots@));
        },
        ArgKind::Shell => {
            lemma_commands_tame(text::texts(permit.argv0_allow@));
        },
        ArgKind::Url => {
            lemma_hosts_tame(text::texts(permit.host_allow@));
        },
        ArgKind::Text => {},
        ArgKind::Int => {
            lemma_digits_tame(grammar::max_digits(permit, arg));
        },
    }
}

/// An alternative holds a marker exactly if one of its symbols does.
proof fn lemma_alternative(alt: Seq<Symbol>, tool: Tool)
    ensures
        text::contains_text(grammar::alternative_text(alt), grammar::marker(tool)) <==> exists|m: int|
            0 <= m < alt.len() && text::contains_text(
                grammar::symbol_text(#[trigger] alt[m]),
                grammar::marker(tool),
            ),
{
    let needle = grammar::marker(tool);
    let parts = grammar::symbol_texts(alt);
    lemma_marker(tool);
    reveal_strlit(" ");
    assert(" "@ =~= seq![' ']);
    lemma_joined(parts, " "@, ' ', None, needle);
    if exists|m: int| 0 <= m < parts.len() && text::contains_text(#[trigger] parts[m], needle) {
        let m = choose|m: int|
            0 <= m < parts.len() && text::contains_text(#[trigger] parts[m], needle);
        assert(parts[m] == grammar::symbol_text(alt[m]));
    }
    if exists|m: int|
        0 <= m < alt.len() && text::contains_text(grammar::symbol_text(#[trigger] alt[m]), needle) {
        let m = choose|m: int|
            0 <= m < alt.len() && text::contains_text(
                grammar::symbol_text(#[trigger] alt[m]),
                needle,
            );
        assert(parts[m] == grammar::symbol_text(alt[m]));
    }
}

/// Texts without a marker, joined as alternatives, hold none.
proof fn lemma_joined_unmarked(parts: Seq<Seq<char>>, tool: Tool)
    requires
        forall|k: int|
            0 <= k < parts.len() ==> !text::contains_text(
                #[trigger] parts[k],
                grammar::marker(tool),
            ),
    ensures
        !text::contains_text(text::join(parts, " | "@), grammar::marker(tool)),
{
    let bar = seq!['|'];
    lemma_marker(tool);
    reveal_strlit(" | ");
    assert(" | "@ =~= seq![' '] + bar + seq![' ']);
    lemma_no_slashes(bar);
    lemma_unmarked(bar, tool);
    lemma_joined(parts, " | "@, ' ', Some(bar), grammar::marker(tool));
}

proof fn lemma_alternatives_unmarked(alts: Seq<Seq<Symbol>>, tool: Tool)
    requires
        all_tame(alts),
    ensures
        !text::contains_text(grammar::alternatives_text(alts), grammar::marker(tool)),
{
    let needle = grammar::marker(tool);
    let parts = grammar::alternative_texts(alts);
    assert forall|k: int| 0 <= k < parts.len() implies !text::contains_text(
        #[trigger] parts[k],
        needle,
    ) by {
        let alt = alts[k];
        assert(tame(alt));
        lemma_alternative(alt, tool);
        assert forall|m: int| 0 <= m < alt.len() implies !text::contains_text(
            grammar::symbol_text(#[trigger] alt[m]),
            needle,
        ) by {
            lemma_unmarked(grammar::symbol_text(alt[m]), tool);
        }
    }
    lemma_joined_unmarked(parts, tool);
}

/// A rule holds a marker exactly if its right side does.
proof fn lemma_rule(name: Seq<char>, right: Seq<char>, tool: Tool)
    requires
        slashes(name) == 0,
    ensures
        text::contains_text(name + " ::= "@ + right, grammar::marker(tool)) <==> text::contains_text(
            right,
            grammar::marker(tool),
        ),
{
    let needle = grammar::marker(tool);
    let is = seq![':', ':', '='];
    lemma_marker(tool);
    lemma_no_slashes(is);
    lemma_unmarked(is, tool);
    lemma_unmarked(name, tool);
    reveal_strlit(" ::= ");
    lemma_sides(is, ' ', right, needle);
    lemma_sides(name, ' ', is.push(' ') + right, needle);
    assert(name + " ::= "@ + right =~= name.push(' ') + (is.push(' ') + right));
}

proof fn lemma_decimal_slashes(n: nat)
    ensures
        free_of(text::decimal(n), '\\'),
{
    language::lemma_decimal_digits(n);
    let s = text::decimal(n);
    assert forall|i: int| 0 <= i < s.len() implies #[trigger] s[i] != '\\' by {
        assert(language::is_digit(s[i]));
    }
}

proof fn lemma_rule_name_slashes(i: nat, arg: ArgSpec)
    requires
        is_name(arg.name@),
    ensures
        slashes(grammar::rule_name(i, arg)) == 0,
{
    let name = grammar::rule_name(i, arg);
    let d = text::decimal(i);
    reveal_strlit("a");
    reveal_strlit("-");
    lemma_decimal_slashes(i);
    assert forall|k: int| 0 <= k < name.len() implies #[trigger] name[k] != '\\' by {
        if 1 <= k < 1 + d.len() {
            assert(d[k - 1] != '\\');
        } else if k > 1 + d.len() {
            assert(name_char(arg.name@[k - d.len() - 2]));
        }
    }
    lemma_no_slashes(name);
}

proof fn lemma_action_name_slashes(i: nat)
    ensures
        slashes(grammar::action_rule_name(i)) == 0,
{
    let name = grammar::action_rule_name(i);
    let d = text::decimal(i);
    reveal_strlit("act-");
    lemma_decimal_slashes(i);
    assert forall|k: int| 0 <= k < name.len() implies #[trigger] name[k] != '\\' by {
        if k >= 4 {
            assert(d[k - 4] != '\\');
        }
    }
    lemma_no_slashes(name);
}

/// The rules of values hold no marker.
proof fn lemma_permit_values_unmarked(i: nat, permit: Permit, n: int, tool: Tool)
    requires
        0 <= n <= permit.tool.declared().len(),
        forall|k: int|
            0 <= k < n ==> grammar::value_failure(
                permit,
                #[trigger] permit.tool.declared()[k],
            ) is None,
    ensures
        forall|k: int|
            0 <= k < grammar::permit_value_rules(i, permit, n).len() ==> !text::contains_text(
                #[trigger] grammar::permit_value_rules(i, permit, n)[k],
                grammar::marker(tool),
            ),
    decreases n,
{
    if n > 0 {
        lemma_permit_values_unmarked(i, permit, n - 1, tool);
        let arg = permit.tool.declared()[n - 1];
        lemma_arg_name(permit.tool, n - 1);
        if grammar::own_alternatives(permit, arg) is Some {
            let alts = grammar::own_alternatives(permit, arg)->0;
            lemma_value_tame(permit, arg);
            lemma_alternatives_unmarked(alts, tool);
            lemma_rule_name_slashes(i, arg);
            lemma_rule(grammar::rule_name(i, arg), grammar::alternatives_text(alts), tool);
        }
        let before = grammar::permit_value_rules(i, permit, n - 1);
        let rules = grammar::permit_value_rules(i, permit, n);
        assert forall|k: int| 0 <= k < rules.len() implies !text::contains_text(
            #[trigger] rules[k],
            grammar::marker(tool),
        ) by {
            if k < before.len() {
                assert(rules[k] == before[k]);
            }
        }
    }
}

proof fn lemma_values_unmarked(permits: Seq<Permit>, n: int, tool: Tool)
    requires
        0 <= n <= permits.len(),
        grammar::failure(permits, 0) is None,
    ensures
        forall|k: int|
            0 <= k < grammar::value_rules(permits, n).len() ==> !text::contains_text(
                #[trigger] grammar::value_rules(permits, n)[k],
                grammar::marker(tool),
            ),
    decreases n,
{
    if n > 0 {
        lemma_values_unmarked(permits, n - 1, tool);
        grammar::lemma_failure(permits, 0);
        let permit = permits[n - 1];
        grammar::lemma_permit_failure(permit, 0);
        lemma_permit_values_unmarked(
            (n - 1) as nat,
            permit,
            permit.tool.declared().len() as int,
            tool,
        );
        let before = grammar::value_rules(permits, n - 1);
        let more = grammar::permit_value_rules(
            (n - 1) as nat,
            permit,
            permit.tool.declared().len() as int,
        );
        assert forall|k: int| 0 <= k < (before + more).len() implies !text::contains_text(
            #[trigger] (before + more)[k],
            grammar::marker(tool),
        ) by {
            if k < before.len() {
                assert((before + more)[k] == before[k]);
            } else {
                assert((before + more)[k] == more[k - before.len()]);
            }
        }
    }
}

// ---- the whole grammar --------------------------------------------------
/// A later fixed text holds no marker.
proof fn lemma_later_lead(tool: Tool, j: int, other: Tool)
    requires
        0 < j < tool.declared().len(),
    ensures
        !text::contains_text(
            grammar::literal_text(grammar::lead(tool, j)),
            grammar::marker(other),
        ),
{
    let key = tool.declared()[j].name@;
    let q = seq!['"'];
    let none = Seq::<char>::empty();
    let t = q + key + q + seq![':'];
    lemma_arg_name(tool, j);
    assert(grammar::lead(tool, j) =~= seq![','] + t) by {
        reveal_strlit(",");
        reveal_strlit("\"");
        reveal_strlit("\":");
    }
    lemma_escaped_key(key, none);
    assert(t + none =~= t);
    assert(escaped_key(key) + grammar::escape(none) =~= escaped_key(key));
    lemma_escape_concat(seq![','], t);
    lemma_plain_slashes(seq![',']);
    lemma_key_slashes(key);
    lemma_slashes_concat(grammar::escape(seq![',']), grammar::escape(t));
    lemma_literal_slashes(grammar::lead(tool, j));
    lemma_unmarked(grammar::literal_text(grammar::lead(tool, j)), other);
}

/// A value's symbol holds no marker.
proof fn lemma_value_symbol(i: nat, permit: Permit, j: int, other: Tool)
    requires
        0 <= j < permit.tool.declared().len(),
    ensures
        !text::contains_text(
            grammar::symbol_text(grammar::value_symbol(i, permit, permit.tool.declared()[j])),
            grammar::marker(other),
        ),
{
    lemma_arg_name(permit.tool, j);
    lemma_rule_name_slashes(i, permit.tool.declared()[j]);
    lemma_unmarked(grammar::rule_name(i, permit.tool.declared()[j]), other);
    reveal_strlit("freestr");
    lemma_no_slashes("freestr"@);
    lemma_unmarked("freestr"@, other);
}

/// The closing text holds no marker.
proof fn lemma_closing(tool: Tool, other: Tool)
    ensures
        !text::contains_text(grammar::literal_text(grammar::closing(tool)), grammar::marker(other)),
{
    reveal_strlit("}}");
    assert(grammar::closing(tool) =~= seq!['}', '}']);
    lemma_plain_slashes(seq!['}', '}']);
    lemma_literal_slashes(grammar::closing(tool));
    lemma_unmarked(grammar::literal_text(grammar::closing(tool)), other);
}

/// The rule of a permit holds the marker of the permit's tool alone.
proof fn lemma_action_rule(i: nat, permit: Permit, other: Tool)
    ensures
        text::contains_text(grammar::action_rule(i, permit), grammar::marker(other)) <==> permit.tool
            == other,
{
    let needle = grammar::marker(other);
    let n = permit.tool.declared().len() as int;
    let alt = grammar::action_alternative(i, permit);
    let syms = grammar::action_symbols(i, permit, n);
    grammar::lemma_action_symbols(i, permit, n);
    lemma_alternative(alt, other);
    lemma_first_lead(permit.tool, other);
    lemma_action_name_slashes(i);
    lemma_rule(grammar::action_rule_name(i), grammar::alternative_text(alt), other);
    assert(permit.tool.declared()[0] == permit.tool.declared()[0]);
    assert(alt[0] == syms[0]);
    assert(alt[0] == Symbol::Text(grammar::lead(permit.tool, 0)));
    assert forall|m: int| 0 < m < alt.len() implies !text::contains_text(
        grammar::symbol_text(#[trigger] alt[m]),
        needle,
    ) by {
        if m == 2 * n {
            lemma_closing(permit.tool, other);
        } else {
            let j = m / 2;
            assert(alt[m] == syms[m]);
            assert(permit.tool.declared()[j] == permit.tool.declared()[j]);
            if m == 2 * j {
                lemma_later_lead(permit.tool, j, other);
            } else {
                assert(m == 2 * j + 1);
                lemma_value_symbol(i, permit, j, other);
            }
        }
    }
    if permit.tool == other {
        assert(text::contains_text(grammar::symbol_text(alt[0]), needle));
    }
}

/// The first line of the rules holds no marker and ends a line.
proof fn lemma_root_line(n: nat, tool: Tool)
    ensures
        ({
            let line = "root ::= "@ + text::join(grammar::action_rule_names(n), " | "@) + "\n"@;
            ends_line(line) && !text::contains_text(line, grammar::marker(tool))
        }),
{
    let names = grammar::action_rule_names(n);
    let right = text::join(names, " | "@);
    let root = seq!['r', 'o', 'o', 't'];
    let none = Seq::<char>::empty();
    assert forall|k: int| 0 <= k < names.len() implies !text::contains_text(
        #[trigger] names[k],
        grammar::marker(tool),
    ) by {
        lemma_action_name_slashes(k as nat);
        lemma_unmarked(names[k], tool);
    }
    lemma_joined_unmarked(names, tool);
    lemma_no_slashes(root);
    lemma_rule(root, right, tool);
    lemma_marker(tool);
    lemma_no_slashes(none);
    lemma_unmarked(none, tool);
    lemma_sides(root + " ::= "@ + right, '\n', none, grammar::marker(tool));
    reveal_strlit("root ::= ");
    reveal_strlit(" ::= ");
    reveal_strlit("\n");
    assert("root ::= "@ =~= root + " ::= "@);
    assert((root + " ::= "@ + right).push('\n') + none =~= "root ::= "@ + right + "\n"@);
}

/// The rules for strings hold no marker; the first of them ends a line.
proof fn lemma_string_rules(tool: Tool)
    ensures
        ends_line("freestr ::= \"\\\"\" char* \"\\\"\"\n"@),
        !text::contains_text("freestr ::= \"\\\"\" char* \"\\\"\"\n"@, grammar::marker(tool)),
        !text::contains_text("char ::= [^\"\\\\]\n"@, grammar::marker(tool)),
{
    let b = seq!['\\'];
    let f0 = seq!['f', 'r', 'e', 'e', 's', 't', 'r', ' ', ':', ':', '=', ' ', '"'];
    let f1 = seq!['"', '"', ' ', 'c', 'h', 'a', 'r', '*', ' ', '"'];
    let f2 = seq!['"', '"', '\n'];
    let c0 = seq!['c', 'h', 'a', 'r', ' ', ':', ':', '=', ' ', '[', '^', '"'];
    let c1 = seq![']', '\n'];
    lemma_one_slash();
    lemma_no_slashes(f0);
    lemma_no_slashes(f1);
    lemma_no_slashes(f2);
    lemma_no_slashes(c0);
    lemma_no_slashes(c1);
    reveal_strlit("freestr ::= \"\\\"\" char* \"\\\"\"\n");
    assert("freestr ::= \"\\\"\" char* \"\\\"\"\n"@ =~= f0 + b + f1 + b + f2);
    lemma_slashes_concat(f0, b);
    lemma_slashes_concat(f0 + b, f1);
    lemma_slashes_concat(f0 + b + f1, b);
    lemma_slashes_concat(f0 + b + f1 + b, f2);
    lemma_unmarked("freestr ::= \"\\\"\" char* \"\\\"\"\n"@, tool);
    reveal_strlit("char ::= [^\"\\\\]\n");
    assert("char ::= [^\"\\\\]\n"@ =~= c0 + b + b + c1);
    lemma_slashes_concat(c0, b);
    lemma_slashes_concat(c0 + b, b);
    lemma_slashes_concat(c0 + b + b, c1);
    lemma_unmarked("char ::= [^\"\\\\]\n"@, tool);
}

/// The rules of a grammar hold exactly the markers of the permitted tools.
proof fn lemma_body(permits: Seq<Permit>, tool: Tool)
    requires
        grammar::failure(permits, 0) is None,
    ensures
        text::contains_text(grammar::body(permits), grammar::marker(tool))
            <==> runbook::permits_tool(permits, tool),
{
    let needle = grammar::marker(tool);
    let none = Seq::<char>::empty();
    let root = "root ::= "@ + text::join(grammar::action_rule_names(permits.len()), " | "@)
        + "\n"@;
    let actions = grammar::action_rules(permits, permits.len());
    let values = grammar::value_rules(permits, permits.len() as int);
    let freestr = if exists|i: int|
        0 <= i < permits.len() && grammar::takes_any_string(#[trigger] permits[i]) {
        "freestr ::= \"\\\"\" char* \"\\\"\"\n"@
    } else {
        none
    };
    let chars = if exists|i: int|
        0 <= i < permits.len() && grammar::takes_string(#[trigger] permits[i]) {
        "char ::= [^\"\\\\]\n"@
    } else {
        none
    };
    lemma_marker(tool);
    lemma_root_line(permits.len(), tool);
    lemma_string_rules(tool);
    lemma_values_unmarked(permits, permits.len() as int, tool);
    lemma_lines(actions, needle);
    lemma_lines(values, needle);
    lemma_line_ends(actions);
    lemma_line_ends(values);
    lemma_no_slashes(none);
    lemma_unmarked(none, tool);
    assert(grammar::body(permits) == root + grammar::lines(actions) + grammar::lines(values)
        + freestr + chars);
    let tail3 = freestr + chars;
    let tail2 = grammar::lines(values) + tail3;
    let tail1 = grammar::lines(actions) + tail2;
    assert(root + tail1 =~= grammar::body(permits));
    lemma_after_line(freestr, chars, needle);
    lemma_after_line(grammar::lines(values), tail3, needle);
    lemma_after_line(grammar::lines(actions), tail2, needle);
    lemma_after_line(root, tail1, needle);
    if text::contains_text(grammar::lines(actions), needle) {
        let i = choose|i: int|
            0 <= i < actions.len() && text::contains_text(#[trigger] actions[i], needle);
        lemma_action_rule(i as nat, permits[i], tool);
        assert(permits[i].tool == tool);
    }
    if runbook::permits_tool(permits, tool) {
        let i = choose|i: int| 0 <= i < permits.len() && #[trigger] permits[i].tool == tool;
        lemma_action_rule(i as nat, permits[i], tool);
        assert(text::contains_text(actions[i], needle));
    }
}

// ---- comments and rules -------------------------------------------------
/// Joining undoes splitting.
proof fn lemma_join_split(s: Seq<char>, sep: char)
    ensures
        text::join(text::split(s, sep), seq![sep]) == s,
    decreases s.len(),
{
    if s.len() > 0 {
        let init = s.drop_last();
        let before = text::split(init, sep);
        let all = text::split(s, sep);
        lemma_join_split(init, sep);
        text::lemma_split_nonempty(init, sep);
        if s.last() == sep {
            assert(all.drop_last() =~= before);
            assert(text::join(all, seq![sep]) =~= init + seq![sep]);
            assert(init + seq![sep] =~= s);
        } else {
            assert(all.drop_last() =~= before.drop_last());
            assert(text::join(all, seq![sep]) =~= init + seq![s.last()]);
            assert(init + seq![s.last()] =~= s);
        }
    } else {
        assert(text::split(s, sep) == seq![Seq::<char>::empty()]);
        assert(s =~= Seq::<char>::empty());
    }
}

proof fn lemma_uncommented_concat(a: Seq<Seq<char>>, b: Seq<Seq<char>>)
    ensures
        grammar::uncommented(a + b) == grammar::uncommented(a) + grammar::uncommented(b),
    decreases b.len(),
{
    if b.len() == 0 {
        assert(a + b =~= a);
        assert(grammar::uncommented(a) + grammar::uncommented(b) =~= grammar::uncommented(a));
    } else {
        lemma_uncommented_concat(a, b.drop_last());
        assert((a + b).drop_last() =~= a + b.drop_last());
        assert(grammar::uncommented(a + b) =~= grammar::uncommented(a) + grammar::uncommented(b));
    }
}

proof fn lemma_uncommented_one(line: Seq<char>)
    ensures
        grammar::uncommented(seq![line]) == (if grammar::is_comment(line) {
            Seq::<Seq<char>>::empty()
        } else {
            seq![line]
        }),
{
    let lines = seq![line];
    reveal_with_fuel(grammar::uncommented, 2);
    assert(lines.drop_last() =~= Seq::<Seq<char>>::empty());
    assert(Seq::<Seq<char>>::empty().push(line) =~= lines);
}

/// Every line that is kept is one of the lines.
pub(crate) proof fn lemma_uncommented_from(lines: Seq<Seq<char>>, k: int)
    requires
        0 <= k < grammar::uncommented(lines).len(),
    ensures
        lines.contains(grammar::uncommented(lines)[k]),
    decreases lines.len(),
{
    let init = lines.drop_last();
    let before = grammar::uncommented(init);
    if k < before.len() {
        lemma_uncommented_from(init, k);
        let j = choose|j: int| 0 <= j < init.len() && init[j] == before[k];
        assert(lines[j] == grammar::uncommented(lines)[k]);
    } else {
        assert(lines[lines.len() - 1] == grammar::uncommented(lines)[k]);
    }
}

/// Every line that is no comment is kept.
pub(crate) proof fn lemma_uncommented_keeps(lines: Seq<Seq<char>>, j: int)
    requires
        0 <= j < lines.len(),
        !grammar::is_comment(lines[j]),
    ensures
        grammar::uncommented(lines).contains(lines[j]),
    decreases lines.len(),
{
    let init = lines.drop_last();
    let before = grammar::uncommented(init);
    if j < init.len() {
        lemma_uncommented_keeps(init, j);
        let k = choose|k: int| 0 <= k < before.len() && before[k] == init[j];
        assert(grammar::uncommented(lines)[k] == lines[j]);
    } else {
        assert(grammar::uncommented(lines)[before.len() as int] == lines[j]);
    }
}

/// A comment line before the rest of a text adds nothing to the rules; an empty
/// line adds itself.
proof fn lemma_line_before(line: Seq<char>, rest: Seq<char>)
    requires
        !line.contains('\n'),
    ensures
        grammar::uncommented(text::split(line.push('\n') + rest, '\n')) == (
        if grammar::is_comment(line) {
            Seq::<Seq<char>>::empty()
        } else {
            seq![line]
        }) + grammar::uncommented(text::split(rest, '\n')),
{
    text::lemma_split_concat(line, rest, '\n');
    text::lemma_split_whole(line, '\n');
    lemma_uncommented_concat(seq![line], text::split(rest, '\n'));
    lemma_uncommented_one(line);
}

/// A fixed line of a grammar's head: a comment on one line.
spec fn comment_line(line: Seq<char>) -> bool {
    grammar::is_comment(line) && !line.contains('\n')
}

proof fn lemma_comment_lines()
    ensures
        "# mpodol GBNF — step "@.len() > 0,
        comment_line("# mpodol GBNF — step "@),
        "\n# intent: "@.len() > 1,
        "\n# intent: "@[0] == '\n',
        comment_line("\n# intent: "@.skip(1)),
{
    assert(comment_line("# mpodol GBNF — step "@)) by {
        reveal_strlit("# mpodol GBNF — step ");
    }
    assert("\n# intent: "@.len() > 1 && "\n# intent: "@[0] == '\n' && comment_line(
        "\n# intent: "@.skip(1),
    )) by {
        reveal_strlit("\n# intent: ");
    }
}

/// The fixed lines after the intent, by their texts without line ends.
proof fn lemma_fixed_comments() -> (res: (Seq<char>, Seq<char>, Seq<char>))
    ensures
        comment_line(res.0),
        comment_line(res.1),
        comment_line(res.2),
        "\n# Generated per step. Do not hand-edit; edit the runbook's Permit instead.\n"@ == seq![
            '\n',
        ] + res.0.push('\n'),
        "# No whitespace productions: the model emits one compact JSON object,\n"@ == res.1.push(
            '\n',
        ),
        "# which removes indentation as a source of sampling divergence.\n\n"@ == res.2.push(
            '\n',
        ).push('\n'),
{
    let p2 = "\n# Generated per step. Do not hand-edit; edit the runbook's Permit instead.\n"@;
    let p3 = "# No whitespace productions: the model emits one compact JSON object,\n"@;
    let p4 = "# which removes indentation as a source of sampling divergence.\n\n"@;
    let g = p2.subrange(1, p2.len() - 1);
    let w = p3.drop_last();
    let d = p4.drop_last().drop_last();
    assert(comment_line(g) && p2 =~= seq!['\n'] + g.push('\n')) by {
        reveal_strlit(
            "\n# Generated per step. Do not hand-edit; edit the runbook's Permit instead.\n",
        );
    }
    assert(comment_line(w) && p3 =~= w.push('\n')) by {
        reveal_strlit("# No whitespace productions: the model emits one compact JSON object,\n");
    }
    assert(comment_line(d) && p4 =~= d.push('\n').push('\n')) by {
        reveal_strlit("# which removes indentation as a source of sampling divergence.\n\n");
    }
    (g, w, d)
}

/// A text without the separator in front belongs to the first piece.
proof fn lemma_split_prefix(front: Seq<char>, s: Seq<char>, sep: char)
    requires
        !front.contains(sep),
    ensures
        text::split(front + s, sep) == seq![front + text::split(s, sep)[0]] + text::split(
            s,
            sep,
        ).drop_first(),
    decreases s.len(),
{
    let pieces = text::split(s, sep);
    text::lemma_split_nonempty(s, sep);
    if s.len() == 0 {
        assert(front + s =~= front);
        text::lemma_split_whole(front, sep);
        assert(front + pieces[0] =~= front);
        assert(seq![front] + pieces.drop_first() =~= seq![front]);
    } else {
        let init = s.drop_last();
        let before = text::split(init, sep);
        text::lemma_split_nonempty(init, sep);
        lemma_split_prefix(front, init, sep);
        assert((front + s).drop_last() =~= front + init);
        let longer = seq![front + before[0]] + before.drop_first();
        if s.last() == sep {
            assert(longer.push(Seq::<char>::empty()) =~= seq![front + pieces[0]]
                + pieces.drop_first());
        } else {
            if before.len() == 1 {
                assert((front + before[0]).push(s.last()) =~= front + pieces[0]);
            }
            assert(longer.drop_last().push(longer.last().push(s.last())) =~= seq![front
                + pieces[0]] + pieces.drop_first());
        }
    }
}

/// The lines of an intent that do not stand in a comment: those after the
/// first, unless they are comments themselves.
pub open spec fn stray_lines(intent: Seq<char>) -> Seq<Seq<char>> {
    grammar::uncommented(text::split(intent, '\n').drop_first())
}

/// A line of the intent that does not stand in a comment spells the marker of
/// the tool.
pub open spec fn strays(intent: Seq<char>, tool: Tool) -> bool {
    exists|k: int|
        0 <= k < stray_lines(intent).len() && text::contains_text(
            #[trigger] stray_lines(intent)[k],
            grammar::marker(tool),
        )
}

/// The lines of a grammar's rules: what strays from the intent, an empty line
/// and those of the body.
pub open spec fn rule_lines(intent: Seq<char>, permits: Seq<Permit>) -> Seq<Seq<char>> {
    stray_lines(intent) + (seq![Seq::<char>::empty()] + grammar::uncommented(
        text::split(grammar::body(permits), '\n'),
    ))
}

/// Where the title breaks no line, the lines of a grammar's rules depend on the
/// intent's stray lines and the permits alone.
#[verifier::rlimit(40)]
proof fn lemma_head_is_comment(title: Seq<char>, intent: Seq<char>, permits: Seq<Permit>)
    requires
        !title.contains('\n'),
    ensures
        grammar::uncommented(
            text::split(grammar::header(title, intent) + grammar::body(permits), '\n'),
        ) == rule_lines(intent, permits),
{
    let body = grammar::body(permits);
    let p0 = "# mpodol GBNF — step "@;
    let p1 = "\n# intent: "@;
    let none = Seq::<char>::empty();
    lemma_comment_lines();
    let (g, w, d) = lemma_fixed_comments();
    let h0 = p0 + title;
    let q1 = p1.skip(1);
    let h1 = q1 + intent;
    assert(!h0.contains('\n')) by {
        if h0.contains('\n') {
            let k = choose|k: int| 0 <= k < h0.len() && h0[k] == '\n';
            if k < p0.len() {
                assert(p0[k] == '\n');
            } else {
                assert(title[k - p0.len()] == '\n');
            }
        }
    }
    let t5 = none.push('\n') + body;
    let t4 = d.push('\n') + t5;
    let t3 = w.push('\n') + t4;
    let t2 = g.push('\n') + t3;
    let t1 = h1.push('\n') + t2;
    let t0 = h0.push('\n') + t1;
    let tail = seq![none] + grammar::uncommented(text::split(body, '\n'));
    lemma_line_before(none, body);
    lemma_line_before(d, t5);
    lemma_line_before(w, t4);
    lemma_line_before(g, t3);
    assert(grammar::uncommented(text::split(t2, '\n')) =~= tail);
    let pieces = text::split(intent, '\n');
    let first = q1 + pieces[0];
    lemma_split_prefix(q1, intent, '\n');
    text::lemma_split_concat(h1, t2, '\n');
    lemma_uncommented_concat(text::split(h1, '\n'), text::split(t2, '\n'));
    lemma_uncommented_concat(seq![first], pieces.drop_first());
    lemma_uncommented_one(first);
    assert(first[0] == q1[0]);
    assert(grammar::uncommented(text::split(h1, '\n')) =~= stray_lines(intent));
    assert(grammar::uncommented(text::split(t1, '\n')) =~= stray_lines(intent) + tail);
    lemma_line_before(h0, t1);
    let p2 = seq!['\n'] + g.push('\n');
    let p3 = w.push('\n');
    let p4 = d.push('\n').push('\n');
    assert(p1 =~= seq!['\n'] + q1);
    assert(grammar::header(title, intent) == p0 + title + p1 + intent + p2 + p3 + p4);
    assert(p4 + body =~= t4);
    assert(p3 + (p4 + body) =~= t3);
    assert(p2 + (p3 + (p4 + body)) =~= seq!['\n'] + t2);
    assert(p1 + intent + (seq!['\n'] + t2) =~= seq!['\n'] + t1);
    assert(p0 + title + (seq!['\n'] + t1) =~= t0);
    assert(grammar::header(title, intent) + body =~= p0 + title + (p1 + intent + (p2 + (p3 + (p4
        + body)))));
    assert(grammar::uncommented(text::split(t0, '\n')) =~= stray_lines(intent) + tail);
}

/// The rules of a step's grammar as they are written.
pub open spec fn rules_text(intent: Seq<char>, permits: Seq<Permit>) -> Seq<char> {
    text::join(rule_lines(intent, permits), "\n"@)
}

/// The law of comments: a step's id and intent reach only the comments and the
/// texts of the warnings. Two steps with the same permits, whose intents have
/// the same lines outside the comment (an intent on one line has none), compile
/// or fail alike, to the same rules and as many warnings.
pub proof fn law_id_and_intent_reach_no_rule(
    title1: Seq<char>,
    step1: Step,
    title2: Seq<char>,
    step2: Step,
)
    requires
        step1.permits@ == step2.permits@,
        stray_lines(step1.intent@) == stray_lines(step2.intent@),
        !title1.contains('\n'),
        !title2.contains('\n'),
    ensures
        grammar::compiled(title1, step1) is Ok <==> grammar::compiled(title2, step2) is Ok,
        grammar::compiled(title1, step1) is Ok ==> {
            let one = grammar::compiled(title1, step1)->Ok_0;
            let two = grammar::compiled(title2, step2)->Ok_0;
            &&& grammar::rules_of(one.0) == rules_text(step1.intent@, step1.permits@)
            &&& grammar::rules_of(two.0) == rules_text(step1.intent@, step1.permits@)
            &&& one.1.len() == two.1.len()
        },
{
    let permits = step1.permits@;
    lemma_head_is_comment(title1, step1.intent@, permits);
    lemma_head_is_comment(title2, step2.intent@, permits);
    lemma_warning_count(title1, title2, permits, permits.len() as int);
}

/// An intent on one line has no line outside the comment.
pub proof fn law_one_line_strays_nowhere(intent: Seq<char>)
    requires
        !intent.contains('\n'),
    ensures
        stray_lines(intent).len() == 0,
{
    text::lemma_split_whole(intent, '\n');
    assert(text::split(intent, '\n').drop_first() =~= Seq::<Seq<char>>::empty());
}

/// An intent that does not hold the word `tool` spells no marker.
pub proof fn law_intent_without_the_word_strays_nowhere(intent: Seq<char>, tool: Tool)
    requires
        !text::contains_text(intent, "tool"@),
    ensures
        !strays(intent, tool),
{
    let needle = grammar::marker(tool);
    let word = "tool"@;
    let pieces = text::split(intent, '\n');
    if strays(intent, tool) {
        let k = choose|k: int|
            0 <= k < stray_lines(intent).len() && text::contains_text(
                #[trigger] stray_lines(intent)[k],
                needle,
            );
        let line = stray_lines(intent)[k];
        lemma_uncommented_from(pieces.drop_first(), k);
        let j = choose|j: int| 0 <= j < pieces.drop_first().len() && pieces.drop_first()[j] == line;
        assert(pieces[j + 1] == line);
        lemma_marker(tool);
        let at = choose|at: int| #[trigger] text::occurs_at(line, needle, at);
        reveal(marker_head);
        reveal_strlit("tool");
        assert forall|i: int| 0 <= i < 4 implies line[at + 2 + i] == #[trigger] word[i] by {
            lemma_occurs_char(line, needle, at, 2 + i);
            assert(needle[2 + i] == marker_head()[2 + i]);
        }
        assert(line.subrange(at + 2, at + 2 + word.len()) =~= word);
        assert(text::occurs_at(line, word, at + 2));
        assert(text::contains_text(pieces[j + 1], word));
        lemma_joined(pieces, seq!['\n'], '\n', None, word);
        lemma_join_split(intent, '\n');
    }
}

proof fn lemma_permit_warning_count(
    title1: Seq<char>,
    title2: Seq<char>,
    permit: Permit,
    n: int,
)
    ensures
        grammar::permit_warnings(title1, permit, n).len() == grammar::permit_warnings(
            title2,
            permit,
            n,
        ).len(),
    decreases n,
{
    if n > 0 {
        lemma_permit_warning_count(title1, title2, permit, n - 1);
    }
}

proof fn lemma_warning_count(title1: Seq<char>, title2: Seq<char>, permits: Seq<Permit>, n: int)
    ensures
        grammar::warnings(title1, permits, n).len() == grammar::warnings(title2, permits, n).len(),
    decreases n,
{
    if n > 0 {
        lemma_warning_count(title1, title2, permits, n - 1);
        lemma_permit_warning_count(
            title1,
            title2,
            permits[n - 1],
            permits[n - 1].tool.declared().len() as int,
        );
    }
}

/// Escaping leaves no line break.
pub(crate) proof fn lemma_escape_unbroken(s: Seq<char>)
    ensures
        free_of(grammar::escape(s), '\n'),
    decreases s.len(),
{
    if s.len() > 0 {
        lemma_escape_unbroken(s.drop_last());
    }
}

pub(crate) proof fn lemma_join_unbroken(parts: Seq<Seq<char>>, sep: Seq<char>)
    requires
        free_of(sep, '\n'),
        forall|i: int| 0 <= i < parts.len() ==> free_of(#[trigger] parts[i], '\n'),
    ensures
        free_of(text::join(parts, sep), '\n'),
    decreases parts.len(),
{
    if parts.len() > 1 {
        let init = parts.drop_last();
        assert forall|i: int| 0 <= i < init.len() implies free_of(#[trigger] init[i], '\n') by {
            assert(init[i] == parts[i]);
        }
        lemma_join_unbroken(init, sep);
        assert(free_of(parts[parts.len() - 1], '\n'));
    } else if parts.len() == 1 {
        assert(free_of(parts[0], '\n'));
    }
}

pub(crate) proof fn lemma_decimal_unbroken(n: nat)
    ensures
        free_of(text::decimal(n), '\n'),
{
    language::lemma_decimal_digits(n);
    let s = text::decimal(n);
    assert forall|i: int| 0 <= i < s.len() implies #[trigger] s[i] != '\n' by {
        assert(language::is_digit(s[i]));
    }
}

/// The rule of a permit is one line, and no comment.
pub(crate) proof fn lemma_action_rule_line(i: nat, permit: Permit)
    ensures
        free_of(grammar::action_rule(i, permit), '\n'),
        !grammar::is_comment(grammar::action_rule(i, permit)),
{
    let n = permit.tool.declared().len() as int;
    let alt = grammar::action_alternative(i, permit);
    let syms = grammar::action_symbols(i, permit, n);
    let parts = grammar::symbol_texts(alt);
    grammar::lemma_action_symbols(i, permit, n);
    lemma_decimal_unbroken(i);
    assert forall|m: int| 0 <= m < parts.len() implies free_of(#[trigger] parts[m], '\n') by {
        if m == 2 * n {
            lemma_escape_unbroken(grammar::closing(permit.tool));
        } else {
            let j = m / 2;
            assert(alt[m] == syms[m]);
            let arg = permit.tool.declared()[j];
            assert(arg == permit.tool.declared()[j]);
            if m == 2 * j {
                lemma_escape_unbroken(grammar::lead(permit.tool, j));
            } else {
                assert(m == 2 * j + 1);
                lemma_arg_name(permit.tool, j);
                reveal_strlit("freestr");
                reveal_strlit("a");
                reveal_strlit("-");
                let name = grammar::rule_name(i, arg);
                let d = text::decimal(i);
                assert forall|k: int| 0 <= k < name.len() implies #[trigger] name[k] != '\n' by {
                    if 1 <= k < 1 + d.len() {
                        assert(d[k - 1] != '\n');
                    } else if k > 1 + d.len() {
                        assert(name_char(arg.name@[k - d.len() - 2]));
                    }
                }
            }
        }
    }
    reveal_strlit(" ");
    lemma_join_unbroken(parts, " "@);
    reveal_strlit("act-");
    reveal_strlit(" ::= ");
    let right = grammar::alternative_text(alt);
    let name = grammar::action_rule_name(i);
    let d = text::decimal(i);
    assert forall|k: int| 0 <= k < name.len() implies #[trigger] name[k] != '\n' by {
        if k >= 4 {
            assert(d[k - 4] != '\n');
        }
    }
    let rule = grammar::action_rule(i, permit);
    assert(rule == name + " ::= "@ + right);
    assert(rule[0] == 'a');
}

/// Lines that hold no line break are the pieces of a text that begins with
/// them.
pub(crate) proof fn lemma_lines_pieces(rules: Seq<Seq<char>>, tail: Seq<char>)
    requires
        forall|i: int| 0 <= i < rules.len() ==> free_of(#[trigger] rules[i], '\n'),
    ensures
        text::split(grammar::lines(rules) + tail, '\n') == rules + text::split(tail, '\n'),
    decreases rules.len(),
{
    if rules.len() == 0 {
        assert(grammar::lines(rules) + tail =~= tail);
        assert(rules + text::split(tail, '\n') =~= text::split(tail, '\n'));
    } else {
        let init = rules.drop_last();
        let last = rules.last();
        assert forall|i: int| 0 <= i < init.len() implies free_of(#[trigger] init[i], '\n') by {
            assert(init[i] == rules[i]);
        }
        assert(free_of(rules[rules.len() - 1], '\n'));
        reveal_strlit("\n");
        let more = last.push('\n') + tail;
        lemma_lines_pieces(init, more);
        text::lemma_split_concat(last, tail, '\n');
        text::lemma_split_whole(last, '\n');
        assert(grammar::lines(rules) + tail =~= grammar::lines(init) + more);
        assert(init + (seq![last] + text::split(tail, '\n')) =~= rules + text::split(tail, '\n'));
    }
}

/// The rule of each permit is a line of the body.
proof fn lemma_action_rule_stands(permits: Seq<Permit>, i: int)
    requires
        0 <= i < permits.len(),
    ensures
        text::split(grammar::body(permits), '\n').contains(
            grammar::action_rule(i as nat, permits[i]),
        ),
{
    let root = "root ::= "@ + text::join(grammar::action_rule_names(permits.len()), " | "@);
    let actions = grammar::action_rules(permits, permits.len());
    let body = grammar::body(permits);
    assert forall|k: int| 0 <= k < actions.len() implies free_of(#[trigger] actions[k], '\n') by {
        lemma_action_rule_line(k as nat, permits[k]);
    }
    reveal_strlit("\n");
    let front = root.push('\n') + grammar::lines(actions);
    assert(root + "\n"@ =~= root.push('\n'));
    let rest = body.skip(front.len() as int);
    assert(body =~= front + rest);
    lemma_lines_pieces(actions, rest);
    text::lemma_split_concat(root, grammar::lines(actions) + rest, '\n');
    assert(body =~= root.push('\n') + (grammar::lines(actions) + rest));
    let pieces = text::split(body, '\n');
    let n = text::split(root, '\n').len();
    assert(pieces[n + i] == actions[i]);
}

/// The law of scope: the rules of a compiled grammar hold the marker of a tool
/// exactly if the step permits the tool, or a line of its intent spells the
/// marker out and does not stand in a comment.
pub proof fn law_grammar_is_step_scoped(title: Seq<char>, step: Step, tool: Tool)
    requires
        grammar::compiled(title, step) is Ok,
        !title.contains('\n'),
    ensures
        text::contains_text(
            grammar::rules_of(grammar::compiled(title, step)->Ok_0.0),
            grammar::marker(tool),
        ) <==> runbook::permits_tool(step.permits@, tool) || strays(step.intent@, tool),
{
    let needle = grammar::marker(tool);
    let permits = step.permits@;
    let body = grammar::body(permits);
    let none = Seq::<char>::empty();
    let pieces = text::split(body, '\n');
    let kept = grammar::uncommented(pieces);
    let stray = stray_lines(step.intent@);
    let all = rule_lines(step.intent@, permits);
    let n = stray.len();
    lemma_marker(tool);
    lemma_head_is_comment(title, step.intent@, permits);
    reveal_strlit("\n");
    assert("\n"@ =~= seq!['\n']);
    lemma_joined(all, "\n"@, '\n', None, needle);
    lemma_body(permits, tool);
    lemma_join_split(body, '\n');
    lemma_joined(pieces, seq!['\n'], '\n', None, needle);
    assert(!text::contains_text(none, needle));
    if exists|k: int| 0 <= k < all.len() && text::contains_text(#[trigger] all[k], needle) {
        let k = choose|k: int| 0 <= k < all.len() && text::contains_text(#[trigger] all[k], needle);
        if k < n {
            assert(all[k] == stray[k]);
        } else {
            assert(all[k] == (seq![none] + kept)[k - n]);
            assert(all[k] == kept[k - n - 1]);
            lemma_uncommented_from(pieces, k - n - 1);
            let j = choose|j: int| 0 <= j < pieces.len() && pieces[j] == kept[k - n - 1];
            assert(text::contains_text(pieces[j], needle));
        }
    }
    if strays(step.intent@, tool) {
        let k = choose|k: int|
            0 <= k < stray.len() && text::contains_text(#[trigger] stray[k], needle);
        assert(all[k] == stray[k]);
    }
    if runbook::permits_tool(permits, tool) {
        let i = choose|i: int| 0 <= i < permits.len() && #[trigger] permits[i].tool == tool;
        let rule = grammar::action_rule(i as nat, permits[i]);
        lemma_action_rule(i as nat, permits[i], tool);
        lemma_action_rule_line(i as nat, permits[i]);
        lemma_action_rule_stands(permits, i);
        let j = choose|j: int| 0 <= j < pieces.len() && pieces[j] == rule;
        lemma_uncommented_keeps(pieces, j);
        let k = choose|k: int| 0 <= k < kept.len() && kept[k] == rule;
        assert(all[n + k + 1] == (seq![none] + kept)[k + 1]);
        assert(all[n + k + 1] == rule);
    }
}

pub(crate) proof fn lemma_spelled(gbnf: Seq<char>, n: int, tool: Tool)
    requires
        0 <= n <= Tool::vocabulary().len(),
    ensures
        grammar::spelled(gbnf, n).contains(tool) <==> text::contains_text(
            grammar::rules_of(gbnf),
            grammar::marker(tool),
        ) && exists|k: int| 0 <= k < n && #[trigger] Tool::vocabulary()[k] == tool,
    decreases n,
{
    if n > 0 {
        lemma_spelled(gbnf, n - 1, tool);
        let before = grammar::spelled(gbnf, n - 1);
        let last = Tool::vocabulary()[n - 1];
        if before.contains(tool) {
            let i = choose|i: int| 0 <= i < before.len() && before[i] == tool;
            assert(before.push(last)[i] == tool);
        }
        if before.push(last).contains(tool) && !before.contains(tool) {
            let i = choose|i: int| 0 <= i < before.push(last).len() && before.push(last)[i] == tool;
            if i < before.len() {
                assert(before[i] == tool);
            }
        }
        if last == tool {
            assert(before.push(last)[before.len() as int] == tool);
        }
    }
}

/// The law of spelling: the tools that a compiled grammar can spell are those
/// that the step permits, unless a line of the intent spells the tool's marker
/// out and does not stand in a comment.
pub proof fn law_spellable_is_permitted(title: Seq<char>, step: Step, tool: Tool)
    requires
        grammar::compiled(title, step) is Ok,
        !title.contains('\n'),
        !strays(step.intent@, tool),
    ensures
        grammar::spelled(
            grammar::compiled(title, step)->Ok_0.0,
            Tool::vocabulary().len() as int,
        ).contains(tool) <==> runbook::permits_tool(step.permits@, tool),
{
    law_grammar_is_step_scoped(title, step, tool);
    let gbnf = grammar::compiled(title, step)->Ok_0.0;
    lemma_spelled(gbnf, Tool::vocabulary().len() as int, tool);
    let all = Tool::vocabulary();
    assert(all[0] == Tool::FileRead && all[1] == Tool::FileWrite && all[2] == Tool::FileEdit
        && all[3] == Tool::ShellExec && all[4] == Tool::Search && all[5] == Tool::HttpFetch);
}

/// The permitted tools among the first `n` of the vocabulary, each once and in
/// that order.
pub open spec fn permitted_tools(permits: Seq<Permit>, n: int) -> Seq<Tool>
    decreases n,
{
    if n <= 0 {
        Seq::<Tool>::empty()
    } else {
        let before = permitted_tools(permits, n - 1);
        let tool = Tool::vocabulary()[n - 1];
        if runbook::permits_tool(permits, tool) {
            before.push(tool)
        } else {
            before
        }
    }
}

/// No tool's marker stands in a line of the intent outside the comment.
pub open spec fn quiet(intent: Seq<char>) -> bool {
    forall|tool: Tool| !#[trigger] strays(intent, tool)
}

/// The law of the vocabulary's order: whatever the order or repetition of a
/// step's permits, the tools that its grammar can spell are the permitted ones,
/// each once, in the order of the vocabulary.
pub proof fn law_spellable_in_vocabulary_order(title: Seq<char>, step: Step, n: int)
    requires
        grammar::compiled(title, step) is Ok,
        !title.contains('\n'),
        quiet(step.intent@),
    ensures
        grammar::spelled(grammar::compiled(title, step)->Ok_0.0, n) == permitted_tools(
            step.permits@,
            n,
        ),
    decreases n,
{
    if n > 0 {
        law_spellable_in_vocabulary_order(title, step, n - 1);
        let tool = Tool::vocabulary()[n - 1];
        assert(!strays(step.intent@, tool));
        law_grammar_is_step_scoped(title, step, tool);
    }
}

} // verus!
