//! What validation answers, stated over how values and runbooks are written.

use crate::action;
use crate::action::{ArgKind, ArgSpec, ArgValue, Tool};
use crate::path;
use crate::reject;
use crate::runbook;
use crate::runbook::{Permit, Runbook};
use crate::text;
use crate::validate;
use vstd::prelude::*;
use vstd::string::*;

verus! {

// ---- structure ----------------------------------------------------------
/// A control character: below the space, or from delete to the last of the C1
/// controls.
pub open spec fn unprintable(c: char) -> bool {
    c < ' ' || '\u{7f}' <= c <= '\u{9f}'
}

/// A declared argument is there with a value of its type and, where that is a
/// string, without control characters.
pub open spec fn sound(entries: Seq<(Seq<char>, ArgValue)>, arg: ArgSpec) -> bool {
    match action::lookup(entries, arg.name@) {
        Some(ArgValue::Int(_)) => arg.kind == ArgKind::Int,
        Some(ArgValue::Str(s)) => arg.kind != ArgKind::Int && forall|i: int|
            0 <= i < s@.len() ==> !unprintable(#[trigger] s@[i]),
        None => false,
    }
}

proof fn lemma_unprintable(c: char)
    ensures
        text::is_control(c) <==> unprintable(c),
{
    text::law_control_characters(c);
}

proof fn lemma_sound(tool: Tool, entries: Seq<(Seq<char>, ArgValue)>, arg: ArgSpec)
    requires
        sound(entries, arg),
    ensures
        validate::declared_fault(tool, entries, arg) is None,
{
    if let Some(ArgValue::Str(s)) = action::lookup(entries, arg.name@) {
        text::lemma_first_where_meaning(s@, text::control());
        let at = text::first_where(s@, text::control());
        if at < s@.len() {
            lemma_unprintable(s@[at as int]);
        }
    }
}

/// Sound arguments are passed over.
proof fn lemma_sound_passed(tool: Tool, entries: Seq<(Seq<char>, ArgValue)>, j: int, k: int)
    requires
        0 <= j <= k <= tool.declared().len(),
        forall|i: int| j <= i < k ==> sound(entries, #[trigger] tool.declared()[i]),
    ensures
        validate::declared_faults(tool, entries, j) == validate::declared_faults(tool, entries, k),
    decreases k - j,
{
    if j < k {
        lemma_sound(tool, entries, tool.declared()[j]);
        lemma_sound_passed(tool, entries, j + 1, k);
    }
}

/// The law of the first faulty argument: of the declared arguments, in order,
/// the first that is not sound is the one that is answered, as missing, as
/// wrongly typed, or with its first control character.
pub proof fn law_first_unsound_argument_is_answered(
    tool: Tool,
    entries: Seq<(Seq<char>, ArgValue)>,
    k: int,
)
    requires
        0 <= k < tool.declared().len(),
        forall|i: int| 0 <= i < k ==> sound(entries, #[trigger] tool.declared()[i]),
        !sound(entries, tool.declared()[k]),
    ensures
        ({
            let arg = tool.declared()[k];
            let found = validate::syntactic_fault(tool, entries);
            match action::lookup(entries, arg.name@) {
                None => found == Some(
                    reject::missing_arg_view(
                        tool.name(),
                        arg.name@,
                        validate::arg_names_text(tool),
                    ),
                ),
                Some(ArgValue::Int(_)) => found == Some(
                    reject::arg_type_view(tool.name(), arg.name@, false),
                ),
                Some(ArgValue::Str(s)) => if arg.kind == ArgKind::Int {
                    found == Some(reject::arg_type_view(tool.name(), arg.name@, true))
                } else {
                    exists|at: int| {
                        &&& 0 <= at < s@.len()
                        &&& unprintable(s@[at])
                        &&& forall|i: int| 0 <= i < at ==> !unprintable(#[trigger] s@[i])
                        &&& found == Some(
                            #[trigger] reject::control_character_view(arg.name@, s@[at]),
                        )
                    }
                },
            }
        }),
{
    let arg = tool.declared()[k];
    lemma_sound_passed(tool, entries, 0, k);
    if let Some(ArgValue::Str(s)) = action::lookup(entries, arg.name@) {
        if arg.kind != ArgKind::Int {
            text::lemma_first_where_meaning(s@, text::control());
            let at = text::first_where(s@, text::control()) as int;
            let bad = choose|i: int| 0 <= i < s@.len() && unprintable(#[trigger] s@[i]);
            lemma_unprintable(s@[bad]);
            assert((text::control())(s@[bad]));
            assert forall|i: int| 0 <= i < at implies !unprintable(#[trigger] s@[i]) by {
                assert(!(text::control())(s@[i]));
                lemma_unprintable(s@[i]);
            }
            lemma_unprintable(s@[at]);
            assert(validate::syntactic_fault(tool, entries) == Some(
                reject::control_character_view(arg.name@, s@[at]),
            ));
        }
    }
}

/// A tool declares an argument under the name.
pub open spec fn declares_name(tool: Tool, name: Seq<char>) -> bool {
    exists|i: int| 0 <= i < tool.declared().len() && (#[trigger] tool.declared()[i]).name@ == name
}

proof fn lemma_declares_name(tool: Tool, name: Seq<char>)
    ensures
        validate::arg_names(tool).contains(name) <==> declares_name(tool, name),
{
    let names = validate::arg_names(tool);
    if names.contains(name) {
        let i = choose|i: int| 0 <= i < names.len() && names[i] == name;
        assert(tool.declared()[i].name@ == name);
    }
    if declares_name(tool, name) {
        let i = choose|i: int|
            0 <= i < tool.declared().len() && (#[trigger] tool.declared()[i]).name@ == name;
        assert(names[i] == name);
    }
}

/// Declared names are passed over.
proof fn lemma_declared_passed(tool: Tool, entries: Seq<(Seq<char>, ArgValue)>, j: int, k: int)
    requires
        0 <= j <= k <= entries.len(),
        forall|i: int| j <= i < k ==> declares_name(tool, (#[trigger] entries[i]).0),
    ensures
        validate::undeclared_faults(tool, entries, j) == validate::undeclared_faults(
            tool,
            entries,
            k,
        ),
    decreases k - j,
{
    if j < k {
        lemma_declares_name(tool, entries[j].0);
        lemma_declared_passed(tool, entries, j + 1, k);
    }
}

/// The law of extra arguments: where every declared argument is sound, the
/// first one under a name that the tool does not declare is answered, and if
/// there is none the structure is accepted.
pub proof fn law_first_extra_argument_is_answered(
    tool: Tool,
    entries: Seq<(Seq<char>, ArgValue)>,
    k: int,
)
    requires
        forall|i: int|
            0 <= i < tool.declared().len() ==> sound(entries, #[trigger] tool.declared()[i]),
        0 <= k <= entries.len(),
        forall|i: int| 0 <= i < k ==> declares_name(tool, (#[trigger] entries[i]).0),
        k < entries.len() ==> !declares_name(tool, entries[k].0),
    ensures
        validate::syntactic_fault(tool, entries) == (if k < entries.len() {
            Some(
                reject::unknown_arg_view(
                    tool.name(),
                    entries[k].0,
                    text::debug_text(entries[k].0),
                    validate::arg_names_text(tool),
                ),
            )
        } else {
            None
        }),
{
    lemma_sound_passed(tool, entries, 0, tool.declared().len() as int);
    lemma_declared_passed(tool, entries, 0, k);
    if k < entries.len() {
        lemma_declares_name(tool, entries[k].0);
    }
}

// ---- lists in hints -----------------------------------------------------
/// The law of lists in hints: names are listed in order with a comma and a
/// space between neighbours; quoted, they stand between brackets.
pub proof fn law_lists_name_each_entry(
    tool: Tool,
    permits: Seq<Permit>,
    permit: Permit,
    items: Seq<Seq<char>>,
    item: Seq<char>,
)
    ensures
        validate::arg_names(tool).len() == tool.declared().len(),
        forall|i: int|
            0 <= i < tool.declared().len() ==> #[trigger] validate::arg_names(tool)[i]
                == tool.declared()[i].name@,
        validate::arg_names_text(tool) == text::join(validate::arg_names(tool), ", "@),
        validate::permitted_text(seq![permit]) == permit.tool.name(),
        permits.len() > 0 ==> validate::permitted_text(permits.push(permit))
            == validate::permitted_text(permits) + ", "@ + permit.tool.name(),
        text::debug_list(Seq::empty()) == "[]"@,
        text::debug_list(seq![item]) == "["@ + text::debug_text(item) + "]"@,
        items.len() > 0 ==> text::debug_list(items.push(item)) == text::debug_list(
            items,
        ).drop_last() + ", "@ + text::debug_text(item) + "]"@,
{
    let names = Seq::new(permits.len(), |i: int| permits[i].tool.name());
    let more = permits.push(permit);
    let all = Seq::new(more.len(), |i: int| more[i].tool.name());
    assert(all =~= names + seq![permit.tool.name()]);
    text::law_join_puts_between(names, seq![permit.tool.name()], ", "@);
    let one = seq![permit];
    assert(Seq::new(one.len(), |i: int| one[i].tool.name()) =~= seq![permit.tool.name()]);
    reveal_strlit("[");
    reveal_strlit("]");
    reveal_strlit("[]");
    let none = Seq::<Seq<char>>::empty();
    assert(text::quoted(none) =~= none);
    assert(text::debug_list(none) =~= "[]"@);
    assert(text::quoted(seq![item]) =~= seq![text::debug_text(item)]);
    assert(text::quoted(items.push(item)) =~= text::quoted(items) + seq![text::debug_text(item)]);
    text::law_join_puts_between(text::quoted(items), seq![text::debug_text(item)], ", "@);
    if items.len() > 0 {
        assert(text::debug_list(items).drop_last() =~= "["@ + text::join(
            text::quoted(items),
            ", "@,
        ));
        assert(text::debug_list(items.push(item)) =~= text::debug_list(items).drop_last() + ", "@
            + text::debug_text(item) + "]"@);
    }
}

// ---- paths --------------------------------------------------------------
/// One of the roots leads to directories that begin the given ones.
pub open spec fn below_a_root(dirs: Seq<Seq<char>>, roots: Seq<String>) -> bool {
    exists|i: int|
        0 <= i < roots.len() && (path::resolve((#[trigger] roots[i])@) matches Some(root)
            && root.is_prefix_of(dirs))
}

/// The law of paths: one that does not begin with a slash is not absolute, one
/// that leaves the top is above it, and any other is accepted exactly if there
/// are no roots or the directories it leads to begin with those of a root.
pub proof fn law_path_is_answered_by_its_directories(
    arg: Seq<char>,
    value: Seq<char>,
    permit: Permit,
)
    ensures
        ({
            let found = validate::path_fault(arg, value, permit);
            let roots = text::texts(permit.path_roots@);
            if value.len() == 0 || value[0] != '/' {
                found == Some(
                    reject::path_not_absolute_view(
                        arg,
                        text::debug_text(arg),
                        text::debug_text(value),
                    ),
                )
            } else {
                match path::resolve(value) {
                    None => found == Some(
                        reject::path_above_root_view(arg, text::debug_text(value)),
                    ),
                    Some(dirs) => {
                        let resolved = seq!['/'] + text::join(dirs, seq!['/']);
                        if permit.path_roots@.len() == 0 || below_a_root(dirs, permit.path_roots@) {
                            found is None
                        } else {
                            found == Some(
                                reject::path_outside_root_view(
                                    arg,
                                    text::debug_text(value),
                                    text::debug_text(resolved),
                                    text::debug_list(roots),
                                    text::join(roots, ", "@),
                                    text::contains_text(value, seq!['.', '.']) && resolved
                                        != text::trim_slashes(value),
                                ),
                            )
                        }
                    },
                }
            }
        }),
{
    reveal_strlit("..");
    assert(".."@ =~= seq!['.', '.']);
    let roots = text::texts(permit.path_roots@);
    if let Some(dirs) = path::resolve(value) {
        path::law_resolved_is_clean(value);
        let resolved = path::spell(dirs);
        assert(path::normal(value) == Some(resolved));
        assert forall|i: int| 0 <= i < roots.len() implies (match path::normal(
            #[trigger] roots[i],
        ) {
            Some(root) => path::under(resolved, root),
            None => false,
        }) == (path::resolve(permit.path_roots@[i]@) matches Some(root) && root.is_prefix_of(
            dirs,
        )) by {
            path::law_resolved_is_clean(roots[i]);
            if let Some(root) = path::resolve(roots[i]) {
                path::law_under_is_segment_prefix(dirs, root);
            }
        }
        if validate::within_roots(resolved, roots) {
            let i = choose|i: int|
                0 <= i < roots.len() && match path::normal(#[trigger] roots[i]) {
                    Some(root) => path::under(resolved, root),
                    None => false,
                };
            assert(path::resolve(permit.path_roots@[i]@) is Some);
        }
        if below_a_root(dirs, permit.path_roots@) {
            let i = choose|i: int|
                0 <= i < permit.path_roots@.len() && (path::resolve(
                    (#[trigger] permit.path_roots@[i])@,
                ) matches Some(root) && root.is_prefix_of(dirs));
            assert(roots[i] == permit.path_roots@[i]@);
            assert(validate::within_roots(resolved, roots));
        }
    }
}

// ---- commands -----------------------------------------------------------
/// A character that only a shell would interpret.
pub open spec fn for_a_shell(c: char) -> bool {
    ||| c == ';' || c == '|' || c == '&'
    ||| c == '`' || c == '$'
    ||| c == '>' || c == '<'
    ||| c == '(' || c == ')'
    ||| c == '\n' || c == '\r'
}

proof fn lemma_for_a_shell(c: char)
    ensures
        validate::metachars().contains(c) <==> for_a_shell(c),
{
    let m = validate::metachars();
    assert(m[0] == ';' && m[1] == '|' && m[2] == '&' && m[3] == '`' && m[4] == '$' && m[5] == '>'
        && m[6] == '<' && m[7] == '(' && m[8] == ')' && m[9] == '\n' && m[10] == '\r');
}

/// The law of metacharacters: the first character of a command that only a
/// shell would interpret is the one that is answered, whatever else stands in
/// the command.
pub proof fn law_first_metacharacter_is_answered(
    arg: Seq<char>,
    before: Seq<char>,
    c: char,
    after: Seq<char>,
    permit: Permit,
)
    requires
        forall|i: int| 0 <= i < before.len() ==> !for_a_shell(#[trigger] before[i]),
        for_a_shell(c),
    ensures
        validate::shell_fault(arg, before + seq![c] + after, permit) == Some(
            reject::shell_metacharacter_view(arg, c, text::debug_text(before + seq![c] + after)),
        ),
{
    let value = before + seq![c] + after;
    let p = text::one_of(validate::metachars());
    let n = before.len() as int;
    assert(value[n] == c);
    lemma_for_a_shell(c);
    assert forall|k: int| 0 <= k < n implies !p(#[trigger] value[k]) by {
        assert(value[k] == before[k]);
        lemma_for_a_shell(value[k]);
    }
    text::lemma_first_where(value, p, n);
}

/// The law of commands: white space before the first word does not count, the
/// word ends at the next white space, and a command without metacharacters is
/// accepted exactly if it has a first word and that is listed, or none is.
pub proof fn law_command_is_answered_by_its_first_word(
    arg: Seq<char>,
    blank: Seq<char>,
    word: Seq<char>,
    rest: Seq<char>,
    permit: Permit,
)
    requires
        forall|i: int| 0 <= i < blank.len() ==> text::is_space(#[trigger] blank[i]),
        forall|i: int| 0 <= i < word.len() ==> !text::is_space(#[trigger] word[i]),
        rest.len() > 0 ==> word.len() > 0 && text::is_space(rest[0]),
        forall|i: int|
            0 <= i < (blank + word + rest).len() ==> !for_a_shell(
                #[trigger] (blank + word + rest)[i],
            ),
    ensures
        ({
            let allow = text::texts(permit.argv0_allow@);
            let found = validate::shell_fault(arg, blank + word + rest, permit);
            if word.len() == 0 {
                found == Some(reject::empty_command_view(arg))
            } else if allow.len() == 0 || exists|i: int|
                0 <= i < allow.len() && #[trigger] allow[i] == word {
                found is None
            } else {
                found == Some(
                    reject::argv0_not_allowed_view(
                        text::debug_text(word),
                        text::debug_list(allow),
                        text::join(allow, ", "@),
                    ),
                )
            }
        }),
{
    let value = blank + word + rest;
    let p = text::one_of(validate::metachars());
    assert forall|k: int| 0 <= k < value.len() implies !p(#[trigger] value[k]) by {
        lemma_for_a_shell(value[k]);
    }
    text::lemma_first_where(value, p, value.len() as int);
    let n = blank.len() as int;
    assert forall|k: int| 0 <= k < n implies !(text::non_space())(#[trigger] value[k]) by {
        assert(value[k] == blank[k]);
    }
    if word.len() > 0 {
        assert(value[n] == word[0]);
    }
    text::lemma_first_where(value, text::non_space(), n);
    let tail = value.skip(n);
    assert(tail =~= word + rest);
    assert forall|k: int| 0 <= k < word.len() implies !(text::space())(#[trigger] tail[k]) by {
        assert(tail[k] == word[k]);
    }
    if rest.len() > 0 {
        assert(tail[word.len() as int] == rest[0]);
    }
    text::lemma_first_where(tail, text::space(), word.len() as int);
    assert(tail.take(word.len() as int) =~= word);
    assert(validate::first_word(value) == word);
    let allow = text::texts(permit.argv0_allow@);
    if allow.contains(word) {
        let i = allow.index_of(word);
        assert(allow[i] == word);
    }
}

// ---- addresses ----------------------------------------------------------
/// What ends the authority of a URL.
pub open spec fn ends_authority(c: char) -> bool {
    c == '/' || c == '?' || c == '#'
}

/// Nothing in the text ends the authority of a URL.
pub open spec fn in_authority(s: Seq<char>) -> bool {
    forall|i: int| 0 <= i < s.len() ==> !ends_authority(#[trigger] s[i])
}

proof fn lemma_ends_authority(c: char)
    ensures
        seq!['/', '?', '#'].contains(c) <==> ends_authority(c),
{
    let m = seq!['/', '?', '#'];
    assert(m[0] == '/' && m[1] == '?' && m[2] == '#');
}

/// The law of ports: a host holds no colon once its port is gone, and it is
/// what stood before the first one.
pub proof fn law_bare_host_ends_at_the_colon(host: Seq<char>)
    ensures
        !validate::bare_host(host).contains(':'),
        validate::bare_host(host) == host || exists|port: Seq<char>|
            host == #[trigger] (validate::bare_host(host) + seq![':'] + port),
{
    let p = text::one_of(seq![':']);
    text::lemma_first_where_meaning(host, p);
    let at = text::first_where(host, p) as int;
    let bare = validate::bare_host(host);
    assert(seq![':'][0] == ':');
    if bare.contains(':') {
        let i = bare.index_of(':');
        assert(host[i] == ':');
        assert(!p(host[i]));
    }
    if at < host.len() {
        assert(host =~= bare + seq![':'] + host.skip(at + 1));
    } else {
        assert(bare =~= host);
    }
}

/// What precedes the host is a user name or nothing.
proof fn lemma_host_after_user(user: Seq<char>, host: Seq<char>)
    requires
        user.len() == 0 || user.last() == '@',
        !host.contains('@'),
    ensures
        text::split(user + host, '@').last() == host,
{
    text::lemma_split_whole(host, '@');
    if user.len() > 0 {
        text::lemma_split_concat(user.drop_last(), host, '@');
        assert(user.drop_last().push('@') =~= user);
    } else {
        assert(user + host =~= host);
    }
}

/// The authority goes up to what ends it.
proof fn lemma_authority(authority: Seq<char>, tail: Seq<char>)
    requires
        in_authority(authority),
        tail.len() == 0 || ends_authority(tail[0]),
    ensures
        validate::host_of(authority + tail) == text::split(authority, '@').last(),
{
    let rest = authority + tail;
    let p = text::one_of(seq!['/', '?', '#']);
    let n = authority.len() as int;
    assert forall|k: int| 0 <= k < n implies !p(#[trigger] rest[k]) by {
        assert(rest[k] == authority[k]);
        lemma_ends_authority(rest[k]);
    }
    if tail.len() > 0 {
        assert(rest[n] == tail[0]);
        lemma_ends_authority(tail[0]);
    }
    text::lemma_first_where(rest, p, n);
    assert(rest.take(n) =~= authority);
}

/// A host goes up to its port.
proof fn lemma_bare(bare: Seq<char>, port: Seq<char>)
    requires
        !bare.contains(':'),
        port.len() == 0 || port[0] == ':',
    ensures
        validate::bare_host(bare + port) == bare,
{
    let host = bare + port;
    let q = text::one_of(seq![':']);
    assert(seq![':'][0] == ':');
    assert forall|k: int| 0 <= k < bare.len() implies !q(#[trigger] host[k]) by {
        assert(host[k] == bare[k]);
    }
    if port.len() > 0 {
        assert(host[bare.len() as int] == port[0]);
    }
    text::lemma_first_where(host, q, bare.len() as int);
    assert(host.take(bare.len() as int) =~= bare);
}

/// The law of hosts: the host stands before the first of `/`, `?` and `#` and
/// after the last `@` before that, and a port does not belong to it.
pub proof fn law_host_stands_after_user_and_before_path(
    user: Seq<char>,
    bare: Seq<char>,
    port: Seq<char>,
    tail: Seq<char>,
)
    requires
        user.len() == 0 || user.last() == '@',
        !bare.contains('@') && !bare.contains(':'),
        port.len() == 0 || port[0] == ':',
        !port.contains('@'),
        in_authority(user) && in_authority(bare) && in_authority(port),
        tail.len() == 0 || ends_authority(tail[0]),
    ensures
        validate::host_of(user + bare + port + tail) == bare + port,
        validate::bare_host(bare + port) == bare,
{
    let authority = user + bare + port;
    assert forall|i: int| 0 <= i < authority.len() implies !ends_authority(
        #[trigger] authority[i],
    ) by {
        if i < user.len() {
            assert(authority[i] == user[i]);
        } else if i < user.len() + bare.len() {
            assert(authority[i] == bare[i - user.len()]);
        } else {
            assert(authority[i] == port[i - user.len() - bare.len()]);
        }
    }
    lemma_authority(authority, tail);
    let host = bare + port;
    assert(authority =~= user + host);
    assert(!host.contains('@')) by {
        if host.contains('@') {
            let i = host.index_of('@');
            if i < bare.len() {
                assert(bare[i] == '@');
            } else {
                assert(port[i - bare.len()] == '@');
            }
        }
    }
    lemma_host_after_user(user, host);
    lemma_bare(bare, port);
}

/// The law of addresses: an address with one of the two schemes is accepted
/// exactly if it names a host and that is listed, or none is, whatever user
/// name, port, path, query or fragment surrounds the host.
pub proof fn law_address_is_answered_by_its_host(
    arg: Seq<char>,
    scheme: Seq<char>,
    user: Seq<char>,
    bare: Seq<char>,
    port: Seq<char>,
    tail: Seq<char>,
    permit: Permit,
)
    requires
        scheme == "https://"@ || scheme == "http://"@,
        user.len() == 0 || user.last() == '@',
        !bare.contains('@') && !bare.contains(':'),
        port.len() == 0 || port[0] == ':',
        !port.contains('@'),
        in_authority(user) && in_authority(bare) && in_authority(port),
        tail.len() == 0 || ends_authority(tail[0]),
    ensures
        ({
            let value = scheme + (user + bare + port + tail);
            let allow = text::texts(permit.host_allow@);
            let found = validate::url_fault(arg, value, permit);
            if bare.len() == 0 && port.len() == 0 {
                found == Some(reject::url_without_host_view(arg, text::debug_text(value)))
            } else if allow.len() == 0 || exists|i: int|
                0 <= i < allow.len() && #[trigger] allow[i] == bare {
                found is None
            } else {
                found == Some(
                    reject::host_not_allowed_view(
                        text::debug_text(bare),
                        text::debug_list(allow),
                        text::join(allow, ", "@),
                    ),
                )
            }
        }),
{
    reveal_strlit("https://");
    reveal_strlit("http://");
    let rest = user + bare + port + tail;
    let value = scheme + rest;
    law_host_stands_after_user_and_before_path(user, bare, port, tail);
    if scheme == "https://"@ {
        assert("https://"@ =~= value.subrange(0, 8));
        assert(value.skip(8) =~= rest);
    } else {
        assert("http://"@ =~= value.subrange(0, 7));
        assert(value.skip(7) =~= rest);
        assert(value[4] == ':');
        assert("https://"@[4] == 's');
        assert(!text::starts_with(value, "https://"@)) by {
            if text::starts_with(value, "https://"@) {
                assert(value.subrange(0, 8)[4] == value[4]);
            }
        }
    }
    assert(validate::after_scheme(value) == Some(rest));
    let allow = text::texts(permit.host_allow@);
    if allow.contains(bare) {
        let i = allow.index_of(bare);
        assert(allow[i] == bare);
    }
}

/// The law of schemes: an address that begins with neither `https://` nor
/// `http://` is answered as having no scheme.
pub proof fn law_address_needs_a_scheme(arg: Seq<char>, value: Seq<char>, permit: Permit)
    requires
        forall|rest: Seq<char>| value != #[trigger] ("https://"@ + rest),
        forall|rest: Seq<char>| value != #[trigger] ("http://"@ + rest),
    ensures
        validate::url_fault(arg, value, permit) == Some(
            reject::url_without_scheme_view(arg, text::debug_text(value)),
        ),
{
    text::law_occurrence_is_a_part(value, "https://"@);
    text::law_occurrence_is_a_part(value, "http://"@);
}

// ---- values -------------------------------------------------------------
/// The law of values: each kind of argument is held to its own bound. A text is
/// measured in bytes, only a timeout has a ceiling, and a bound that is not
/// set, or a value of another type, is not answered here.
pub proof fn law_each_kind_has_its_bound(arg: ArgSpec, v: ArgValue, permit: Permit)
    ensures
        ({
            let found = validate::value_fault(arg, v, permit);
            match v {
                ArgValue::Str(s) => {
                    let bytes = vstd::utf8::encode_utf8(s@).len();
                    &&& arg.kind is Path ==> found == validate::path_fault(arg.name@, s@, permit)
                    &&& arg.kind is Shell ==> found == validate::shell_fault(arg.name@, s@, permit)
                    &&& arg.kind is Url ==> found == validate::url_fault(arg.name@, s@, permit)
                    &&& arg.kind is Text ==> {
                        &&& permit.max_text_bytes is None ==> found is None
                        &&& permit.max_text_bytes matches Some(cap) ==> {
                            &&& bytes <= cap ==> found is None
                            &&& bytes > cap ==> found == Some(
                                reject::arg_too_large_view(arg.name@, bytes, cap as nat),
                            )
                        }
                    }
                    &&& arg.kind is Int ==> found is None
                },
                ArgValue::Int(n) => {
                    &&& !(arg.kind is Int) || arg.name@ != "timeout_ms"@ ==> found is None
                    &&& permit.max_timeout_ms is None ==> found is None
                    &&& permit.max_timeout_ms matches Some(cap) ==> {
                        &&& n <= cap ==> found is None
                        &&& n > cap && arg.kind is Int && arg.name@ == "timeout_ms"@ ==> found
                            == Some(reject::timeout_above_ceiling_view(n as nat, cap as nat))
                    }
                },
            }
        }),
{
}

// ---- steps --------------------------------------------------------------
/// An argument that is there and stays inside its bounds.
pub open spec fn bounded(
    entries: Seq<(Seq<char>, ArgValue)>,
    arg: ArgSpec,
    permit: Permit,
) -> bool {
    action::lookup(entries, arg.name@) matches Some(v) ==> validate::value_fault(arg, v, permit)
        is None
}

proof fn lemma_bounded_passed(
    tool: Tool,
    entries: Seq<(Seq<char>, ArgValue)>,
    permit: Permit,
    j: int,
    k: int,
)
    requires
        0 <= j <= k <= tool.declared().len(),
        forall|i: int| j <= i < k ==> bounded(entries, #[trigger] tool.declared()[i], permit),
    ensures
        validate::value_faults(tool, entries, permit, j) == validate::value_faults(
            tool,
            entries,
            permit,
            k,
        ),
    decreases k - j,
{
    if j < k {
        assert(bounded(entries, tool.declared()[j], permit));
        lemma_bounded_passed(tool, entries, permit, j + 1, k);
    }
}

/// The first permit for a tool is the one that governs it.
proof fn lemma_governing(permits: Seq<Permit>, tool: Tool, n: int)
    requires
        0 <= n < permits.len(),
        permits[n].tool == tool,
        forall|i: int| 0 <= i < n ==> #[trigger] permits[i].tool != tool,
    ensures
        runbook::permit_for(permits, tool) == Some(permits[n]),
    decreases n,
{
    if n > 0 {
        let rest = permits.drop_first();
        assert(permits[0].tool != tool);
        assert forall|i: int| 0 <= i < n - 1 implies #[trigger] rest[i].tool != tool by {
            assert(rest[i] == permits[i + 1]);
        }
        lemma_governing(rest, tool, n - 1);
    }
}

/// The law of governing permits: at a step, the first permit for a tool
/// decides. The first declared argument that it does not admit is answered with
/// its own fault, and if it admits all of them the step accepts the action.
pub proof fn law_first_permit_decides(
    rb: Runbook,
    step_idx: int,
    n: int,
    tool: Tool,
    entries: Seq<(Seq<char>, ArgValue)>,
    k: int,
)
    requires
        0 <= step_idx < rb.steps@.len(),
        0 <= n < rb.steps@[step_idx].permits@.len(),
        rb.steps@[step_idx].permits@[n].tool == tool,
        forall|i: int| 0 <= i < n ==> #[trigger] rb.steps@[step_idx].permits@[i].tool != tool,
        0 <= k <= tool.declared().len(),
        forall|i: int|
            0 <= i < k ==> bounded(
                entries,
                #[trigger] tool.declared()[i],
                rb.steps@[step_idx].permits@[n],
            ),
        k < tool.declared().len() ==> !bounded(
            entries,
            tool.declared()[k],
            rb.steps@[step_idx].permits@[n],
        ),
    ensures
        validate::semantic_fault(rb, step_idx, tool, entries) == (if k < tool.declared().len() {
            validate::value_fault(
                tool.declared()[k],
                action::lookup(entries, tool.declared()[k].name@)->0,
                rb.steps@[step_idx].permits@[n],
            )
        } else {
            None
        }),
{
    let permit = rb.steps@[step_idx].permits@[n];
    lemma_governing(rb.steps@[step_idx].permits@, tool, n);
    lemma_bounded_passed(tool, entries, permit, 0, k);
}

/// No permit of a step is for the tool.
pub open spec fn withheld(permits: Seq<Permit>, tool: Tool) -> bool {
    forall|i: int| 0 <= i < permits.len() ==> #[trigger] permits[i].tool != tool
}

proof fn lemma_withheld(permits: Seq<Permit>, tool: Tool)
    ensures
        withheld(permits, tool) <==> !runbook::permits_tool(permits, tool),
        withheld(permits, tool) <==> runbook::permit_for(permits, tool) is None,
{
    runbook::lemma_permit_for(permits, tool);
}

/// The law of steps: past the end there is no step; a tool that the step
/// withholds is answered with the first later step that permits it, or as not
/// permitted if there is none.
pub proof fn law_withheld_tool_is_answered_by_later_steps(
    rb: Runbook,
    step_idx: int,
    tool: Tool,
    entries: Seq<(Seq<char>, ArgValue)>,
    later: int,
)
    requires
        0 <= step_idx,
        step_idx < rb.steps@.len() ==> {
            &&& withheld(rb.steps@[step_idx].permits@, tool)
            &&& step_idx < later <= rb.steps@.len()
            &&& forall|i: int|
                step_idx < i < later ==> withheld((#[trigger] rb.steps@[i]).permits@, tool)
            &&& later < rb.steps@.len() ==> !withheld(rb.steps@[later].permits@, tool)
        },
    ensures
        validate::semantic_fault(rb, step_idx, tool, entries) == Some(
            if step_idx >= rb.steps@.len() {
                reject::step_unknown_view(step_idx as nat, text::debug_text(rb.name@))
            } else if later < rb.steps@.len() {
                reject::step_out_of_order_view(
                    tool.name(),
                    text::debug_text(rb.steps@[later].id@),
                    later as nat,
                    text::debug_text(rb.steps@[step_idx].id@),
                    step_idx as nat,
                    rb.steps@[step_idx].intent@,
                    validate::permitted_text(rb.steps@[step_idx].permits@),
                )
            } else {
                reject::tool_not_permitted_view(
                    tool.name(),
                    text::debug_text(rb.steps@[step_idx].id@),
                    validate::permitted_text(rb.steps@[step_idx].permits@),
                )
            },
        ),
{
    if step_idx < rb.steps@.len() {
        lemma_withheld(rb.steps@[step_idx].permits@, tool);
        runbook::lemma_next_permitting(rb.steps@, tool, step_idx + 1);
        if later < rb.steps@.len() {
            lemma_withheld(rb.steps@[later].permits@, tool);
        }
        assert forall|i: int| step_idx < i < later implies !runbook::permits_tool(
            (#[trigger] rb.steps@[i]).permits@,
            tool,
        ) by {
            lemma_withheld(rb.steps@[i].permits@, tool);
        }
    }
}

/// The law of passes: an action is answered by the first pass if that finds a
/// fault, and by the second otherwise.
pub proof fn law_structure_is_answered_first(
    rb: Runbook,
    step_idx: int,
    tool: Tool,
    entries: Seq<(Seq<char>, ArgValue)>,
)
    ensures
        validate::syntactic_fault(tool, entries) is Some ==> validate::fault(
            rb,
            step_idx,
            tool,
            entries,
        ) == validate::syntactic_fault(tool, entries),
        validate::syntactic_fault(tool, entries) is None ==> validate::fault(
            rb,
            step_idx,
            tool,
            entries,
        ) == validate::semantic_fault(rb, step_idx, tool, entries),
{
}

} // verus!
