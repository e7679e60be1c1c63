//! Deterministic validation, in two passes that share no code with the
//! grammar: first the structure of an action, then the contract of the step
//! it is proposed at.

pub use crate::path::normalize_lexical;
pub use crate::reject::{Reject, RejectCode};

use crate::action;
use crate::action::{Action, ArgKind, ArgSpec, ArgValue, Tool};
use crate::path;
use crate::reject;
use crate::runbook;
use crate::runbook::{Permit, Runbook, Step};
use crate::text;
use vstd::prelude::*;
use vstd::string::*;

verus! {

// ---- structure ----------------------------------------------------------
/// The names of a tool's declared arguments.
pub open spec fn arg_names(tool: Tool) -> Seq<Seq<char>> {
    Seq::new(tool.declared().len(), |i: int| tool.declared()[i].name@)
}

/// The declared names as they are listed in a hint.
pub open spec fn arg_names_text(tool: Tool) -> Seq<char> {
    text::join(arg_names(tool), ", "@)
}

/// Whether a value has the type that its kind calls for.
pub open spec fn typed(kind: ArgKind, v: ArgValue) -> bool {
    match kind {
        ArgKind::Int => v is Int,
        _ => v is Str,
    }
}

/// What is wrong with the structure of one declared argument.
pub open spec fn declared_fault(
    tool: Tool,
    entries: Seq<(Seq<char>, ArgValue)>,
    arg: ArgSpec,
) -> Option<reject::RejectView> {
    match action::lookup(entries, arg.name@) {
        None => Some(reject::missing_arg_view(tool.name(), arg.name@, arg_names_text(tool))),
        Some(v) => if !typed(arg.kind, v) {
            Some(reject::arg_type_view(tool.name(), arg.name@, arg.kind == ArgKind::Int))
        } else {
            match v {
                ArgValue::Int(_) => None,
                ArgValue::Str(s) => {
                    let at = text::first_where(s@, text::control());
                    if at < s@.len() {
                        Some(reject::control_character_view(arg.name@, s@[at as int]))
                    } else {
                        None
                    }
                },
            }
        },
    }
}

/// The first fault among the declared arguments from the `k`th on.
pub open spec fn declared_faults(
    tool: Tool,
    entries: Seq<(Seq<char>, ArgValue)>,
    k: int,
) -> Option<reject::RejectView>
    decreases tool.declared().len() - k,
{
    if k < 0 || k >= tool.declared().len() {
        None
    } else {
        match declared_fault(tool, entries, tool.declared()[k]) {
            Some(r) => Some(r),
            None => declared_faults(tool, entries, k + 1),
        }
    }
}

/// The first undeclared argument, in key order, from the `k`th on.
pub open spec fn undeclared_faults(
    tool: Tool,
    entries: Seq<(Seq<char>, ArgValue)>,
    k: int,
) -> Option<reject::RejectView>
    decreases entries.len() - k,
{
    if k < 0 || k >= entries.len() {
        None
    } else if arg_names(tool).contains(entries[k].0) {
        undeclared_faults(tool, entries, k + 1)
    } else {
        Some(
            reject::unknown_arg_view(
                tool.name(),
                entries[k].0,
                text::debug_text(entries[k].0),
                arg_names_text(tool),
            ),
        )
    }
}

/// What the first pass finds: the first faulty declared argument, or else the
/// first argument that is not declared.
pub open spec fn syntactic_fault(
    tool: Tool,
    entries: Seq<(Seq<char>, ArgValue)>,
) -> Option<reject::RejectView> {
    match declared_faults(tool, entries, 0) {
        Some(r) => Some(r),
        None => undeclared_faults(tool, entries, 0),
    }
}

/// A declared argument is there, has its type, and holds no control
/// character.
pub open spec fn arg_well_formed(entries: Seq<(Seq<char>, ArgValue)>, arg: ArgSpec) -> bool {
    match action::lookup(entries, arg.name@) {
        None => false,
        Some(v) => typed(arg.kind, v) && match v {
            ArgValue::Int(_) => true,
            ArgValue::Str(s) => forall|i: int|
                0 <= i < s@.len() ==> !text::is_control(#[trigger] s@[i]),
        },
    }
}

/// The structure of an action is right: every declared argument is well
/// formed, and there are no others.
pub open spec fn well_formed(tool: Tool, entries: Seq<(Seq<char>, ArgValue)>) -> bool {
    &&& forall|i: int|
        0 <= i < tool.declared().len() ==> arg_well_formed(entries, #[trigger] tool.declared()[i])
    &&& forall|i: int|
        0 <= i < entries.len() ==> arg_names(tool).contains((#[trigger] entries[i]).0)
}

/// Executable form of [`arg_names_text`].
fn list_arg_names(tool: Tool) -> (res: String)
    ensures
        res@ == arg_names_text(tool),
{
    let declared = tool.args();
    let mut names: Vec<String> = Vec::new();
    let mut i: usize = 0;
    while i < declared.len()
        invariant
            declared@ == tool.declared(),
            i <= declared@.len(),
            names@.len() == i,
            forall|k: int| 0 <= k < i ==> #[trigger] names@[k]@ == declared@[k].name@,
        decreases declared@.len() - i,
    {
        names.push(declared[i].name.to_owned());
        i += 1;
    }
    assert(text::texts(names@) =~= arg_names(tool));
    text::join_texts(&names, ", ")
}

/// Whether a tool declares an argument of the given name.
fn declares(tool: Tool, name: &str) -> (res: bool)
    ensures
        res == arg_names(tool).contains(name@),
{
    let declared = tool.args();
    let mut i: usize = 0;
    while i < declared.len()
        invariant
            declared@ == tool.declared(),
            i <= declared@.len(),
            forall|k: int| 0 <= k < i ==> #[trigger] arg_names(tool)[k] != name@,
        decreases declared@.len() - i,
    {
        if text::same_text(declared[i].name, name) {
            assert(arg_names(tool)[i as int] == name@);
            return true;
        }
        i += 1;
    }
    false
}

/// The first control character of a text, if it holds one.
fn first_control(s: &str) -> (res: Option<char>)
    ensures
        res == (if text::first_where(s@, text::control()) < s@.len() {
            Some(s@[text::first_where(s@, text::control()) as int])
        } else {
            None
        }),
{
    let chars = text::chars_of(s);
    let mut i: usize = 0;
    while i < chars.len()
        invariant
            chars@ == s@,
            i <= chars@.len(),
            forall|k: int| 0 <= k < i ==> !(text::control())(#[trigger] chars@[k]),
        decreases chars@.len() - i,
    {
        if text::control_char(chars[i]) {
            proof {
                text::lemma_first_where(s@, text::control(), i as int);
            }
            return Some(chars[i]);
        }
        i += 1;
    }
    proof {
        text::lemma_first_where(s@, text::control(), i as int);
    }
    None
}

/// One declared argument of the first pass.
fn check_declared(action: &Action, arg: ArgSpec) -> (res: Result<(), Reject>)
    ensures
        reject::verdict(res) == declared_fault(action.tool, action.args@, arg),
{
    match action.args.get(arg.name) {
        None => {
            let names = list_arg_names(action.tool);
            Err(reject::missing_arg(action.tool.as_str(), arg.name, names.as_str()))
        },
        Some(v) => {
            let whole = arg.kind == ArgKind::Int;
            match v {
                ArgValue::Int(_) => {
                    if whole {
                        Ok(())
                    } else {
                        Err(reject::arg_type(action.tool.as_str(), arg.name, whole))
                    }
                },
                ArgValue::Str(s) => {
                    if whole {
                        return Err(reject::arg_type(action.tool.as_str(), arg.name, whole));
                    }
                    match first_control(s.as_str()) {
                        Some(c) => {
                            proof {
                                text::lemma_first_where_meaning(s@, text::control());
                            }
                            Err(reject::control_character(arg.name, c))
                        },
                        None => Ok(()),
                    }
                },
            }
        },
    }
}

/// A structural fault is absent exactly if the argument is well formed.
proof fn lemma_declared_fault(
    tool: Tool,
    entries: Seq<(Seq<char>, ArgValue)>,
    arg: ArgSpec,
)
    ensures
        declared_fault(tool, entries, arg) is None <==> arg_well_formed(entries, arg),
{
    if let Some(ArgValue::Str(s)) = action::lookup(entries, arg.name@) {
        text::lemma_first_where_meaning(s@, text::control());
        let at = text::first_where(s@, text::control());
        if at < s@.len() {
            assert(text::is_control(s@[at as int]));
        } else {
            assert forall|i: int| 0 <= i < s@.len() implies !text::is_control(
                #[trigger] s@[i],
            ) by {
                assert(!(text::control())(s@[i]));
            }
        }
    }
}

proof fn lemma_declared_faults(tool: Tool, entries: Seq<(Seq<char>, ArgValue)>, k: int)
    requires
        0 <= k <= tool.declared().len(),
    ensures
        declared_faults(tool, entries, k) is None <==> forall|i: int|
            k <= i < tool.declared().len() ==> arg_well_formed(
                entries,
                #[trigger] tool.declared()[i],
            ),
    decreases tool.declared().len() - k,
{
    if k < tool.declared().len() {
        lemma_declared_fault(tool, entries, tool.declared()[k]);
        lemma_declared_faults(tool, entries, k + 1);
    }
}

proof fn lemma_undeclared_faults(tool: Tool, entries: Seq<(Seq<char>, ArgValue)>, k: int)
    requires
        0 <= k <= entries.len(),
    ensures
        undeclared_faults(tool, entries, k) is None <==> forall|i: int|
            k <= i < entries.len() ==> arg_names(tool).contains((#[trigger] entries[i]).0),
    decreases entries.len() - k,
{
    if k < entries.len() {
        lemma_undeclared_faults(tool, entries, k + 1);
    }
}

/// The law of the first pass: it finds nothing exactly in actions whose
/// structure is right.
pub proof fn law_syntactic_accepts_well_formed(tool: Tool, entries: Seq<(Seq<char>, ArgValue)>)
    ensures
        syntactic_fault(tool, entries) is None <==> well_formed(tool, entries),
{
    lemma_declared_faults(tool, entries, 0);
    lemma_undeclared_faults(tool, entries, 0);
}

/// Pass 1: structure. Depends on the tool, not on the runbook.
pub fn validate_syntactic(action: &Action) -> (res: Result<(), Reject>)
    ensures
        reject::verdict(res) == syntactic_fault(action.tool, action.args@),
        res is Ok <==> syntactic_fault(action.tool, action.args@) is None,
        res matches Err(r) ==> syntactic_fault(action.tool, action.args@) == Some(
            (reject::RejectView {
                code: r.code,
                reason: r.reason@,
                repair_hint: r.repair_hint@,
            }),
        ),
        res is Ok <==> well_formed(action.tool, action.args@),
{
    let declared = action.tool.args();
    let mut i: usize = 0;
    while i < declared.len()
        invariant
            declared@ == action.tool.declared(),
            i <= declared@.len(),
            declared_faults(action.tool, action.args@, 0) == declared_faults(
                action.tool,
                action.args@,
                i as int,
            ),
        decreases declared@.len() - i,
    {
        match check_declared(action, declared[i]) {
            Ok(_) => {},
            Err(r) => {
                proof {
                    law_syntactic_accepts_well_formed(action.tool, action.args@);
                }
                return Err(r);
            },
        }
        i += 1;
    }
    let keys = action.args.keys();
    let mut k: usize = 0;
    while k < keys.len()
        invariant
            keys@.len() == action.args@.len(),
            forall|j: int| 0 <= j < keys@.len() ==> #[trigger] keys@[j]@ == action.args@[j].0,
            k <= keys@.len(),
            undeclared_faults(action.tool, action.args@, 0) == undeclared_faults(
                action.tool,
                action.args@,
                k as int,
            ),
            declared_faults(action.tool, action.args@, 0) is None,
        decreases keys@.len() - k,
    {
        let key = keys[k].as_str();
        if !declares(action.tool, key) {
            proof {
                law_syntactic_accepts_well_formed(action.tool, action.args@);
            }
            let shown = text::quote(key);
            let names = list_arg_names(action.tool);
            return Err(
                reject::unknown_arg(action.tool.as_str(), key, shown.as_str(), names.as_str()),
            );
        }
        k += 1;
    }
    proof {
        law_syntactic_accepts_well_formed(action.tool, action.args@);
    }
    Ok(())
}

// ---- step contract ------------------------------------------------------
/// Characters that only matter if a shell interprets the command line. The
/// command is run directly, with no shell, so they cannot do what was meant.
pub open spec fn metachars() -> Seq<char> {
    seq![';', '|', '&', '`', '$', '>', '<', '(', ')', '\n', '\r']
}

/// A normal path is under one of the permitted roots, each taken in its own
/// normal form; a root without one permits nothing.
pub open spec fn within_roots(resolved: Seq<char>, roots: Seq<Seq<char>>) -> bool {
    exists|i: int|
        0 <= i < roots.len() && match path::normal(#[trigger] roots[i]) {
            Some(root) => path::under(resolved, root),
            None => false,
        }
}

/// Whether a path was written with `..` and resolves to something else than
/// what it spells.
pub open spec fn traversed(value: Seq<char>, resolved: Seq<char>) -> bool {
    resolved != text::trim_slashes(value) && text::contains_text(value, ".."@)
}

/// What is wrong with a path argument.
pub open spec fn path_fault(arg: Seq<char>, value: Seq<char>, permit: Permit) -> Option<
    reject::RejectView,
> {
    let roots = text::texts(permit.path_roots@);
    if !path::absolute(value) {
        Some(
            reject::path_not_absolute_view(arg, text::debug_text(arg), text::debug_text(value)),
        )
    } else {
        match path::normal(value) {
            None => Some(reject::path_above_root_view(arg, text::debug_text(value))),
            Some(resolved) => if roots.len() == 0 || within_roots(resolved, roots) {
                None
            } else {
                Some(
                    reject::path_outside_root_view(
                        arg,
                        text::debug_text(value),
                        text::debug_text(resolved),
                        text::debug_list(roots),
                        text::join(roots, ", "@),
                        traversed(value, resolved),
                    ),
                )
            },
        }
    }
}

/// The first word of a text: what stands after leading white space, up to the
/// next white space.
pub open spec fn first_word(s: Seq<char>) -> Seq<char> {
    let rest = s.skip(text::first_where(s, text::non_space()) as int);
    rest.take(text::first_where(rest, text::space()) as int)
}

/// What is wrong with a shell argument.
pub open spec fn shell_fault(arg: Seq<char>, value: Seq<char>, permit: Permit) -> Option<
    reject::RejectView,
> {
    let allow = text::texts(permit.argv0_allow@);
    let at = text::first_where(value, text::one_of(metachars()));
    let argv0 = first_word(value);
    if at < value.len() {
        Some(reject::shell_metacharacter_view(arg, value[at as int], text::debug_text(value)))
    } else if argv0.len() == 0 {
        Some(reject::empty_command_view(arg))
    } else if allow.len() == 0 || allow.contains(argv0) {
        None
    } else {
        Some(
            reject::argv0_not_allowed_view(
                text::debug_text(argv0),
                text::debug_list(allow),
                text::join(allow, ", "@),
            ),
        )
    }
}

/// What follows the scheme of a URL, if it has one of the two accepted ones.
pub open spec fn after_scheme(url: Seq<char>) -> Option<Seq<char>> {
    if text::starts_with(url, "https://"@) {
        Some(url.skip("https://"@.len() as int))
    } else if text::starts_with(url, "http://"@) {
        Some(url.skip("http://"@.len() as int))
    } else {
        None
    }
}

/// The host, and port if there is one, of a URL without its scheme: what
/// stands before the path, query or fragment, and after any user name.
pub open spec fn host_of(rest: Seq<char>) -> Seq<char> {
    let authority = rest.take(
        text::first_where(rest, text::one_of(seq!['/', '?', '#'])) as int,
    );
    text::split(authority, '@').last()
}

/// A host without its port.
pub open spec fn bare_host(host: Seq<char>) -> Seq<char> {
    host.take(text::first_where(host, text::one_of(seq![':'])) as int)
}

/// What is wrong with a URL argument.
pub open spec fn url_fault(arg: Seq<char>, value: Seq<char>, permit: Permit) -> Option<
    reject::RejectView,
> {
    let allow = text::texts(permit.host_allow@);
    match after_scheme(value) {
        None => Some(reject::url_without_scheme_view(arg, text::debug_text(value))),
        Some(rest) => {
            let host = host_of(rest);
            if host.len() == 0 {
                Some(reject::url_without_host_view(arg, text::debug_text(value)))
            } else if allow.len() == 0 || allow.contains(bare_host(host)) {
                None
            } else {
                Some(
                    reject::host_not_allowed_view(
                        text::debug_text(bare_host(host)),
                        text::debug_list(allow),
                        text::join(allow, ", "@),
                    ),
                )
            }
        },
    }
}

/// What is wrong with the value of one declared argument, under a permit.
pub open spec fn value_fault(arg: ArgSpec, v: ArgValue, permit: Permit) -> Option<
    reject::RejectView,
> {
    match (arg.kind, v) {
        (ArgKind::Path, ArgValue::Str(s)) => path_fault(arg.name@, s@, permit),
        (ArgKind::Shell, ArgValue::Str(s)) => shell_fault(arg.name@, s@, permit),
        (ArgKind::Url, ArgValue::Str(s)) => url_fault(arg.name@, s@, permit),
        (ArgKind::Text, ArgValue::Str(s)) => {
            let bytes = vstd::utf8::encode_utf8(s@).len();
            match permit.max_text_bytes {
                Some(cap) => if bytes > cap {
                    Some(reject::arg_too_large_view(arg.name@, bytes, cap as nat))
                } else {
                    None
                },
                None => None,
            }
        },
        (ArgKind::Int, ArgValue::Int(n)) => match permit.max_timeout_ms {
            Some(cap) => if arg.name@ == "timeout_ms"@ && n > cap {
                Some(reject::timeout_above_ceiling_view(n as nat, cap as nat))
            } else {
                None
            },
            None => None,
        },
        _ => None,
    }
}

/// The first fault among the values of the declared arguments from the `k`th
/// on. An argument that is not there has none.
pub open spec fn value_faults(
    tool: Tool,
    entries: Seq<(Seq<char>, ArgValue)>,
    permit: Permit,
    k: int,
) -> Option<reject::RejectView>
    decreases tool.declared().len() - k,
{
    if k < 0 || k >= tool.declared().len() {
        None
    } else {
        let arg = tool.declared()[k];
        let fault = match action::lookup(entries, arg.name@) {
            Some(v) => value_fault(arg, v, permit),
            None => None,
        };
        match fault {
            Some(r) => Some(r),
            None => value_faults(tool, entries, permit, k + 1),
        }
    }
}

/// The tools of a list of permits as a hint lists them.
pub open spec fn permitted_text(permits: Seq<Permit>) -> Seq<char> {
    text::join(Seq::new(permits.len(), |i: int| permits[i].tool.name()), ", "@)
}

/// What the second pass finds.
pub open spec fn semantic_fault(
    rb: Runbook,
    step_idx: int,
    tool: Tool,
    entries: Seq<(Seq<char>, ArgValue)>,
) -> Option<reject::RejectView> {
    if step_idx >= rb.steps@.len() {
        Some(reject::step_unknown_view(step_idx as nat, text::debug_text(rb.name@)))
    } else {
        let step = rb.steps@[step_idx];
        match runbook::permit_for(step.permits@, tool) {
            Some(permit) => value_faults(tool, entries, permit, 0),
            None => match runbook::next_permitting(rb.steps@, tool, step_idx + 1) {
                Some(later) => Some(
                    reject::step_out_of_order_view(
                        tool.name(),
                        text::debug_text(rb.steps@[later].id@),
                        later as nat,
                        text::debug_text(step.id@),
                        step_idx as nat,
                        step.intent@,
                        permitted_text(step.permits@),
                    ),
                ),
                None => Some(
                    reject::tool_not_permitted_view(
                        tool.name(),
                        text::debug_text(step.id@),
                        permitted_text(step.permits@),
                    ),
                ),
            },
        }
    }
}

/// What both passes find, in order.
pub open spec fn fault(
    rb: Runbook,
    step_idx: int,
    tool: Tool,
    entries: Seq<(Seq<char>, ArgValue)>,
) -> Option<reject::RejectView> {
    match syntactic_fault(tool, entries) {
        Some(r) => Some(r),
        None => semantic_fault(rb, step_idx, tool, entries),
    }
}

// ---- what acceptance means ----------------------------------------------
/// A value stays inside the bounds of a permit.
pub open spec fn within_bounds(arg: ArgSpec, v: ArgValue, permit: Permit) -> bool {
    match (arg.kind, v) {
        (ArgKind::Path, ArgValue::Str(s)) => match path::normal(s@) {
            Some(resolved) => permit.path_roots@.len() == 0 || within_roots(
                resolved,
                text::texts(permit.path_roots@),
            ),
            None => false,
        },
        (ArgKind::Shell, ArgValue::Str(s)) => {
            &&& forall|i: int| 0 <= i < s@.len() ==> !metachars().contains(#[trigger] s@[i])
            &&& first_word(s@).len() > 0
            &&& permit.argv0_allow@.len() == 0 || text::texts(permit.argv0_allow@).contains(
                first_word(s@),
            )
        },
        (ArgKind::Url, ArgValue::Str(s)) => match after_scheme(s@) {
            Some(rest) => {
                &&& host_of(rest).len() > 0
                &&& permit.host_allow@.len() == 0 || text::texts(permit.host_allow@).contains(
                    bare_host(host_of(rest)),
                )
            },
            None => false,
        },
        (ArgKind::Text, ArgValue::Str(s)) => permit.max_text_bytes matches Some(cap)
            ==> vstd::utf8::encode_utf8(s@).len() <= cap,
        (ArgKind::Int, ArgValue::Int(n)) => arg.name@ == "timeout_ms"@
            ==> (permit.max_timeout_ms matches Some(cap) ==> n <= cap),
        _ => true,
    }
}

/// The operator authorized the action at the step: there is such a step, it
/// permits the tool, and every declared argument that is there stays inside
/// the bounds of that permit.
pub open spec fn authorized(
    rb: Runbook,
    step_idx: int,
    tool: Tool,
    entries: Seq<(Seq<char>, ArgValue)>,
) -> bool {
    &&& step_idx < rb.steps@.len()
    &&& match runbook::permit_for(rb.steps@[step_idx].permits@, tool) {
        Some(permit) => forall|i: int|
            0 <= i < tool.declared().len() ==> match action::lookup(
                entries,
                (#[trigger] tool.declared()[i]).name@,
            ) {
                Some(v) => within_bounds(tool.declared()[i], v, permit),
                None => true,
            },
        None => false,
    }
}

proof fn lemma_value_fault(arg: ArgSpec, v: ArgValue, permit: Permit)
    ensures
        value_fault(arg, v, permit) is None <==> within_bounds(arg, v, permit),
{
    match (arg.kind, v) {
        (ArgKind::Path, ArgValue::Str(s)) => {
            assert(path::normal(s@) is Some ==> path::absolute(s@));
        },
        (ArgKind::Shell, ArgValue::Str(s)) => {
            let p = text::one_of(metachars());
            text::lemma_first_where_meaning(s@, p);
            let at = text::first_where(s@, p);
            if at < s@.len() {
                assert(metachars().contains(s@[at as int]));
            } else {
                assert forall|i: int| 0 <= i < s@.len() implies !metachars().contains(
                    #[trigger] s@[i],
                ) by {
                    assert(!p(s@[i]));
                }
            }
        },
        _ => {},
    }
}

proof fn lemma_value_faults(
    tool: Tool,
    entries: Seq<(Seq<char>, ArgValue)>,
    permit: Permit,
    k: int,
)
    requires
        0 <= k <= tool.declared().len(),
    ensures
        value_faults(tool, entries, permit, k) is None <==> forall|i: int|
            k <= i < tool.declared().len() ==> match action::lookup(
                entries,
                (#[trigger] tool.declared()[i]).name@,
            ) {
                Some(v) => within_bounds(tool.declared()[i], v, permit),
                None => true,
            },
    decreases tool.declared().len() - k,
{
    if k < tool.declared().len() {
        let arg = tool.declared()[k];
        if let Some(v) = action::lookup(entries, arg.name@) {
            lemma_value_fault(arg, v, permit);
        }
        lemma_value_faults(tool, entries, permit, k + 1);
    }
}

/// The law of the second pass: it finds nothing exactly in actions that the
/// operator authorized at the step.
pub proof fn law_semantic_accepts_authorized(
    rb: Runbook,
    step_idx: int,
    tool: Tool,
    entries: Seq<(Seq<char>, ArgValue)>,
)
    ensures
        semantic_fault(rb, step_idx, tool, entries) is None <==> authorized(
            rb,
            step_idx,
            tool,
            entries,
        ),
{
    if step_idx < rb.steps@.len() {
        if let Some(permit) = runbook::permit_for(rb.steps@[step_idx].permits@, tool) {
            lemma_value_faults(tool, entries, permit, 0);
        }
    }
}

/// The law of containment: at a step whose permit names roots, every path of
/// an accepted action resolves, without `.` or `..` left, to directories that
/// begin with those of one of the roots.
pub proof fn law_accepted_path_is_contained(
    rb: Runbook,
    step_idx: int,
    tool: Tool,
    entries: Seq<(Seq<char>, ArgValue)>,
    k: int,
)
    requires
        fault(rb, step_idx, tool, entries) is None,
        0 <= k < tool.declared().len(),
        tool.declared()[k].kind == ArgKind::Path,
    ensures
        step_idx < rb.steps@.len(),
        ({
            let permit = runbook::permit_for(rb.steps@[step_idx].permits@, tool);
            &&& permit is Some
            &&& action::lookup(entries, tool.declared()[k].name@) matches Some(ArgValue::Str(s))
            &&& path::resolve(s@) matches Some(dirs)
            &&& path::clean(dirs)
            &&& permit->0.path_roots@.len() > 0 ==> exists|i: int|
                0 <= i < permit->0.path_roots@.len() && match path::resolve(
                    (#[trigger] permit->0.path_roots@[i])@,
                ) {
                    Some(root) => root.is_prefix_of(dirs),
                    None => false,
                }
        }),
{
    law_syntactic_accepts_well_formed(tool, entries);
    law_semantic_accepts_authorized(rb, step_idx, tool, entries);
    let permit = runbook::permit_for(rb.steps@[step_idx].permits@, tool)->0;
    let arg = tool.declared()[k];
    assert(arg_well_formed(entries, arg));
    let v = action::lookup(entries, arg.name@)->0;
    assert(within_bounds(arg, v, permit));
    let s = v->Str_0;
    path::law_resolved_is_clean(s@);
    let dirs = path::resolve(s@)->0;
    let roots = text::texts(permit.path_roots@);
    if permit.path_roots@.len() > 0 {
        let i = choose|i: int|
            0 <= i < roots.len() && match path::normal(#[trigger] roots[i]) {
                Some(root) => path::under(path::spell(dirs), root),
                None => false,
            };
        assert(roots[i] == permit.path_roots@[i]@);
        path::law_resolved_is_clean(roots[i]);
        path::law_under_is_segment_prefix(dirs, path::resolve(roots[i])->0);
    }
}

/// The law of order: a tool that the step does not permit is answered
/// differently if a later step permits it than if none does, and is never
/// accepted.
pub proof fn law_order_is_told_from_prohibition(
    rb: Runbook,
    step_idx: int,
    tool: Tool,
    entries: Seq<(Seq<char>, ArgValue)>,
)
    requires
        0 <= step_idx < rb.steps@.len(),
        !runbook::permits_tool(rb.steps@[step_idx].permits@, tool),
    ensures
        ({
            let found = semantic_fault(rb, step_idx, tool, entries);
            let later = exists|i: int|
                step_idx < i < rb.steps@.len() && runbook::permits_tool(
                    (#[trigger] rb.steps@[i]).permits@,
                    tool,
                );
            &&& found is Some
            &&& found->0.code == (if later {
                RejectCode::StepOutOfOrder
            } else {
                RejectCode::ToolNotPermittedAtStep
            })
        }),
{
    runbook::lemma_permit_for(rb.steps@[step_idx].permits@, tool);
    runbook::lemma_next_permitting(rb.steps@, tool, step_idx + 1);
}

/// Executable form of [`within_roots`].
fn in_roots(resolved: &str, roots: &Vec<String>) -> (res: bool)
    ensures
        res == within_roots(resolved@, text::texts(roots@)),
{
    let ghost all = text::texts(roots@);
    let mut i: usize = 0;
    while i < roots.len()
        invariant
            all == text::texts(roots@),
            i <= roots@.len(),
            forall|k: int|
                0 <= k < i ==> match path::normal(#[trigger] all[k]) {
                    Some(root) => !path::under(resolved@, root),
                    None => true,
                },
        decreases roots@.len() - i,
    {
        assert(all[i as int] == roots@[i as int]@);
        match path::normalize_lexical(roots[i].as_str()) {
            Some(root) => {
                if path::is_under(resolved, root.as_str()) {
                    return true;
                }
            },
            None => {},
        }
        i += 1;
    }
    false
}

/// Checks a path argument.
pub fn check_path(arg: &str, value: &str, permit: &Permit) -> (res: Result<(), Reject>)
    ensures
        reject::verdict(res) == path_fault(arg@, value@, *permit),
        res is Ok <==> path_fault(arg@, value@, *permit) is None,
        res matches Err(r) ==> path_fault(arg@, value@, *permit) == Some(
            (reject::RejectView {
                code: r.code,
                reason: r.reason@,
                repair_hint: r.repair_hint@,
            }),
        ),
{
    let ghost roots = text::texts(permit.path_roots@);
    if !path::is_absolute(value) {
        let arg_shown = text::quote(arg);
        let shown = text::quote(value);
        return Err(reject::path_not_absolute(arg, arg_shown.as_str(), shown.as_str()));
    }
    match path::normalize_lexical(value) {
        None => {
            let shown = text::quote(value);
            Err(reject::path_above_root(arg, shown.as_str()))
        },
        Some(resolved) => {
            if permit.path_roots.len() == 0 || in_roots(resolved.as_str(), &permit.path_roots) {
                return Ok(());
            }
            let trimmed = text::without_end_slashes(value);
            let left = !text::same_text(resolved.as_str(), trimmed.as_str()) && text::has_text(
                value,
                "..",
            );
            let shown = text::quote(value);
            let resolved_shown = text::quote(resolved.as_str());
            let roots_shown = text::quote_list(&permit.path_roots);
            let listed = text::join_texts(&permit.path_roots, ", ");
            Err(
                reject::path_outside_root(
                    arg,
                    shown.as_str(),
                    resolved_shown.as_str(),
                    roots_shown.as_str(),
                    listed.as_str(),
                    left,
                ),
            )
        },
    }
}

/// Executable form of [`first_word`].
fn word(s: &str) -> (res: String)
    ensures
        res@ == first_word(s@),
{
    let chars = text::chars_of(s);
    let mut from: usize = 0;
    while from < chars.len() && text::space_char(chars[from])
        invariant
            chars@ == s@,
            from <= chars@.len(),
            forall|k: int| 0 <= k < from ==> !(text::non_space())(#[trigger] chars@[k]),
        decreases chars@.len() - from,
    {
        from += 1;
    }
    proof {
        text::lemma_first_where(s@, text::non_space(), from as int);
    }
    let ghost rest = s@.skip(from as int);
    let mut to: usize = from;
    while to < chars.len() && !text::space_char(chars[to])
        invariant
            chars@ == s@,
            rest == s@.skip(from as int),
            from <= to <= chars@.len(),
            forall|k: int| 0 <= k < to - from ==> !(text::space())(#[trigger] rest[k]),
        decreases chars@.len() - to,
    {
        assert(rest[to - from] == chars@[to as int]);
        to += 1;
    }
    proof {
        if to < chars@.len() {
            assert(rest[to - from] == chars@[to as int]);
        }
        text::lemma_first_where(rest, text::space(), to - from);
        assert(rest.take(to - from) =~= chars@.subrange(from as int, to as int));
    }
    text::text_between(&chars, from, to)
}

/// A command holds a metacharacter exactly if it holds one of those listed.
proof fn lemma_metachars(value: Seq<char>)
    ensures
        text::first_where(value, text::one_of(metachars())) < value.len() <==> value.contains(';')
            || value.contains('|') || value.contains('&') || value.contains('`')
            || value.contains('$') || value.contains('>') || value.contains('<')
            || value.contains('(') || value.contains(')') || value.contains('\n')
            || value.contains('\r'),
{
    let m = metachars();
    let p = text::one_of(m);
    assert(m[0] == ';' && m[1] == '|' && m[2] == '&' && m[3] == '`' && m[4] == '$' && m[5] == '>'
        && m[6] == '<' && m[7] == '(' && m[8] == ')' && m[9] == '\n' && m[10] == '\r');
    text::lemma_first_where_meaning(value, p);
    let at = text::first_where(value, p) as int;
    if at < value.len() {
        assert(m.contains(value[at]));
        assert(value.contains(value[at]));
    } else {
        assert forall|c: char| m.contains(c) implies !#[trigger] value.contains(c) by {
            if value.contains(c) {
                let i = value.index_of(c);
                assert(!p(value[i]));
            }
        }
    }
}

/// Checks a shell argument.
pub fn check_shell(arg: &str, value: &str, permit: &Permit) -> (res: Result<(), Reject>)
    ensures
        (res matches Err(r) && r.code == RejectCode::ShellMetacharacter) <==> value@.contains(';')
            || value@.contains('|') || value@.contains('&') || value@.contains('`')
            || value@.contains('$') || value@.contains('>') || value@.contains('<')
            || value@.contains('(') || value@.contains(')') || value@.contains('\n')
            || value@.contains('\r'),
        reject::verdict(res) == shell_fault(arg@, value@, *permit),
        res is Ok <==> shell_fault(arg@, value@, *permit) is None,
        res matches Err(r) ==> shell_fault(arg@, value@, *permit) == Some(
            (reject::RejectView {
                code: r.code,
                reason: r.reason@,
                repair_hint: r.repair_hint@,
            }),
        ),
{
    let set: Vec<char> = vec![';', '|', '&', '`', '$', '>', '<', '(', ')', '\n', '\r'];
    assert(set@ =~= metachars());
    let chars = text::chars_of(value);
    let at = text::find_any(&chars, &set);
    proof {
        lemma_metachars(value@);
    }
    if at < chars.len() {
        let shown = text::quote(value);
        return Err(reject::shell_metacharacter(arg, chars[at], shown.as_str()));
    }
    let argv0 = word(value);
    if argv0.as_str().is_empty() {
        return Err(reject::empty_command(arg));
    }
    if permit.argv0_allow.len() == 0 || text::lists_text(&permit.argv0_allow, argv0.as_str()) {
        return Ok(());
    }
    let shown = text::quote(argv0.as_str());
    let allow_shown = text::quote_list(&permit.argv0_allow);
    let listed = text::join_texts(&permit.argv0_allow, ", ");
    Err(reject::argv0_not_allowed(shown.as_str(), allow_shown.as_str(), listed.as_str()))
}

/// The text up to the first character of a set.
fn before_any(s: &str, set: &Vec<char>) -> (res: String)
    ensures
        res@ == s@.take(text::first_where(s@, text::one_of(set@)) as int),
{
    let chars = text::chars_of(s);
    let at = text::find_any(&chars, set);
    assert(s@.take(at as int) =~= chars@.subrange(0, at as int));
    text::text_between(&chars, 0, at)
}

/// Executable form of [`after_scheme`].
fn strip_scheme(url: &str) -> (res: Option<String>)
    ensures
        (match res {
            Some(t) => Some(t@),
            None => None,
        }) == after_scheme(url@),
{
    proof {
        reveal_strlit("https://");
        reveal_strlit("http://");
    }
    let chars = text::chars_of(url);
    if text::begins_with(url, "https://") {
        assert(url@.skip(8) =~= chars@.subrange(8, chars@.len() as int));
        Some(text::text_between(&chars, 8, chars.len()))
    } else if text::begins_with(url, "http://") {
        assert(url@.skip(7) =~= chars@.subrange(7, chars@.len() as int));
        Some(text::text_between(&chars, 7, chars.len()))
    } else {
        None
    }
}

/// Executable form of [`host_of`].
fn host(rest: &str) -> (res: String)
    ensures
        res@ == host_of(rest@),
{
    let ends: Vec<char> = vec!['/', '?', '#'];
    assert(ends@ =~= seq!['/', '?', '#']);
    let authority = before_any(rest, &ends);
    let parts = text::split_on(authority.as_str(), '@');
    proof {
        text::lemma_split_nonempty(authority@, '@');
    }
    let last: usize = parts.len() - 1;
    assert(text::texts(parts@).last() == parts@[last as int]@);
    parts[last].clone()
}

/// Checks a URL argument.
pub fn check_url(arg: &str, value: &str, permit: &Permit) -> (res: Result<(), Reject>)
    ensures
        reject::verdict(res) == url_fault(arg@, value@, *permit),
        res is Ok <==> url_fault(arg@, value@, *permit) is None,
        res matches Err(r) ==> url_fault(arg@, value@, *permit) == Some(
            (reject::RejectView {
                code: r.code,
                reason: r.reason@,
                repair_hint: r.repair_hint@,
            }),
        ),
{
    match strip_scheme(value) {
        None => {
            let shown = text::quote(value);
            Err(reject::url_without_scheme(arg, shown.as_str()))
        },
        Some(rest) => {
            let host = host(rest.as_str());
            if host.as_str().is_empty() {
                let shown = text::quote(value);
                return Err(reject::url_without_host(arg, shown.as_str()));
            }
            if permit.host_allow.len() == 0 {
                return Ok(());
            }
            let colon: Vec<char> = vec![':'];
            assert(colon@ =~= seq![':']);
            let bare = before_any(host.as_str(), &colon);
            if text::lists_text(&permit.host_allow, bare.as_str()) {
                return Ok(());
            }
            let shown = text::quote(bare.as_str());
            let allow_shown = text::quote_list(&permit.host_allow);
            let listed = text::join_texts(&permit.host_allow, ", ");
            Err(reject::host_not_allowed(shown.as_str(), allow_shown.as_str(), listed.as_str()))
        },
    }
}

/// One argument of the second pass.
fn check_value(arg: ArgSpec, v: &ArgValue, permit: &Permit) -> (res: Result<(), Reject>)
    ensures
        reject::verdict(res) == value_fault(arg, *v, *permit),
{
    match (arg.kind, v) {
        (ArgKind::Path, ArgValue::Str(s)) => check_path(arg.name, s.as_str(), permit),
        (ArgKind::Shell, ArgValue::Str(s)) => check_shell(arg.name, s.as_str(), permit),
        (ArgKind::Url, ArgValue::Str(s)) => check_url(arg.name, s.as_str(), permit),
        (ArgKind::Text, ArgValue::Str(s)) => {
            let len: usize = s.as_str().as_bytes().len();
            match permit.max_text_bytes {
                Some(cap) => {
                    if len > cap {
                        Err(reject::arg_too_large(arg.name, len, cap))
                    } else {
                        Ok(())
                    }
                },
                None => Ok(()),
            }
        },
        (ArgKind::Int, ArgValue::Int(n)) => {
            match permit.max_timeout_ms {
                Some(cap) => {
                    if text::same_text(arg.name, "timeout_ms") && *n > cap {
                        Err(reject::timeout_above_ceiling(*n, cap))
                    } else {
                        Ok(())
                    }
                },
                None => Ok(()),
            }
        },
        _ => Ok(()),
    }
}

/// Executable form of [`permitted_text`].
fn list_permitted(step: &Step) -> (res: String)
    ensures
        res@ == permitted_text(step.permits@),
{
    let mut names: Vec<String> = Vec::new();
    let mut i: usize = 0;
    while i < step.permits.len()
        invariant
            i <= step.permits@.len(),
            names@.len() == i,
            forall|k: int| 0 <= k < i ==> #[trigger] names@[k]@ == step.permits@[k].tool.name(),
        decreases step.permits@.len() - i,
    {
        names.push(step.permits[i].tool.as_str().to_owned());
        i += 1;
    }
    assert(text::texts(names@) =~= Seq::new(
        step.permits@.len(),
        |i: int| step.permits@[i].tool.name(),
    ));
    text::join_texts(&names, ", ")
}

/// Pass 2: the step contract.
pub fn validate_semantic(rb: &Runbook, step_idx: usize, action: &Action) -> (res: Result<
    (),
    Reject,
>)
    ensures
        reject::verdict(res) == semantic_fault(
            *rb,
            step_idx as int,
            action.tool,
            action.args@,
        ),
        res is Ok <==> semantic_fault(*rb, step_idx as int, action.tool, action.args@) is None,
        res matches Err(r) ==> semantic_fault(*rb, step_idx as int, action.tool, action.args@) == Some(
            (reject::RejectView {
                code: r.code,
                reason: r.reason@,
                repair_hint: r.repair_hint@,
            }),
        ),
        res is Ok <==> authorized(*rb, step_idx as int, action.tool, action.args@),
{
    proof {
        law_semantic_accepts_authorized(*rb, step_idx as int, action.tool, action.args@);
    }
    let step = match rb.step(step_idx) {
        Some(step) => step,
        None => {
            let shown = text::quote(rb.name.as_str());
            return Err(reject::step_unknown(step_idx, shown.as_str()));
        },
    };
    let permit = match step.permit_for(action.tool) {
        Some(permit) => permit,
        None => {
            assert(step_idx < rb.steps.len());
            let shown = text::quote(step.id.as_str());
            let permitted = list_permitted(step);
            match rb.next_step_permitting(action.tool, step_idx + 1) {
                Some(later) => {
                    let later_shown = text::quote(rb.steps[later].id.as_str());
                    return Err(
                        reject::step_out_of_order(
                            action.tool.as_str(),
                            later_shown.as_str(),
                            later,
                            shown.as_str(),
                            step_idx,
                            step.intent.as_str(),
                            permitted.as_str(),
                        ),
                    );
                },
                None => {
                    return Err(
                        reject::tool_not_permitted(
                            action.tool.as_str(),
                            shown.as_str(),
                            permitted.as_str(),
                        ),
                    );
                },
            }
        },
    };
    let declared = action.tool.args();
    let mut i: usize = 0;
    while i < declared.len()
        invariant
            declared@ == action.tool.declared(),
            i <= declared@.len(),
            semantic_fault(*rb, step_idx as int, action.tool, action.args@) is None <==> authorized(
                *rb,
                step_idx as int,
                action.tool,
                action.args@,
            ),
            semantic_fault(*rb, step_idx as int, action.tool, action.args@) == value_faults(
                action.tool,
                action.args@,
                *permit,
                i as int,
            ),
        decreases declared@.len() - i,
    {
        match action.args.get(declared[i].name) {
            Some(v) => {
                match check_value(declared[i], v, permit) {
                    Ok(_) => {},
                    Err(r) => {
                        return Err(r);
                    },
                }
            },
            None => {},
        }
        i += 1;
    }
    Ok(())
}

/// Both passes, in order.
pub fn validate(rb: &Runbook, step_idx: usize, action: &Action) -> (res: Result<(), Reject>)
    ensures
        reject::verdict(res) == fault(*rb, step_idx as int, action.tool, action.args@),
        res is Ok <==> fault(*rb, step_idx as int, action.tool, action.args@) is None,
        res matches Err(r) ==> fault(*rb, step_idx as int, action.tool, action.args@) == Some(
            (reject::RejectView {
                code: r.code,
                reason: r.reason@,
                repair_hint: r.repair_hint@,
            }),
        ),
        res is Ok <==> well_formed(action.tool, action.args@) && authorized(
            *rb,
            step_idx as int,
            action.tool,
            action.args@,
        ),
{
    match validate_syntactic(action) {
        Ok(_) => validate_semantic(rb, step_idx, action),
        Err(r) => Err(r),
    }
}

} // verus!
