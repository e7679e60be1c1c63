//! The step-scoped grammar compiler: from what a step permits to a grammar
//! under which nothing else can be sampled.
//!
//! The grammar fixes the tool names, the spelling and order of the keys, the
//! path roots, commands and hosts as literals, and the digit counts of
//! integers. What a grammar cannot evaluate (path normalization, numeric
//! ceilings, byte caps, step order) is left to the validator.

use crate::action::{ArgKind, ArgSpec, Tool};
use crate::runbook;
use crate::runbook::{Permit, Step};
use crate::scope;
use crate::text;
use vstd::prelude::*;
use vstd::string::*;

verus! {

// ---- symbols and how they are written -----------------------------------
/// One symbol on the right of a grammar rule.
pub enum Symbol {
    /// A literal text.
    Text(Seq<char>),
    /// Any run of characters that neither end nor escape a JSON string.
    FreeChars,
    /// One decimal digit.
    Digit,
    /// A reference to a rule.
    Rule(Seq<char>),
}

/// A character as it stands in a grammar literal.
pub open spec fn escape_char(c: char) -> Seq<char> {
    if c == '"' {
        seq!['\\', '"']
    } else if c == '\\' {
        seq!['\\', '\\']
    } else if c == '\n' {
        seq!['\\', 'n']
    } else if c == '\r' {
        seq!['\\', 'r']
    } else if c == '\t' {
        seq!['\\', 't']
    } else {
        seq![c]
    }
}

/// A text as it stands in a grammar literal.
pub open spec fn escape(s: Seq<char>) -> Seq<char>
    decreases s.len(),
{
    if s.len() == 0 {
        Seq::<char>::empty()
    } else {
        escape(s.drop_last()) + escape_char(s.last())
    }
}

/// A grammar literal: the escaped text between double quotes.
pub open spec fn literal_text(s: Seq<char>) -> Seq<char> {
    seq!['"'] + escape(s) + seq!['"']
}

/// A symbol as it is written.
pub open spec fn symbol_text(sym: Symbol) -> Seq<char> {
    match sym {
        Symbol::Text(s) => literal_text(s),
        Symbol::FreeChars => "char*"@,
        Symbol::Digit => "[0-9]"@,
        Symbol::Rule(name) => name,
    }
}

/// The written forms of a list of symbols.
pub open spec fn symbol_texts(syms: Seq<Symbol>) -> Seq<Seq<char>> {
    Seq::new(syms.len(), |i: int| symbol_text(syms[i]))
}

/// One alternative as it is written.
pub open spec fn alternative_text(alt: Seq<Symbol>) -> Seq<char> {
    text::join(symbol_texts(alt), " "@)
}

/// The written forms of a list of alternatives.
pub open spec fn alternative_texts(alts: Seq<Seq<Symbol>>) -> Seq<Seq<char>> {
    Seq::new(alts.len(), |i: int| alternative_text(alts[i]))
}

/// The right side of a rule as it is written.
pub open spec fn alternatives_text(alts: Seq<Seq<Symbol>>) -> Seq<char> {
    text::join(alternative_texts(alts), " | "@)
}

// ---- the rule of one argument -------------------------------------------
/// A JSON string that begins with a fixed text (its opening quote included)
/// and goes on freely.
pub open spec fn open_string(prefix: Seq<char>) -> Seq<Symbol> {
    seq![Symbol::Text(prefix), Symbol::FreeChars, Symbol::Text(seq!['"'])]
}

/// A path under a root: the opening quote and the root are one literal, so the
/// root cannot be skipped.
pub open spec fn root_alternatives(roots: Seq<Seq<char>>) -> Seq<Seq<Symbol>>
    decreases roots.len(),
{
    if roots.len() == 0 {
        Seq::<Seq<Symbol>>::empty()
    } else {
        root_alternatives(roots.drop_last()).push(open_string(seq!['"'] + roots.last()))
    }
}

/// A command from the list, alone or followed by a space and anything.
pub open spec fn command_alternatives(allow: Seq<Seq<char>>) -> Seq<Seq<Symbol>>
    decreases allow.len(),
{
    if allow.len() == 0 {
        Seq::<Seq<Symbol>>::empty()
    } else {
        command_alternatives(allow.drop_last()).push(
            seq![Symbol::Text(seq!['"'] + allow.last() + seq!['"'])],
        ).push(open_string(seq!['"'] + allow.last() + seq![' ']))
    }
}

/// A URL on a host from the list, under either scheme.
pub open spec fn host_alternatives(hosts: Seq<Seq<char>>) -> Seq<Seq<Symbol>>
    decreases hosts.len(),
{
    if hosts.len() == 0 {
        Seq::<Seq<Symbol>>::empty()
    } else {
        host_alternatives(hosts.drop_last()).push(
            open_string("\"http://"@ + hosts.last() + seq!['/']),
        ).push(open_string("\"https://"@ + hosts.last() + seq!['/']))
    }
}

/// So many digits.
pub open spec fn digits(n: nat) -> Seq<Symbol> {
    Seq::new(n, |i: int| Symbol::Digit)
}

/// From one digit up to so many, and at least one.
pub open spec fn digit_counts(max: nat) -> Seq<Seq<Symbol>>
    decreases max,
{
    if max <= 1 {
        seq![digits(1)]
    } else {
        digit_counts((max - 1) as nat).push(digits(max))
    }
}

/// How many digits an integer argument may have: as many as its ceiling, or
/// nine.
pub open spec fn max_digits(permit: Permit, arg: ArgSpec) -> nat {
    match permit.max_timeout_ms {
        Some(cap) => if arg.name@ == "timeout_ms"@ {
            text::decimal(cap as nat).len()
        } else {
            9
        },
        None => 9,
    }
}

/// The list of a permit that bounds an argument of the given kind.
pub open spec fn bounds(permit: Permit, kind: ArgKind) -> Seq<Seq<char>> {
    match kind {
        ArgKind::Path => text::texts(permit.path_roots@),
        ArgKind::Shell => text::texts(permit.argv0_allow@),
        ArgKind::Url => text::texts(permit.host_allow@),
        _ => Seq::<Seq<char>>::empty(),
    }
}

/// The name of that list.
pub open spec fn bounds_field(kind: ArgKind) -> Seq<char> {
    match kind {
        ArgKind::Path => "path_roots"@,
        ArgKind::Shell => "argv0_allow"@,
        ArgKind::Url => "host_allow"@,
        _ => ""@,
    }
}

/// The alternatives of an argument's own rule; nothing if the permit does not
/// bound it, so that any string will do.
pub open spec fn own_alternatives(permit: Permit, arg: ArgSpec) -> Option<Seq<Seq<Symbol>>> {
    match arg.kind {
        ArgKind::Path => if permit.path_roots@.len() == 0 {
            None
        } else {
            Some(root_alternatives(text::texts(permit.path_roots@)))
        },
        ArgKind::Shell => if permit.argv0_allow@.len() == 0 {
            None
        } else {
            Some(command_alternatives(text::texts(permit.argv0_allow@)))
        },
        ArgKind::Url => if permit.host_allow@.len() == 0 {
            None
        } else {
            Some(host_alternatives(text::texts(permit.host_allow@)))
        },
        ArgKind::Text => None,
        ArgKind::Int => Some(digit_counts(max_digits(permit, arg))),
    }
}

/// A name with dashes in place of underscores.
pub open spec fn dashed(s: Seq<char>) -> Seq<char> {
    Seq::new(
        s.len(),
        |i: int|
            if s[i] == '_' {
                '-'
            } else {
                s[i]
            },
    )
}

/// The name of the rule of an argument under the `i`th permit.
pub open spec fn rule_name(i: nat, arg: ArgSpec) -> Seq<char> {
    "a"@ + text::decimal(i) + "-"@ + dashed(arg.name@)
}

/// The symbol that stands for an argument's value.
pub open spec fn value_symbol(i: nat, permit: Permit, arg: ArgSpec) -> Symbol {
    if own_alternatives(permit, arg) is Some {
        Symbol::Rule(rule_name(i, arg))
    } else {
        Symbol::Rule("freestr"@)
    }
}

/// The rule of an argument as it is written, if it has its own.
pub open spec fn value_rule(i: nat, permit: Permit, arg: ArgSpec) -> Option<Seq<char>> {
    match own_alternatives(permit, arg) {
        Some(alts) => Some(rule_name(i, arg) + " ::= "@ + alternatives_text(alts)),
        None => None,
    }
}

/// The warning for an argument that the permit leaves unbounded. Free text
/// has no bounds to leave out.
pub open spec fn value_warning(title: Seq<char>, permit: Permit, arg: ArgSpec) -> Option<
    Seq<char>,
> {
    let lead = "step "@ + title + ": tool "@ + permit.tool.name() + " argument \""@ + arg.name@;
    match arg.kind {
        ArgKind::Path => if permit.path_roots@.len() == 0 {
            Some(
                lead
                    + "\" has no path_roots — the grammar cannot constrain it, so the semantic pass is the only guard"@,
            )
        } else {
            None
        },
        ArgKind::Shell => if permit.argv0_allow@.len() == 0 {
            Some(
                lead
                    + "\" has no argv0_allow — an unconstrained shell command is samplable"@,
            )
        } else {
            None
        },
        ArgKind::Url => if permit.host_allow@.len() == 0 {
            Some(lead + "\" has no host_allow"@)
        } else {
            None
        },
        _ => None,
    }
}

/// A text that may stand in a grammar literal as it is: no control
/// characters, quotes or backslashes.
pub open spec fn embeddable(s: Seq<char>) -> bool {
    forall|i: int|
        0 <= i < s.len() ==> !text::is_control(#[trigger] s[i]) && s[i] != '"' && s[i] != '\\'
}

/// The first of the texts from the `k`th on that may not be embedded.
pub open spec fn first_hostile(items: Seq<Seq<char>>, k: int) -> Option<Seq<char>>
    decreases items.len() - k,
{
    if k < 0 || k >= items.len() {
        None
    } else if embeddable(items[k]) {
        first_hostile(items, k + 1)
    } else {
        Some(items[k])
    }
}

/// Why an argument's rule cannot be written: the field and the value that may
/// not be embedded.
pub open spec fn value_failure(permit: Permit, arg: ArgSpec) -> Option<(Seq<char>, Seq<char>)> {
    match first_hostile(bounds(permit, arg.kind), 0) {
        Some(value) => Some((bounds_field(arg.kind), value)),
        None => None,
    }
}

// ---- executable forms of the above --------------------------------------
/// Executable form of [`literal_text`].
pub fn literal(s: &str) -> (res: String)
    ensures
        res@ == literal_text(s@),
{
    let chars = text::chars_of(s);
    let mut out = String::new();
    out.push('"');
    let mut i: usize = 0;
    assert(out@ =~= seq!['"'] + escape(chars@.take(0)));
    while i < chars.len()
        invariant
            i <= chars@.len(),
            out@ == seq!['"'] + escape(chars@.take(i as int)),
        decreases chars@.len() - i,
    {
        let ghost before = out@;
        let c = chars[i];
        if c == '"' {
            out.push('\\');
            out.push('"');
        } else if c == '\\' {
            out.push('\\');
            out.push('\\');
        } else if c == '\n' {
            out.push('\\');
            out.push('n');
        } else if c == '\r' {
            out.push('\\');
            out.push('r');
        } else if c == '\t' {
            out.push('\\');
            out.push('t');
        } else {
            out.push(c);
        }
        assert(out@ =~= before + escape_char(c));
        assert(chars@.take(i + 1).drop_last() =~= chars@.take(i as int));
        i += 1;
        assert(out@ =~= seq!['"'] + escape(chars@.take(i as int)));
    }
    assert(chars@.take(i as int) =~= s@);
    out.push('"');
    assert(out@ =~= literal_text(s@));
    out
}

/// A grammar that could not be compiled.
#[derive(Debug, Clone, PartialEq, Eq)]
pub enum GrammarError {
    /// A literal destined for the grammar holds characters that cannot be
    /// safely embedded. It is refused and not escaped: a path root with a
    /// quote in it is the sign of a malformed or hostile runbook.
    UnsafeLiteral { field: String, value: String },
    /// The step permits no tools.
    NoPermits { step_id: String },
}

/// What a [`GrammarError`] says.
pub enum GrammarErrorView {
    UnsafeLiteral { field: Seq<char>, value: Seq<char> },
    NoPermits { step_id: Seq<char> },
}

impl View for GrammarError {
    type V = GrammarErrorView;

    open spec fn view(&self) -> GrammarErrorView {
        match self {
            GrammarError::UnsafeLiteral { field, value } => GrammarErrorView::UnsafeLiteral {
                field: field@,
                value: value@,
            },
            GrammarError::NoPermits { step_id } => GrammarErrorView::NoPermits {
                step_id: step_id@,
            },
        }
    }
}

/// The message of an error, with the text in question as `{:?}` shows it.
pub open spec fn error_message(e: GrammarErrorView, shown: Seq<char>) -> Seq<char> {
    match e {
        GrammarErrorView::UnsafeLiteral { field, value } => "value for "@ + field
            + " cannot be embedded in a grammar literal: "@ + shown,
        GrammarErrorView::NoPermits { step_id } => "step "@ + shown
            + " permits no tools, so no grammar exists"@,
    }
}

impl GrammarError {
    /// The text in question: the refused value, or the step's id.
    pub open spec fn subject(self) -> Seq<char> {
        match self {
            GrammarError::UnsafeLiteral { field, value } => value@,
            GrammarError::NoPermits { step_id } => step_id@,
        }
    }

    /// The message, given the text in question as `{:?}` shows it.
    pub fn message_with(&self, shown: &str) -> (res: String)
        ensures
            res@ == error_message(self@, shown@),
            self matches GrammarError::UnsafeLiteral { field, value } ==> res@ == "value for "@
                + field@ + " cannot be embedded in a grammar literal: "@ + shown@,
            self is NoPermits ==> res@ == "step "@ + shown@
                + " permits no tools, so no grammar exists"@,
    {
        match self {
            GrammarError::UnsafeLiteral { field, value } => {
                let mut res = "value for ".to_owned();
                res.append(field.as_str());
                res.append(" cannot be embedded in a grammar literal: ");
                res.append(shown);
                res
            },
            GrammarError::NoPermits { step_id } => {
                let mut res = "step ".to_owned();
                res.append(shown);
                res.append(" permits no tools, so no grammar exists");
                res
            },
        }
    }

    /// The error on one line.
    pub fn to_text(&self) -> (res: String)
        ensures
            res@ == error_message(self@, text::debug_text(self.subject())),
            self matches GrammarError::UnsafeLiteral { field, value } ==> res@ == "value for "@
                + field@ + " cannot be embedded in a grammar literal: "@ + text::debug_text(value@),
            self matches GrammarError::NoPermits { step_id } ==> res@ == "step "@
                + text::debug_text(step_id@) + " permits no tools, so no grammar exists"@,
    {
        let shown = match self {
            GrammarError::UnsafeLiteral { field, value } => text::quote(value.as_str()),
            GrammarError::NoPermits { step_id } => text::quote(step_id.as_str()),
        };
        self.message_with(shown.as_str())
    }
}

/// Refuses a text that may not be embedded.
pub fn check_safe(field: &str, value: &str) -> (res: Result<(), GrammarError>)
    ensures
        match res {
            Ok(_) => embeddable(value@),
            Err(e) => !embeddable(value@) && e@ == (GrammarErrorView::UnsafeLiteral {
                field: field@,
                value: value@,
            }),
        },
        res is Ok <==> forall|i: int|
            0 <= i < value@.len() ==> {
                let c = #[trigger] value@[i];
                ' ' <= c && (c < '\u{7f}' || '\u{9f}' < c) && c != '"' && c != '\\'
            },
        match res {
            Ok(_) => true,
            Err(GrammarError::UnsafeLiteral { field: f, value: v }) => f@ == field@ && v@ == value@,
            Err(GrammarError::NoPermits { .. }) => false,
        },
{
    let chars = text::chars_of(value);
    let mut i: usize = 0;
    while i < chars.len()
        invariant
            chars@ == value@,
            i <= chars@.len(),
            forall|k: int|
                0 <= k < i ==> !text::is_control(#[trigger] chars@[k]) && chars@[k] != '"'
                    && chars@[k] != '\\' && ' ' <= chars@[k] && (chars@[k] < '\u{7f}' || '\u{9f}'
                    < chars@[k]),
        decreases chars@.len() - i,
    {
        if text::control_char(chars[i]) || chars[i] == '"' || chars[i] == '\\' {
            assert(!embeddable(value@)) by {
                assert(value@[i as int] == chars@[i as int]);
            }
            return Err(
                GrammarError::UnsafeLiteral { field: field.to_owned(), value: value.to_owned() },
            );
        }
        i += 1;
    }
    Ok(())
}

/// How many decimal digits a number has.
pub fn digits_in(n: u64) -> (res: usize)
    ensures
        res == text::decimal(n as nat).len(),
        1 <= res <= 20,
{
    proof {
        reveal_with_fuel(power10, 21);
        lemma_decimal_below(n as nat, 20);
    }
    let shown = text::decimal_text(n);
    text::chars_of(shown.as_str()).len()
}

spec fn power10(k: nat) -> nat
    decreases k,
{
    if k == 0 {
        1
    } else {
        10 * power10((k - 1) as nat)
    }
}

/// A number below the `k`th power of ten has at most `k` digits.
proof fn lemma_decimal_below(n: nat, k: nat)
    requires
        k >= 1,
        n < power10(k),
    ensures
        1 <= text::decimal(n).len() <= k,
    decreases k,
{
    if n >= 10 {
        if k == 1 {
            assert(power10(1) == 10 * power10(0));
        } else {
            lemma_decimal_below(n / 10, (k - 1) as nat);
        }
    }
}

/// Executable form of [`open_string`], written out.
fn open_string_text(prefix: &str) -> (res: String)
    ensures
        res@ == alternative_text(open_string(prefix@)),
{
    let mut res = literal(prefix);
    res.append(" ");
    res.append("char*");
    res.append(" ");
    let quote = literal("\"");
    res.append(quote.as_str());
    proof {
        reveal_strlit("\"");
        assert("\""@ =~= seq!['"']);
        reveal_with_fuel(text::join, 3);
        let parts = symbol_texts(open_string(prefix@));
        assert(parts.drop_last().drop_last() =~= seq![literal_text(prefix@)]);
        assert(parts.drop_last().last() == "char*"@);
        assert(parts.last() == literal_text(seq!['"']));
    }
    res
}

/// Executable form of [`root_alternatives`], written out.
fn root_rule(roots: &Vec<String>) -> (res: Result<String, GrammarError>)
    ensures
        match res {
            Ok(t) => {
                &&& first_hostile(text::texts(roots@), 0) is None
                &&& t@ == alternatives_text(root_alternatives(text::texts(roots@)))
            },
            Err(e) => {
                &&& first_hostile(text::texts(roots@), 0) is Some
                &&& e@ == (GrammarErrorView::UnsafeLiteral {
                    field: "path_roots"@,
                    value: first_hostile(text::texts(roots@), 0)->0,
                })
            },
        },
{
    let ghost all = text::texts(roots@);
    let mut alts: Vec<String> = Vec::new();
    let mut i: usize = 0;
    assert(all.take(0) =~= Seq::<Seq<char>>::empty());
    assert(text::texts(alts@) =~= alternative_texts(root_alternatives(all.take(0))));
    while i < roots.len()
        invariant
            all == text::texts(roots@),
            i <= roots@.len(),
            first_hostile(all, 0) == first_hostile(all, i as int),
            text::texts(alts@) == alternative_texts(root_alternatives(all.take(i as int))),
        decreases roots@.len() - i,
    {
        let root = roots[i].as_str();
        match check_safe("path_roots", root) {
            Ok(_) => {},
            Err(e) => {
                return Err(e);
            },
        }
        let mut prefix = String::new();
        prefix.push('"');
        prefix.append(root);
        assert(prefix@ =~= seq!['"'] + root@);
        let ghost before = text::texts(alts@);
        alts.push(open_string_text(prefix.as_str()));
        assert(all.take(i + 1).drop_last() =~= all.take(i as int));
        assert(text::texts(alts@) =~= before.push(alternative_text(open_string(prefix@))));
        i += 1;
        assert(text::texts(alts@) =~= alternative_texts(root_alternatives(all.take(i as int))));
    }
    assert(all.take(i as int) =~= all);
    Ok(text::join_texts(&alts, " | "))
}

/// Executable form of [`command_alternatives`], written out.
fn command_rule(allow: &Vec<String>) -> (res: Result<String, GrammarError>)
    ensures
        match res {
            Ok(t) => {
                &&& first_hostile(text::texts(allow@), 0) is None
                &&& t@ == alternatives_text(command_alternatives(text::texts(allow@)))
            },
            Err(e) => {
                &&& first_hostile(text::texts(allow@), 0) is Some
                &&& e@ == (GrammarErrorView::UnsafeLiteral {
                    field: "argv0_allow"@,
                    value: first_hostile(text::texts(allow@), 0)->0,
                })
            },
        },
{
    let ghost all = text::texts(allow@);
    let mut alts: Vec<String> = Vec::new();
    let mut i: usize = 0;
    assert(all.take(0) =~= Seq::<Seq<char>>::empty());
    assert(text::texts(alts@) =~= alternative_texts(command_alternatives(all.take(0))));
    while i < allow.len()
        invariant
            all == text::texts(allow@),
            i <= allow@.len(),
            first_hostile(all, 0) == first_hostile(all, i as int),
            text::texts(alts@) == alternative_texts(command_alternatives(all.take(i as int))),
        decreases allow@.len() - i,
    {
        let argv0 = allow[i].as_str();
        match check_safe("argv0_allow", argv0) {
            Ok(_) => {},
            Err(e) => {
                return Err(e);
            },
        }
        let mut whole = String::new();
        whole.push('"');
        whole.append(argv0);
        let mut prefix = whole.clone();
        whole.push('"');
        prefix.push(' ');
        assert(whole@ =~= seq!['"'] + argv0@ + seq!['"']);
        assert(prefix@ =~= seq!['"'] + argv0@ + seq![' ']);
        let ghost before = text::texts(alts@);
        let ghost alone = seq![Symbol::Text(whole@)];
        alts.push(literal(whole.as_str()));
        alts.push(open_string_text(prefix.as_str()));
        assert(symbol_texts(alone) =~= seq![literal_text(whole@)]);
        assert(alternative_text(alone) == literal_text(whole@));
        assert(all.take(i + 1).drop_last() =~= all.take(i as int));
        assert(text::texts(alts@) =~= before.push(alternative_text(alone)).push(
            alternative_text(open_string(prefix@)),
        ));
        i += 1;
        assert(text::texts(alts@) =~= alternative_texts(command_alternatives(all.take(i as int))));
    }
    assert(all.take(i as int) =~= all);
    Ok(text::join_texts(&alts, " | "))
}

/// Executable form of [`host_alternatives`], written out.
fn host_rule(hosts: &Vec<String>) -> (res: Result<String, GrammarError>)
    ensures
        match res {
            Ok(t) => {
                &&& first_hostile(text::texts(hosts@), 0) is None
                &&& t@ == alternatives_text(host_alternatives(text::texts(hosts@)))
            },
            Err(e) => {
                &&& first_hostile(text::texts(hosts@), 0) is Some
                &&& e@ == (GrammarErrorView::UnsafeLiteral {
                    field: "host_allow"@,
                    value: first_hostile(text::texts(hosts@), 0)->0,
                })
            },
        },
{
    let ghost all = text::texts(hosts@);
    let mut alts: Vec<String> = Vec::new();
    let mut i: usize = 0;
    assert(all.take(0) =~= Seq::<Seq<char>>::empty());
    assert(text::texts(alts@) =~= alternative_texts(host_alternatives(all.take(0))));
    while i < hosts.len()
        invariant
            all == text::texts(hosts@),
            i <= hosts@.len(),
            first_hostile(all, 0) == first_hostile(all, i as int),
            text::texts(alts@) == alternative_texts(host_alternatives(all.take(i as int))),
        decreases hosts@.len() - i,
    {
        let host = hosts[i].as_str();
        match check_safe("host_allow", host) {
            Ok(_) => {},
            Err(e) => {
                return Err(e);
            },
        }
        let mut plain = "\"http://".to_owned();
        plain.append(host);
        plain.push('/');
        let mut secure = "\"https://".to_owned();
        secure.append(host);
        secure.push('/');
        assert(plain@ =~= "\"http://"@ + host@ + seq!['/']);
        assert(secure@ =~= "\"https://"@ + host@ + seq!['/']);
        let ghost before = text::texts(alts@);
        alts.push(open_string_text(plain.as_str()));
        alts.push(open_string_text(secure.as_str()));
        assert(all.take(i + 1).drop_last() =~= all.take(i as int));
        assert(text::texts(alts@) =~= before.push(alternative_text(open_string(plain@))).push(
            alternative_text(open_string(secure@)),
        ));
        i += 1;
        assert(text::texts(alts@) =~= alternative_texts(host_alternatives(all.take(i as int))));
    }
    assert(all.take(i as int) =~= all);
    Ok(text::join_texts(&alts, " | "))
}

/// Executable form of [`digit_counts`], written out: alternatives of one up
/// to so many digits, without repetition counts.
pub fn digit_alternatives(max_digits: usize) -> (res: String)
    ensures
        res@ == alternatives_text(digit_counts(max_digits as nat)),
{
    let mut one = "[0-9]".to_owned();
    let mut alts: Vec<String> = Vec::new();
    alts.push(one.clone());
    let mut n: usize = 1;
    proof {
        assert(symbol_texts(digits(1)) =~= seq!["[0-9]"@]);
        assert(text::texts(alts@) =~= alternative_texts(digit_counts(1)));
        if max_digits == 0 {
            assert(digit_counts(0) =~= digit_counts(1));
        }
    }
    while n < max_digits
        invariant
            1 <= n,
            n <= max_digits || (max_digits == 0 && n == 1),
            digit_counts(0) == digit_counts(1),
            one@ == alternative_text(digits(n as nat)),
            text::texts(alts@) == alternative_texts(digit_counts(n as nat)),
        decreases max_digits - n,
    {
        let ghost before = text::texts(alts@);
        one.append(" ");
        one.append("[0-9]");
        proof {
            let parts = symbol_texts(digits((n + 1) as nat));
            assert(parts.drop_last() =~= symbol_texts(digits(n as nat)));
            assert(parts.last() == "[0-9]"@);
        }
        alts.push(one.clone());
        assert(text::texts(alts@) =~= before.push(one@));
        n += 1;
        assert(text::texts(alts@) =~= alternative_texts(digit_counts(n as nat)));
    }
    text::join_texts(&alts, " | ")
}

// ---- the rule of one permit, and the whole grammar ----------------------
/// The fixed text before an action's first argument.
pub open spec fn opening(tool: Tool) -> Seq<char> {
    "{\"tool\":\""@ + tool.name() + "\",\"args\":{"@
}

/// The fixed text before the value of the `j`th argument.
pub open spec fn lead(tool: Tool, j: int) -> Seq<char> {
    (if j == 0 {
        opening(tool)
    } else {
        ","@
    }) + "\""@ + tool.declared()[j].name@ + "\":"@
}

/// The fixed text after the last argument.
pub open spec fn closing(tool: Tool) -> Seq<char> {
    (if tool.declared().len() == 0 {
        opening(tool)
    } else {
        Seq::<char>::empty()
    }) + "}}"@
}

/// The symbols of an action up to its `n`th argument: fixed text and values in
/// turn.
pub open spec fn action_symbols(i: nat, permit: Permit, n: int) -> Seq<Symbol>
    decreases n,
{
    if n <= 0 {
        Seq::<Symbol>::empty()
    } else {
        action_symbols(i, permit, n - 1).push(Symbol::Text(lead(permit.tool, n - 1))).push(
            value_symbol(i, permit, permit.tool.declared()[n - 1]),
        )
    }
}

/// The symbols of an action under the `i`th permit.
pub open spec fn action_alternative(i: nat, permit: Permit) -> Seq<Symbol> {
    action_symbols(i, permit, permit.tool.declared().len() as int).push(
        Symbol::Text(closing(permit.tool)),
    )
}

/// The name of the rule of the `i`th permit.
pub open spec fn action_rule_name(i: nat) -> Seq<char> {
    "act-"@ + text::decimal(i)
}

/// The rule of the `i`th permit as it is written.
pub open spec fn action_rule(i: nat, permit: Permit) -> Seq<char> {
    action_rule_name(i) + " ::= "@ + alternative_text(action_alternative(i, permit))
}

/// The rules of the first `n` arguments that have their own.
pub open spec fn permit_value_rules(i: nat, permit: Permit, n: int) -> Seq<Seq<char>>
    decreases n,
{
    if n <= 0 {
        Seq::<Seq<char>>::empty()
    } else {
        let before = permit_value_rules(i, permit, n - 1);
        match value_rule(i, permit, permit.tool.declared()[n - 1]) {
            Some(rule) => before.push(rule),
            None => before,
        }
    }
}

/// The warnings for the first `n` arguments.
pub open spec fn permit_warnings(title: Seq<char>, permit: Permit, n: int) -> Seq<Seq<char>>
    decreases n,
{
    if n <= 0 {
        Seq::<Seq<char>>::empty()
    } else {
        let before = permit_warnings(title, permit, n - 1);
        match value_warning(title, permit, permit.tool.declared()[n - 1]) {
            Some(w) => before.push(w),
            None => before,
        }
    }
}

/// The first failure among the arguments from the `k`th on.
pub open spec fn permit_failure(permit: Permit, k: int) -> Option<(Seq<char>, Seq<char>)>
    decreases permit.tool.declared().len() - k,
{
    if k < 0 || k >= permit.tool.declared().len() {
        None
    } else {
        match value_failure(permit, permit.tool.declared()[k]) {
            Some(f) => Some(f),
            None => permit_failure(permit, k + 1),
        }
    }
}

/// The names of the rules of the first `n` permits.
pub open spec fn action_rule_names(n: nat) -> Seq<Seq<char>> {
    Seq::new(n, |i: int| action_rule_name(i as nat))
}

/// The rules of the first `n` permits.
pub open spec fn action_rules(permits: Seq<Permit>, n: nat) -> Seq<Seq<char>> {
    Seq::new(n, |i: int| action_rule(i as nat, permits[i]))
}

/// The value rules under the first `n` permits.
pub open spec fn value_rules(permits: Seq<Permit>, n: int) -> Seq<Seq<char>>
    decreases n,
{
    if n <= 0 {
        Seq::<Seq<char>>::empty()
    } else {
        value_rules(permits, n - 1) + permit_value_rules(
            (n - 1) as nat,
            permits[n - 1],
            permits[n - 1].tool.declared().len() as int,
        )
    }
}

/// The warnings under the first `n` permits.
pub open spec fn warnings(title: Seq<char>, permits: Seq<Permit>, n: int) -> Seq<Seq<char>>
    decreases n,
{
    if n <= 0 {
        Seq::<Seq<char>>::empty()
    } else {
        warnings(title, permits, n - 1) + permit_warnings(
            title,
            permits[n - 1],
            permits[n - 1].tool.declared().len() as int,
        )
    }
}

/// The first failure among the permits from the `k`th on.
pub open spec fn failure(permits: Seq<Permit>, k: int) -> Option<(Seq<char>, Seq<char>)>
    decreases permits.len() - k,
{
    if k < 0 || k >= permits.len() {
        None
    } else {
        match permit_failure(permits[k], 0) {
            Some(f) => Some(f),
            None => failure(permits, k + 1),
        }
    }
}

/// Whether an argument of the permit takes any string.
pub open spec fn takes_any_string(permit: Permit) -> bool {
    exists|j: int|
        0 <= j < permit.tool.declared().len() && own_alternatives(
            permit,
            #[trigger] permit.tool.declared()[j],
        ) is None
}

/// Whether an argument of the permit is a string.
pub open spec fn takes_string(permit: Permit) -> bool {
    exists|j: int|
        0 <= j < permit.tool.declared().len() && (#[trigger] permit.tool.declared()[j]).kind
            != ArgKind::Int
}

/// Rules, each on its line.
pub open spec fn lines(rules: Seq<Seq<char>>) -> Seq<char>
    decreases rules.len(),
{
    if rules.len() == 0 {
        Seq::<char>::empty()
    } else {
        lines(rules.drop_last()) + rules.last() + "\n"@
    }
}

/// The comment at the head of a grammar.
pub open spec fn header(title: Seq<char>, intent: Seq<char>) -> Seq<char> {
    "# mpodol GBNF — step "@ + title + "\n# intent: "@ + intent
        + "\n# Generated per step. Do not hand-edit; edit the runbook's Permit instead.\n"@
        + "# No whitespace productions: the model emits one compact JSON object,\n"@
        + "# which removes indentation as a source of sampling divergence.\n\n"@
}

/// The grammar's rules.
pub open spec fn body(permits: Seq<Permit>) -> Seq<char> {
    "root ::= "@ + text::join(action_rule_names(permits.len()), " | "@) + "\n"@ + lines(
        action_rules(permits, permits.len()),
    ) + lines(value_rules(permits, permits.len() as int)) + (if exists|i: int|
        0 <= i < permits.len() && takes_any_string(#[trigger] permits[i]) {
        "freestr ::= \"\\\"\" char* \"\\\"\"\n"@
    } else {
        Seq::<char>::empty()
    }) + (if exists|i: int| 0 <= i < permits.len() && takes_string(#[trigger] permits[i]) {
        "char ::= [^\"\\\\]\n"@
    } else {
        Seq::<char>::empty()
    })
}

/// What compiling a step gives, for a title that shows the step's id.
pub open spec fn compiled(title: Seq<char>, step: Step) -> Result<
    (Seq<char>, Seq<Seq<char>>),
    GrammarErrorView,
> {
    let permits = step.permits@;
    if permits.len() == 0 {
        Err(GrammarErrorView::NoPermits { step_id: step.id@ })
    } else {
        match failure(permits, 0) {
            Some((field, value)) => Err(GrammarErrorView::UnsafeLiteral { field, value }),
            None => Ok(
                (
                    header(title, step.intent@) + body(permits),
                    warnings(title, permits, permits.len() as int),
                ),
            ),
        }
    }
}

/// A compiled grammar plus the warnings that came with it.
#[derive(Debug, Clone, PartialEq, Eq)]
pub struct CompiledGrammar {
    pub gbnf: String,
    /// Not fatal: the arguments that the operator left unconstrained, so that
    /// the validator is their only guard.
    pub warnings: Vec<String>,
}

/// What a compilation gave.
pub open spec fn outcome(res: Result<CompiledGrammar, GrammarError>) -> Result<
    (Seq<char>, Seq<Seq<char>>),
    GrammarErrorView,
> {
    match res {
        Ok(g) => Ok((g.gbnf@, text::texts(g.warnings@))),
        Err(e) => Err(e@),
    }
}

/// What one argument adds to a grammar.
struct ArgPiece {
    symbol: String,
    rule: Option<String>,
    warning: Option<String>,
}

spec fn opt_text(o: Option<String>) -> Option<Seq<char>> {
    match o {
        Some(s) => Some(s@),
        None => None,
    }
}

/// Executable form of [`dashed`].
fn with_dashes(s: &str) -> (res: String)
    ensures
        res@ == dashed(s@),
{
    let chars = text::chars_of(s);
    let mut res = String::new();
    let mut i: usize = 0;
    while i < chars.len()
        invariant
            chars@ == s@,
            i <= chars@.len(),
            res@ == dashed(s@).take(i as int),
        decreases chars@.len() - i,
    {
        res.push(
            if chars[i] == '_' {
                '-'
            } else {
                chars[i]
            },
        );
        i += 1;
        assert(dashed(s@).take(i as int) =~= dashed(s@).take(i - 1).push(dashed(s@)[i - 1]));
    }
    assert(dashed(s@).take(i as int) =~= dashed(s@));
    res
}

/// Executable form of [`rule_name`].
fn name_rule(i: usize, arg: ArgSpec) -> (res: String)
    ensures
        res@ == rule_name(i as nat, arg),
{
    let mut res = "a".to_owned();
    res.append(text::decimal_text(i as u64).as_str());
    res.append("-");
    res.append(with_dashes(arg.name).as_str());
    res
}

/// The warning for an unbounded argument, up to what is missing.
fn warning_lead(title: &str, permit: &Permit, arg: ArgSpec) -> (res: String)
    ensures
        res@ == "step "@ + title@ + ": tool "@ + permit.tool.name() + " argument \""@ + arg.name@,
{
    let mut res = "step ".to_owned();
    res.append(title);
    res.append(": tool ");
    res.append(permit.tool.as_str());
    res.append(" argument \"");
    res.append(arg.name);
    res
}

/// The piece of an argument that has its own rule.
fn bound_piece(i: usize, arg: ArgSpec, alternatives: String) -> (res: ArgPiece)
    ensures
        res.symbol@ == rule_name(i as nat, arg),
        opt_text(res.rule) == Some(rule_name(i as nat, arg) + " ::= "@ + alternatives@),
        res.warning is None,
{
    let name = name_rule(i, arg);
    let mut rule = name.clone();
    rule.append(" ::= ");
    rule.append(alternatives.as_str());
    ArgPiece { symbol: name, rule: Some(rule), warning: None }
}

/// The piece of an argument that takes any string.
fn free_piece(warning: Option<String>) -> (res: ArgPiece)
    ensures
        res.symbol@ == "freestr"@,
        res.rule is None,
        res.warning == warning,
{
    ArgPiece { symbol: "freestr".to_owned(), rule: None, warning }
}

/// What an argument under the `i`th permit adds to the grammar.
fn compile_arg(title: &str, i: usize, permit: &Permit, arg: ArgSpec) -> (res: Result<
    ArgPiece,
    GrammarError,
>)
    ensures
        match res {
            Ok(piece) => {
                &&& value_failure(*permit, arg) is None
                &&& piece.symbol@ == symbol_text(value_symbol(i as nat, *permit, arg))
                &&& opt_text(piece.rule) == value_rule(i as nat, *permit, arg)
                &&& opt_text(piece.warning) == value_warning(title@, *permit, arg)
            },
            Err(e) => {
                &&& value_failure(*permit, arg) matches Some((field, value))
                &&& e@ == (GrammarErrorView::UnsafeLiteral { field, value })
            },
        },
{
    match arg.kind {
        ArgKind::Path => {
            if permit.path_roots.len() == 0 {
                let mut warning = warning_lead(title, permit, arg);
                warning.append(
                    "\" has no path_roots — the grammar cannot constrain it, so the semantic pass is the only guard",
                );
                Ok(free_piece(Some(warning)))
            } else {
                match root_rule(&permit.path_roots) {
                    Ok(alts) => Ok(bound_piece(i, arg, alts)),
                    Err(e) => Err(e),
                }
            }
        },
        ArgKind::Shell => {
            if permit.argv0_allow.len() == 0 {
                let mut warning = warning_lead(title, permit, arg);
                warning.append(
                    "\" has no argv0_allow — an unconstrained shell command is samplable",
                );
                Ok(free_piece(Some(warning)))
            } else {
                match command_rule(&permit.argv0_allow) {
                    Ok(alts) => Ok(bound_piece(i, arg, alts)),
                    Err(e) => Err(e),
                }
            }
        },
        ArgKind::Url => {
            if permit.host_allow.len() == 0 {
                let mut warning = warning_lead(title, permit, arg);
                warning.append("\" has no host_allow");
                Ok(free_piece(Some(warning)))
            } else {
                match host_rule(&permit.host_allow) {
                    Ok(alts) => Ok(bound_piece(i, arg, alts)),
                    Err(e) => Err(e),
                }
            }
        },
        ArgKind::Text => Ok(free_piece(None)),
        ArgKind::Int => {
            let max: usize = match permit.max_timeout_ms {
                Some(cap) => if text::same_text(arg.name, "timeout_ms") {
                    digits_in(cap)
                } else {
                    9
                },
                None => 9,
            };
            Ok(bound_piece(i, arg, digit_alternatives(max)))
        },
    }
}

/// What one permit adds to a grammar.
struct PermitPiece {
    action_rule: String,
    value_rules: Vec<String>,
    warnings: Vec<String>,
    any_string: bool,
    string: bool,
}

/// Executable form of [`opening`].
fn open_action(tool: Tool) -> (res: String)
    ensures
        res@ == opening(tool),
{
    let mut res = "{\"tool\":\"".to_owned();
    res.append(tool.as_str());
    res.append("\",\"args\":{");
    res
}

/// What the `i`th permit adds to the grammar.
fn compile_permit(title: &str, i: usize, permit: &Permit) -> (res: Result<
    PermitPiece,
    GrammarError,
>)
    ensures
        match res {
            Ok(piece) => {
                let n = permit.tool.declared().len() as int;
                &&& permit_failure(*permit, 0) is None
                &&& piece.action_rule@ == action_rule(i as nat, *permit)
                &&& text::texts(piece.value_rules@) == permit_value_rules(i as nat, *permit, n)
                &&& text::texts(piece.warnings@) == permit_warnings(title@, *permit, n)
                &&& piece.any_string == takes_any_string(*permit)
                &&& piece.string == takes_string(*permit)
            },
            Err(e) => {
                &&& permit_failure(*permit, 0) matches Some((field, value))
                &&& e@ == (GrammarErrorView::UnsafeLiteral { field, value })
            },
        },
{
    let declared = permit.tool.args();
    let mut parts: Vec<String> = Vec::new();
    let mut value_rules: Vec<String> = Vec::new();
    let mut warnings: Vec<String> = Vec::new();
    let mut any_string = false;
    let mut string = false;
    // The fixed text that has not been written yet.
    let mut pending = open_action(permit.tool);
    let mut j: usize = 0;
    assert(text::texts(parts@) =~= symbol_texts(action_symbols(i as nat, *permit, 0)));
    assert(text::texts(value_rules@) =~= permit_value_rules(i as nat, *permit, 0));
    assert(text::texts(warnings@) =~= permit_warnings(title@, *permit, 0));
    while j < declared.len()
        invariant
            declared@ == permit.tool.declared(),
            j <= declared@.len(),
            permit_failure(*permit, 0) == permit_failure(*permit, j as int),
            pending@ == (if j == 0 {
                opening(permit.tool)
            } else {
                Seq::<char>::empty()
            }),
            text::texts(parts@) == symbol_texts(action_symbols(i as nat, *permit, j as int)),
            text::texts(value_rules@) == permit_value_rules(i as nat, *permit, j as int),
            text::texts(warnings@) == permit_warnings(title@, *permit, j as int),
            any_string == exists|k: int|
                0 <= k < j && own_alternatives(*permit, #[trigger] declared@[k]) is None,
            string == exists|k: int| 0 <= k < j && (#[trigger] declared@[k]).kind != ArgKind::Int,
        decreases declared@.len() - j,
    {
        let arg = declared[j];
        if j > 0 {
            pending.append(",");
        }
        pending.append("\"");
        pending.append(arg.name);
        pending.append("\":");
        assert(pending@ =~= lead(permit.tool, j as int));
        let piece = match compile_arg(title, i, permit, arg) {
            Ok(piece) => piece,
            Err(e) => {
                return Err(e);
            },
        };
        if piece.rule.is_none() {
            any_string = true;
            assert(own_alternatives(*permit, declared@[j as int]) is None);
        }
        if arg.kind != ArgKind::Int {
            string = true;
            assert(declared@[j as int].kind != ArgKind::Int);
        }
        let ghost before_parts = text::texts(parts@);
        parts.push(literal(pending.as_str()));
        parts.push(piece.symbol);
        assert(text::texts(parts@) =~= before_parts.push(
            symbol_text(Symbol::Text(lead(permit.tool, j as int))),
        ).push(symbol_text(value_symbol(i as nat, *permit, arg))));
        let ghost before_rules = text::texts(value_rules@);
        if let Some(rule) = piece.rule {
            value_rules.push(rule);
            assert(text::texts(value_rules@) =~= before_rules.push(rule@));
        }
        let ghost before_warnings = text::texts(warnings@);
        if let Some(warning) = piece.warning {
            warnings.push(warning);
            assert(text::texts(warnings@) =~= before_warnings.push(warning@));
        }
        pending = String::new();
        j += 1;
        assert(text::texts(parts@) =~= symbol_texts(action_symbols(i as nat, *permit, j as int)));
    }
    pending.append("}}");
    assert(pending@ =~= closing(permit.tool));
    let ghost before_parts = text::texts(parts@);
    parts.push(literal(pending.as_str()));
    assert(text::texts(parts@) =~= before_parts.push(
        symbol_text(Symbol::Text(closing(permit.tool))),
    ));
    assert(text::texts(parts@) =~= symbol_texts(action_alternative(i as nat, *permit)));
    let mut action_rule = "act-".to_owned();
    action_rule.append(text::decimal_text(i as u64).as_str());
    action_rule.append(" ::= ");
    action_rule.append(text::join_texts(&parts, " ").as_str());
    Ok(PermitPiece { action_rule, value_rules, warnings, any_string, string })
}

/// Executable form of [`lines`], appended.
fn append_lines(out: &mut String, rules: &Vec<String>)
    ensures
        final(out)@ == old(out)@ + lines(text::texts(rules@)),
{
    let ghost all = text::texts(rules@);
    let ghost before = out@;
    let mut i: usize = 0;
    assert(all.take(0) =~= Seq::<Seq<char>>::empty());
    assert(out@ =~= before + lines(all.take(0)));
    while i < rules.len()
        invariant
            all == text::texts(rules@),
            i <= rules@.len(),
            out@ == before + lines(all.take(i as int)),
        decreases rules@.len() - i,
    {
        assert(all.take(i + 1).drop_last() =~= all.take(i as int));
        out.append(rules[i].as_str());
        out.append("\n");
        i += 1;
        assert(out@ =~= before + lines(all.take(i as int)));
    }
    assert(all.take(i as int) =~= all);
}

/// Adds the texts of one list to the end of another.
fn extend(list: &mut Vec<String>, more: Vec<String>)
    ensures
        text::texts(final(list)@) == text::texts(old(list)@) + text::texts(more@),
{
    let ghost before = list@;
    let mut more = more;
    let ghost added = more@;
    list.append(&mut more);
    assert(text::texts(list@) =~= text::texts(before) + text::texts(added));
}

/// Compiles the grammar of a step, given the title that shows the step's id.
pub fn compile_titled(title: &str, step: &Step) -> (res: Result<CompiledGrammar, GrammarError>)
    ensures
        outcome(res) == compiled(title@, *step),
        match res {
            Ok(g) => compiled(title@, *step) == Ok::<
                (Seq<char>, Seq<Seq<char>>),
                GrammarErrorView,
            >((g.gbnf@, text::texts(g.warnings@))),
            Err(GrammarError::UnsafeLiteral { field, value }) => compiled(title@, *step) == Err::<
                (Seq<char>, Seq<Seq<char>>),
                GrammarErrorView,
            >(GrammarErrorView::UnsafeLiteral { field: field@, value: value@ }),
            Err(GrammarError::NoPermits { step_id }) => step.permits@.len() == 0 && step_id@
                == step.id@,
        },
        res matches Ok(g) ==> g.gbnf@ == "# mpodol GBNF — step "@ + title@ + "\n# intent: "@
            + step.intent@
            + "\n# Generated per step. Do not hand-edit; edit the runbook's Permit instead.\n"@
            + "# No whitespace productions: the model emits one compact JSON object,\n"@
            + "# which removes indentation as a source of sampling divergence.\n\n"@ + body(
            step.permits@,
        ),
        step.permits@.len() == 0 <==> res is Err && res->Err_0 is NoPermits,
        res matches Err(GrammarError::NoPermits { step_id }) ==> step_id@ == step.id@,
{
    if step.permits.len() == 0 {
        return Err(GrammarError::NoPermits { step_id: step.id.clone() });
    }
    let ghost permits = step.permits@;
    let mut names: Vec<String> = Vec::new();
    let mut action_rules: Vec<String> = Vec::new();
    let mut value_rules: Vec<String> = Vec::new();
    let mut warnings: Vec<String> = Vec::new();
    let mut any_string = false;
    let mut string = false;
    let mut i: usize = 0;
    assert(text::texts(names@) =~= action_rule_names(0));
    assert(text::texts(action_rules@) =~= self::action_rules(permits, 0));
    assert(text::texts(value_rules@) =~= self::value_rules(permits, 0));
    assert(text::texts(warnings@) =~= self::warnings(title@, permits, 0));
    while i < step.permits.len()
        invariant
            permits == step.permits@,
            permits.len() > 0,
            i <= permits.len(),
            failure(permits, 0) == failure(permits, i as int),
            text::texts(names@) == action_rule_names(i as nat),
            text::texts(action_rules@) == self::action_rules(permits, i as nat),
            text::texts(value_rules@) == self::value_rules(permits, i as int),
            text::texts(warnings@) == self::warnings(title@, permits, i as int),
            any_string == exists|k: int| 0 <= k < i && takes_any_string(#[trigger] permits[k]),
            string == exists|k: int| 0 <= k < i && takes_string(#[trigger] permits[k]),
        decreases permits.len() - i,
    {
        let piece = match compile_permit(title, i, &step.permits[i]) {
            Ok(piece) => piece,
            Err(e) => {
                return Err(e);
            },
        };
        let mut name = "act-".to_owned();
        name.append(text::decimal_text(i as u64).as_str());
        let ghost before_names = text::texts(names@);
        names.push(name);
        assert(text::texts(names@) =~= before_names.push(action_rule_name(i as nat)));
        let ghost before_rules = text::texts(action_rules@);
        action_rules.push(piece.action_rule);
        assert(text::texts(action_rules@) =~= before_rules.push(
            action_rule(i as nat, permits[i as int]),
        ));
        extend(&mut value_rules, piece.value_rules);
        extend(&mut warnings, piece.warnings);
        if piece.any_string {
            any_string = true;
            assert(takes_any_string(permits[i as int]));
        }
        if piece.string {
            string = true;
            assert(takes_string(permits[i as int]));
        }
        i += 1;
        assert(text::texts(names@) =~= action_rule_names(i as nat));
        assert(text::texts(action_rules@) =~= self::action_rules(permits, i as nat));
    }
    let mut out = "# mpodol GBNF — step ".to_owned();
    out.append(title);
    out.append("\n# intent: ");
    out.append(step.intent.as_str());
    out.append("\n# Generated per step. Do not hand-edit; edit the runbook's Permit instead.\n");
    out.append("# No whitespace productions: the model emits one compact JSON object,\n");
    out.append("# which removes indentation as a source of sampling divergence.\n\n");
    assert(out@ == header(title@, step.intent@));
    let mut rules = "root ::= ".to_owned();
    rules.append(text::join_texts(&names, " | ").as_str());
    rules.append("\n");
    append_lines(&mut rules, &action_rules);
    append_lines(&mut rules, &value_rules);
    let mut freestr = String::new();
    if any_string {
        freestr.append("freestr ::= \"\\\"\" char* \"\\\"\"\n");
    }
    let mut chars = String::new();
    if string {
        chars.append("char ::= [^\"\\\\]\n");
    }
    rules.append(freestr.as_str());
    rules.append(chars.as_str());
    assert(rules@ =~= body(permits));
    out.append(rules.as_str());
    Ok(CompiledGrammar { gbnf: out, warnings })
}

/// Compiles the grammar for a single runbook step. The rules depend on the
/// permits and on those lines of the intent alone that leave its comment.
/// Unless such a line spells a tool's marker out, the grammar can spell exactly
/// the permitted tools.
pub fn compile_step(step: &Step) -> (res: Result<CompiledGrammar, GrammarError>)
    ensures
        outcome(res) == compiled(text::debug_text(step.id@), *step),
        match res {
            Ok(g) => compiled(text::debug_text(step.id@), *step) == Ok::<
                (Seq<char>, Seq<Seq<char>>),
                GrammarErrorView,
            >((g.gbnf@, text::texts(g.warnings@))),
            Err(GrammarError::UnsafeLiteral { field, value }) => compiled(
                text::debug_text(step.id@),
                *step,
            ) == Err::<(Seq<char>, Seq<Seq<char>>), GrammarErrorView>(
                GrammarErrorView::UnsafeLiteral { field: field@, value: value@ },
            ),
            Err(GrammarError::NoPermits { step_id }) => step.permits@.len() == 0 && step_id@
                == step.id@,
        },
        !text::debug_text(step.id@).contains('\n'),
        res matches Ok(g) ==> {
            let n = Tool::vocabulary().len() as int;
            &&& rules_of(g.gbnf@) == scope::rules_text(step.intent@, step.permits@)
            &&& forall|tool: Tool|
                !scope::strays(step.intent@, tool) ==> (#[trigger] spelled(g.gbnf@, n).contains(
                    tool,
                ) <==> runbook::permits_tool(step.permits@, tool))
            &&& scope::quiet(step.intent@) ==> spelled(g.gbnf@, n) == scope::permitted_tools(
                step.permits@,
                n,
            )
        },
{
    let title = text::quote(step.id.as_str());
    let res = compile_titled(title.as_str(), step);
    proof {
        if res is Ok {
            let n = Tool::vocabulary().len() as int;
            scope::law_id_and_intent_reach_no_rule(title@, *step, title@, *step);
            assert forall|tool: Tool| !scope::strays(step.intent@, tool) implies (#[trigger] spelled(
                res->Ok_0.gbnf@,
                n,
            ).contains(tool) <==> runbook::permits_tool(step.permits@, tool)) by {
                scope::law_spellable_is_permitted(title@, *step, tool);
            }
            if scope::quiet(step.intent@) {
                scope::law_spellable_in_vocabulary_order(title@, *step, n);
            }
        }
    }
    res
}

// ---- what a grammar can spell -------------------------------------------
/// The text that stands in a grammar where an action names a tool.
pub open spec fn marker(tool: Tool) -> Seq<char> {
    "\\\"tool\\\":\\\""@ + tool.name()
}

/// A comment line, which nothing can be sampled from.
pub open spec fn is_comment(line: Seq<char>) -> bool {
    line.len() > 0 && line[0] == '#'
}

/// The lines that are not comments, in order.
pub open spec fn uncommented(lines: Seq<Seq<char>>) -> Seq<Seq<char>>
    decreases lines.len(),
{
    if lines.len() == 0 {
        Seq::<Seq<char>>::empty()
    } else {
        let before = uncommented(lines.drop_last());
        if is_comment(lines.last()) {
            before
        } else {
            before.push(lines.last())
        }
    }
}

/// The rules of a grammar's text: its lines but for the comments.
pub open spec fn rules_of(gbnf: Seq<char>) -> Seq<char> {
    text::join(uncommented(text::split(gbnf, '\n')), "\n"@)
}

/// Executable form of [`rules_of`].
fn without_comments(gbnf: &str) -> (res: String)
    ensures
        res@ == rules_of(gbnf@),
{
    let lines = text::split_on(gbnf, '\n');
    let ghost all = text::texts(lines@);
    let mut kept: Vec<String> = Vec::new();
    let mut i: usize = 0;
    assert(all.take(0) =~= Seq::<Seq<char>>::empty());
    assert(text::texts(kept@) =~= uncommented(all.take(0)));
    while i < lines.len()
        invariant
            all == text::texts(lines@),
            i <= lines@.len(),
            text::texts(kept@) == uncommented(all.take(i as int)),
        decreases lines@.len() - i,
    {
        assert(all.take(i + 1).drop_last() =~= all.take(i as int));
        let chars = text::chars_of(lines[i].as_str());
        if !(chars.len() > 0 && chars[0] == '#') {
            let ghost before = text::texts(kept@);
            kept.push(lines[i].clone());
            assert(text::texts(kept@) =~= before.push(all[i as int]));
        }
        i += 1;
    }
    assert(all.take(i as int) =~= all);
    text::join_texts(&kept, "\n")
}

/// The tools among the first `n` of the vocabulary that a grammar can spell:
/// those that its rules name.
pub open spec fn spelled(gbnf: Seq<char>, n: int) -> Seq<Tool>
    decreases n,
{
    if n <= 0 {
        Seq::<Tool>::empty()
    } else {
        let before = spelled(gbnf, n - 1);
        let tool = Tool::vocabulary()[n - 1];
        if text::contains_text(rules_of(gbnf), marker(tool)) {
            before.push(tool)
        } else {
            before
        }
    }
}

/// Which tool names are spellable under a grammar, in vocabulary order: exactly
/// what the model was able to say. Comments do not count.
pub fn spellable_tools(g: &CompiledGrammar) -> (res: Vec<Tool>)
    ensures
        res@ == spelled(g.gbnf@, Tool::vocabulary().len() as int),
        res@ == spelled(g.gbnf@, 6),
{
    let rules = without_comments(g.gbnf.as_str());
    let all = Tool::all();
    let mut res: Vec<Tool> = Vec::new();
    let mut i: usize = 0;
    while i < all.len()
        invariant
            rules@ == rules_of(g.gbnf@),
            all@ == Tool::vocabulary(),
            i <= all@.len(),
            res@ == spelled(g.gbnf@, i as int),
        decreases all@.len() - i,
    {
        let mut mark = "\\\"tool\\\":\\\"".to_owned();
        mark.append(all[i].as_str());
        if text::has_text(rules.as_str(), mark.as_str()) {
            res.push(all[i]);
        }
        i += 1;
    }
    res
}

/// A character that neither ends nor escapes a JSON string.
pub open spec fn is_free(c: char) -> bool {
    c != '"' && c != '\\'
}

/// A text made of such characters.
pub open spec fn all_free(s: Seq<char>) -> bool {
    forall|i: int| 0 <= i < s.len() ==> is_free(#[trigger] s[i])
}

/// The path rule of a permit admits a path: no quote or backslash, and one of
/// the roots, if there are any, as a prefix.
pub open spec fn path_admitted(permit: Permit, path: Seq<char>) -> bool {
    &&& all_free(path)
    &&& permit.path_roots@.len() == 0 || exists|i: int|
        0 <= i < permit.path_roots@.len() && text::starts_with(
            path,
            (#[trigger] permit.path_roots@[i])@,
        )
}

/// Would the grammar's path rule admit this string?
pub fn grammar_admits_path(permit: &Permit, path: &str) -> (res: bool)
    ensures
        res == path_admitted(*permit, path@),
{
    let chars = text::chars_of(path);
    let set: Vec<char> = vec!['"', '\\'];
    let at = text::find_any(&chars, &set);
    proof {
        let p = text::one_of(set@);
        text::lemma_first_where_meaning(chars@, p);
        assert(set@[0] == '"');
        assert(set@[1] == '\\');
        assert forall|i: int| 0 <= i < at implies is_free(#[trigger] chars@[i]) by {
            assert(!p(chars@[i]));
        }
        if at < chars@.len() {
            assert(p(chars@[at as int]));
            assert(!is_free(chars@[at as int]));
        }
    }
    if at < chars.len() {
        return false;
    }
    if permit.path_roots.len() == 0 {
        return true;
    }
    let mut i: usize = 0;
    while i < permit.path_roots.len()
        invariant
            all_free(path@),
            permit.path_roots@.len() > 0,
            i <= permit.path_roots@.len(),
            forall|k: int|
                0 <= k < i ==> !text::starts_with(path@, (#[trigger] permit.path_roots@[k])@),
        decreases permit.path_roots@.len() - i,
    {
        if text::begins_with(path, permit.path_roots[i].as_str()) {
            return true;
        }
        i += 1;
    }
    false
}

// ---- laws of the compiler -----------------------------------------------
/// The symbols of an action, in turn.
pub(crate) proof fn lemma_action_symbols(i: nat, permit: Permit, n: int)
    requires
        0 <= n <= permit.tool.declared().len(),
    ensures
        action_symbols(i, permit, n).len() == 2 * n,
        forall|j: int|
            0 <= j < n ==> {
                &&& action_symbols(i, permit, n)[2 * j] == Symbol::Text(
                    lead(permit.tool, j),
                )
                &&& action_symbols(i, permit, n)[2 * j + 1] == value_symbol(
                    i,
                    permit,
                    #[trigger] permit.tool.declared()[j],
                )
            },
    decreases n,
{
    if n > 0 {
        lemma_action_symbols(i, permit, n - 1);
        let before = action_symbols(i, permit, n - 1);
        let syms = action_symbols(i, permit, n);
        assert forall|j: int| 0 <= j < n implies {
            &&& syms[2 * j] == Symbol::Text(lead(permit.tool, j))
            &&& syms[2 * j + 1] == value_symbol(
                i,
                permit,
                #[trigger] permit.tool.declared()[j],
            )
        } by {
            if j < n - 1 {
                assert(syms[2 * j] == before[2 * j]);
                assert(syms[2 * j + 1] == before[2 * j + 1]);
            }
        }
    }
}

/// The law of keys: an action's rule is its fixed texts and its values in
/// turn, each value after the literal that ends with its key, in the order in
/// which the tool declares them. No other order or spelling can be sampled.
pub proof fn law_keys_are_literals_in_order(i: nat, permit: Permit, j: int)
    requires
        0 <= j < permit.tool.declared().len(),
    ensures
        ({
            let alt = action_alternative(i, permit);
            let arg = permit.tool.declared()[j];
            let key = "\""@ + arg.name@ + "\":"@;
            &&& alt.len() == 2 * permit.tool.declared().len() + 1
            &&& alt[2 * j] matches Symbol::Text(fixed)
            &&& key.is_suffix_of(fixed)
            &&& alt[2 * j + 1] == value_symbol(i, permit, arg)
            &&& alt.last() == Symbol::Text("}}"@)
        }),
{
    let n = permit.tool.declared().len() as int;
    let syms = action_symbols(i, permit, n);
    lemma_action_symbols(i, permit, n);
    let alt = action_alternative(i, permit);
    let arg = permit.tool.declared()[j];
    assert(alt[2 * j] == syms[2 * j]);
    assert(alt[2 * j + 1] == syms[2 * j + 1]);
    let key = "\""@ + arg.name@ + "\":"@;
    let fixed = lead(permit.tool, j);
    let front = if j == 0 {
        opening(permit.tool)
    } else {
        ","@
    };
    assert(fixed =~= front + key);
    assert(key =~= fixed.subrange(fixed.len() - key.len(), fixed.len() as int));
    assert(closing(permit.tool) =~= "}}"@);
}

proof fn lemma_permit_warnings(title: Seq<char>, permit: Permit, n: int, w: Seq<char>)
    requires
        0 <= n <= permit.tool.declared().len(),
    ensures
        permit_warnings(title, permit, n).contains(w) <==> exists|j: int|
            0 <= j < n && value_warning(title, permit, #[trigger] permit.tool.declared()[j])
                == Some(w),
    decreases n,
{
    if n > 0 {
        lemma_permit_warnings(title, permit, n - 1, w);
        let before = permit_warnings(title, permit, n - 1);
        let last = value_warning(title, permit, permit.tool.declared()[n - 1]);
        if before.contains(w) {
            let k = choose|k: int| 0 <= k < before.len() && before[k] == w;
            assert(permit_warnings(title, permit, n)[k] == w);
        }
        if last == Some(w) {
            assert(permit_warnings(title, permit, n)[before.len() as int] == w);
        }
        if permit_warnings(title, permit, n).contains(w) {
            let all = permit_warnings(title, permit, n);
            let k = choose|k: int| 0 <= k < all.len() && all[k] == w;
            if k < before.len() {
                assert(before[k] == w);
            }
        }
    }
}

/// The law of warnings: a step's warnings are just those of its permits'
/// arguments that were left unbounded.
pub proof fn law_unbounded_is_warned(
    title: Seq<char>,
    permits: Seq<Permit>,
    n: int,
    w: Seq<char>,
)
    requires
        0 <= n <= permits.len(),
    ensures
        warnings(title, permits, n).contains(w) <==> exists|i: int, j: int|
            0 <= i < n && 0 <= j < permits[i].tool.declared().len() && value_warning(
                title,
                permits[i],
                #[trigger] permits[i].tool.declared()[j],
            ) == Some(w),
    decreases n,
{
    if n > 0 {
        let p = permits[n - 1];
        let m = p.tool.declared().len() as int;
        law_unbounded_is_warned(title, permits, n - 1, w);
        lemma_permit_warnings(title, p, m, w);
        let before = warnings(title, permits, n - 1);
        let more = permit_warnings(title, p, m);
        let all = warnings(title, permits, n);
        if all.contains(w) {
            let k = choose|k: int| 0 <= k < all.len() && all[k] == w;
            if k < before.len() {
                assert(before[k] == w);
            } else {
                assert(more[k - before.len()] == w);
                let j = choose|j: int|
                    0 <= j < m && value_warning(title, p, #[trigger] p.tool.declared()[j])
                        == Some(w);
                assert(permits[n - 1].tool.declared()[j] == p.tool.declared()[j]);
            }
        }
        if before.contains(w) {
            let k = choose|k: int| 0 <= k < before.len() && before[k] == w;
            assert(all[k] == w);
        }
        if more.contains(w) {
            let k = choose|k: int| 0 <= k < more.len() && more[k] == w;
            assert(all[before.len() + k] == w);
        }
    }
}

/// Every text that would bound an argument of the permit may be embedded.
pub open spec fn bounds_embed(permit: Permit) -> bool {
    forall|j: int, k: int|
        0 <= j < permit.tool.declared().len() && 0 <= k < bounds(
            permit,
            permit.tool.declared()[j].kind,
        ).len() ==> embeddable(#[trigger] bounds(permit, permit.tool.declared()[j].kind)[k])
}

pub(crate) proof fn lemma_first_hostile(items: Seq<Seq<char>>, k: int)
    requires
        0 <= k <= items.len(),
    ensures
        first_hostile(items, k) is None <==> forall|i: int|
            k <= i < items.len() ==> embeddable(#[trigger] items[i]),
    decreases items.len() - k,
{
    if k < items.len() {
        lemma_first_hostile(items, k + 1);
    }
}

pub(crate) proof fn lemma_permit_failure(permit: Permit, k: int)
    requires
        0 <= k <= permit.tool.declared().len(),
    ensures
        permit_failure(permit, k) is None <==> forall|j: int|
            k <= j < permit.tool.declared().len() ==> value_failure(
                permit,
                #[trigger] permit.tool.declared()[j],
            ) is None,
    decreases permit.tool.declared().len() - k,
{
    if k < permit.tool.declared().len() {
        lemma_permit_failure(permit, k + 1);
    }
}

pub(crate) proof fn lemma_failure(permits: Seq<Permit>, k: int)
    requires
        0 <= k <= permits.len(),
    ensures
        failure(permits, k) is None <==> forall|i: int|
            k <= i < permits.len() ==> permit_failure(#[trigger] permits[i], 0) is None,
    decreases permits.len() - k,
{
    if k < permits.len() {
        lemma_failure(permits, k + 1);
    }
}

proof fn lemma_bounds_embed(permit: Permit)
    ensures
        permit_failure(permit, 0) is None <==> bounds_embed(permit),
{
    lemma_permit_failure(permit, 0);
    assert forall|j: int| 0 <= j < permit.tool.declared().len() implies (value_failure(
        permit,
        #[trigger] permit.tool.declared()[j],
    ) is None <==> forall|k: int|
        0 <= k < bounds(permit, permit.tool.declared()[j].kind).len() ==> embeddable(
            #[trigger] bounds(permit, permit.tool.declared()[j].kind)[k],
        )) by {
        lemma_first_hostile(bounds(permit, permit.tool.declared()[j].kind), 0);
    }
    if bounds_embed(permit) {
        assert forall|j: int| 0 <= j < permit.tool.declared().len() implies value_failure(
            permit,
            #[trigger] permit.tool.declared()[j],
        ) is None by {
            assert forall|k: int|
                0 <= k < bounds(
                    permit,
                    permit.tool.declared()[j].kind,
                ).len() implies embeddable(
                #[trigger] bounds(permit, permit.tool.declared()[j].kind)[k],
            ) by {}
        }
    }
    if permit_failure(permit, 0) is None {
        assert forall|j: int, k: int|
            0 <= j < permit.tool.declared().len() && 0 <= k < bounds(
                permit,
                permit.tool.declared()[j].kind,
            ).len() implies embeddable(
            #[trigger] bounds(permit, permit.tool.declared()[j].kind)[k],
        ) by {
            assert(value_failure(permit, permit.tool.declared()[j]) is None);
        }
    }
}

/// The law of refusal: a step compiles exactly if it permits a tool and every
/// text that would bound an argument may be embedded as it is.
pub proof fn law_compiles_unless_hostile(title: Seq<char>, step: Step)
    ensures
        compiled(title, step) is Ok <==> step.permits@.len() > 0 && forall|i: int|
            0 <= i < step.permits@.len() ==> bounds_embed(#[trigger] step.permits@[i]),
{
    let permits = step.permits@;
    lemma_failure(permits, 0);
    assert forall|i: int| 0 <= i < permits.len() implies (permit_failure(
        #[trigger] permits[i],
        0,
    ) is None <==> bounds_embed(permits[i])) by {
        lemma_bounds_embed(permits[i]);
    }
    if forall|i: int| 0 <= i < permits.len() ==> bounds_embed(#[trigger] permits[i]) {
        assert forall|i: int| 0 <= i < permits.len() implies permit_failure(
            #[trigger] permits[i],
            0,
        ) is None by {
            assert(bounds_embed(permits[i]));
        }
    }
}

} // verus!
