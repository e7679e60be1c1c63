//! Rejections: their codes, and the wording of each for the operator and for
//! the model.

use crate::text;
use vstd::prelude::*;
use vstd::string::*;

verus! {

/// Why an action was rejected.
#[derive(Debug, Clone, Copy, PartialEq, Eq, Structural)]
pub enum RejectCode {
    // structure
    MissingArg,
    UnknownArg,
    ArgType,
    ControlCharacter,
    // step contract
    StepUnknown,
    ToolNotPermittedAtStep,
    StepOutOfOrder,
    PathNotAbsolute,
    PathAboveFilesystemRoot,
    PathOutsideRoot,
    Argv0NotAllowed,
    ShellMetacharacter,
    HostNotAllowed,
    UrlMalformed,
    ArgTooLarge,
    TimeoutAboveCeiling,
}

impl RejectCode {
    /// The stable spelling of the code.
    pub open spec fn key(self) -> Seq<char> {
        match self {
            RejectCode::MissingArg => "missing_arg"@,
            RejectCode::UnknownArg => "unknown_arg"@,
            RejectCode::ArgType => "arg_type"@,
            RejectCode::ControlCharacter => "control_character"@,
            RejectCode::StepUnknown => "step_unknown"@,
            RejectCode::ToolNotPermittedAtStep => "tool_not_permitted_at_step"@,
            RejectCode::StepOutOfOrder => "step_out_of_order"@,
            RejectCode::PathNotAbsolute => "path_not_absolute"@,
            RejectCode::PathAboveFilesystemRoot => "path_above_filesystem_root"@,
            RejectCode::PathOutsideRoot => "path_outside_root"@,
            RejectCode::Argv0NotAllowed => "argv0_not_allowed"@,
            RejectCode::ShellMetacharacter => "shell_metacharacter"@,
            RejectCode::HostNotAllowed => "host_not_allowed"@,
            RejectCode::UrlMalformed => "url_malformed"@,
            RejectCode::ArgTooLarge => "arg_too_large"@,
            RejectCode::TimeoutAboveCeiling => "timeout_above_ceiling"@,
        }
    }

    /// The stable spelling of the code, which past failures are retrieved by.
    pub fn as_str(self) -> (res: &'static str)
        ensures
            res@ == self.key(),
            self == RejectCode::MissingArg ==> res@ == "missing_arg"@,
            self == RejectCode::UnknownArg ==> res@ == "unknown_arg"@,
            self == RejectCode::ArgType ==> res@ == "arg_type"@,
            self == RejectCode::ControlCharacter ==> res@ == "control_character"@,
            self == RejectCode::StepUnknown ==> res@ == "step_unknown"@,
            self == RejectCode::ToolNotPermittedAtStep ==> res@ == "tool_not_permitted_at_step"@,
            self == RejectCode::StepOutOfOrder ==> res@ == "step_out_of_order"@,
            self == RejectCode::PathNotAbsolute ==> res@ == "path_not_absolute"@,
            self == RejectCode::PathAboveFilesystemRoot ==> res@ == "path_above_filesystem_root"@,
            self == RejectCode::PathOutsideRoot ==> res@ == "path_outside_root"@,
            self == RejectCode::Argv0NotAllowed ==> res@ == "argv0_not_allowed"@,
            self == RejectCode::ShellMetacharacter ==> res@ == "shell_metacharacter"@,
            self == RejectCode::HostNotAllowed ==> res@ == "host_not_allowed"@,
            self == RejectCode::UrlMalformed ==> res@ == "url_malformed"@,
            self == RejectCode::ArgTooLarge ==> res@ == "arg_too_large"@,
            self == RejectCode::TimeoutAboveCeiling ==> res@ == "timeout_above_ceiling"@,
    {
        match self {
            RejectCode::MissingArg => "missing_arg",
            RejectCode::UnknownArg => "unknown_arg",
            RejectCode::ArgType => "arg_type",
            RejectCode::ControlCharacter => "control_character",
            RejectCode::StepUnknown => "step_unknown",
            RejectCode::ToolNotPermittedAtStep => "tool_not_permitted_at_step",
            RejectCode::StepOutOfOrder => "step_out_of_order",
            RejectCode::PathNotAbsolute => "path_not_absolute",
            RejectCode::PathAboveFilesystemRoot => "path_above_filesystem_root",
            RejectCode::PathOutsideRoot => "path_outside_root",
            RejectCode::Argv0NotAllowed => "argv0_not_allowed",
            RejectCode::ShellMetacharacter => "shell_metacharacter",
            RejectCode::HostNotAllowed => "host_not_allowed",
            RejectCode::UrlMalformed => "url_malformed",
            RejectCode::ArgTooLarge => "arg_too_large",
            RejectCode::TimeoutAboveCeiling => "timeout_above_ceiling",
        }
    }
}

/// The length and two characters of a code's spelling.
spec fn shape(code: RejectCode) -> (nat, char, char) {
    match code {
        RejectCode::MissingArg => (11, 'm', 'n'),
        RejectCode::UnknownArg => (11, 'u', 'w'),
        RejectCode::ArgType => (8, 'a', 'y'),
        RejectCode::ControlCharacter => (17, 'c', 'o'),
        RejectCode::StepUnknown => (12, 's', 'u'),
        RejectCode::ToolNotPermittedAtStep => (26, 't', 'n'),
        RejectCode::StepOutOfOrder => (17, 's', 'o'),
        RejectCode::PathNotAbsolute => (17, 'p', 'n'),
        RejectCode::PathAboveFilesystemRoot => (26, 'p', 'a'),
        RejectCode::PathOutsideRoot => (17, 'p', 'o'),
        RejectCode::Argv0NotAllowed => (17, 'a', '_'),
        RejectCode::ShellMetacharacter => (19, 's', '_'),
        RejectCode::HostNotAllowed => (16, 'h', 'n'),
        RejectCode::UrlMalformed => (13, 'u', 'a'),
        RejectCode::ArgTooLarge => (13, 'a', 'o'),
        RejectCode::TimeoutAboveCeiling => (21, 't', 'u'),
    }
}

proof fn lemma_shape(code: RejectCode)
    ensures
        shape(code) == (code.key().len(), code.key()[0], code.key()[5]),
{
    match code {
        RejectCode::MissingArg => {
            reveal_strlit("missing_arg");
        },
        RejectCode::UnknownArg => {
            reveal_strlit("unknown_arg");
        },
        RejectCode::ArgType => {
            reveal_strlit("arg_type");
        },
        RejectCode::ControlCharacter => {
            reveal_strlit("control_character");
        },
        RejectCode::StepUnknown => {
            reveal_strlit("step_unknown");
        },
        RejectCode::ToolNotPermittedAtStep => {
            reveal_strlit("tool_not_permitted_at_step");
        },
        RejectCode::StepOutOfOrder => {
            reveal_strlit("step_out_of_order");
        },
        RejectCode::PathNotAbsolute => {
            reveal_strlit("path_not_absolute");
        },
        RejectCode::PathAboveFilesystemRoot => {
            reveal_strlit("path_above_filesystem_root");
        },
        RejectCode::PathOutsideRoot => {
            reveal_strlit("path_outside_root");
        },
        RejectCode::Argv0NotAllowed => {
            reveal_strlit("argv0_not_allowed");
        },
        RejectCode::ShellMetacharacter => {
            reveal_strlit("shell_metacharacter");
        },
        RejectCode::HostNotAllowed => {
            reveal_strlit("host_not_allowed");
        },
        RejectCode::UrlMalformed => {
            reveal_strlit("url_malformed");
        },
        RejectCode::ArgTooLarge => {
            reveal_strlit("arg_too_large");
        },
        RejectCode::TimeoutAboveCeiling => {
            reveal_strlit("timeout_above_ceiling");
        },
    }
}

/// The law of codes: no two codes are spelled alike.
pub proof fn law_codes_are_distinct(a: RejectCode, b: RejectCode)
    requires
        a.key() == b.key(),
    ensures
        a == b,
{
    lemma_shape(a);
    lemma_shape(b);
}

/// The law of spellings: a code is spelled as it is named, in lower case with
/// an underscore between words.
pub proof fn law_codes_spell_their_names(code: RejectCode)
    ensures
        code is MissingArg <==> code.key() == "missing_arg"@,
        code is UnknownArg <==> code.key() == "unknown_arg"@,
        code is ArgType <==> code.key() == "arg_type"@,
        code is ControlCharacter <==> code.key() == "control_character"@,
        code is StepUnknown <==> code.key() == "step_unknown"@,
        code is ToolNotPermittedAtStep <==> code.key() == "tool_not_permitted_at_step"@,
        code is StepOutOfOrder <==> code.key() == "step_out_of_order"@,
        code is PathNotAbsolute <==> code.key() == "path_not_absolute"@,
        code is PathAboveFilesystemRoot <==> code.key() == "path_above_filesystem_root"@,
        code is PathOutsideRoot <==> code.key() == "path_outside_root"@,
        code is Argv0NotAllowed <==> code.key() == "argv0_not_allowed"@,
        code is ShellMetacharacter <==> code.key() == "shell_metacharacter"@,
        code is HostNotAllowed <==> code.key() == "host_not_allowed"@,
        code is UrlMalformed <==> code.key() == "url_malformed"@,
        code is ArgTooLarge <==> code.key() == "arg_too_large"@,
        code is TimeoutAboveCeiling <==> code.key() == "timeout_above_ceiling"@,
{
    lemma_shape(RejectCode::MissingArg);
    lemma_shape(RejectCode::UnknownArg);
    lemma_shape(RejectCode::ArgType);
    lemma_shape(RejectCode::ControlCharacter);
    lemma_shape(RejectCode::StepUnknown);
    lemma_shape(RejectCode::ToolNotPermittedAtStep);
    lemma_shape(RejectCode::StepOutOfOrder);
    lemma_shape(RejectCode::PathNotAbsolute);
    lemma_shape(RejectCode::PathAboveFilesystemRoot);
    lemma_shape(RejectCode::PathOutsideRoot);
    lemma_shape(RejectCode::Argv0NotAllowed);
    lemma_shape(RejectCode::ShellMetacharacter);
    lemma_shape(RejectCode::HostNotAllowed);
    lemma_shape(RejectCode::UrlMalformed);
    lemma_shape(RejectCode::ArgTooLarge);
    lemma_shape(RejectCode::TimeoutAboveCeiling);
    lemma_shape(code);
}

/// A rejected action: the code, why, and what to do instead.
#[derive(Debug, Clone, PartialEq, Eq)]
pub struct Reject {
    pub code: RejectCode,
    /// For the operator and the audit log.
    pub reason: String,
    /// For the model: concrete and actionable.
    pub repair_hint: String,
}

/// What a [`Reject`] says.
#[verifier::ext_equal]
pub struct RejectView {
    pub code: RejectCode,
    pub reason: Seq<char>,
    pub repair_hint: Seq<char>,
}

impl View for Reject {
    type V = RejectView;

    open spec fn view(&self) -> RejectView {
        RejectView { code: self.code, reason: self.reason@, repair_hint: self.repair_hint@ }
    }
}

impl Reject {
    /// A rejection from its parts.
    pub fn new(code: RejectCode, reason: String, repair_hint: String) -> (res: Reject)
        ensures
            res.code == code,
            res.reason == reason,
            res.repair_hint == repair_hint,
    {
        Reject { code, reason, repair_hint }
    }

    /// The rejection on one line: the code in brackets, then the reason.
    pub fn to_text(&self) -> (res: String)
        ensures
            res@ == "["@ + self.code.key() + "] "@ + self.reason@,
    {
        let mut res = "[".to_owned();
        res.append(self.code.as_str());
        res.append("] ");
        res.append(self.reason.as_str());
        res
    }
}

/// What a check found: nothing, or the rejection it gave.
pub open spec fn verdict(res: Result<(), Reject>) -> Option<RejectView> {
    match res {
        Ok(_) => None,
        Err(r) => Some(r@),
    }
}

/// A shell metacharacter as it is shown: in single quotes, line breaks
/// escaped.
pub open spec fn metachar_text(c: char) -> Seq<char> {
    if c == '\n' {
        "'\\n'"@
    } else if c == '\r' {
        "'\\r'"@
    } else {
        "'"@.push(c).push('\'')
    }
}

/// Executable form of [`metachar_text`].
pub fn metachar(c: char) -> (res: String)
    ensures
        res@ == metachar_text(c),
        c == '\n' ==> res@ == seq!['\'', '\\', 'n', '\''],
        c == '\r' ==> res@ == seq!['\'', '\\', 'r', '\''],
        c != '\n' && c != '\r' ==> res@ == seq!['\'', c, '\''],
{
    proof {
        reveal_strlit("'\\n'");
        reveal_strlit("'\\r'");
        reveal_strlit("'");
    }
    if c == '\n' {
        "'\\n'".to_owned()
    } else if c == '\r' {
        "'\\r'".to_owned()
    } else {
        let mut res = "'".to_owned();
        res.push(c);
        res.push('\'');
        res
    }
}

/// A required argument is absent.
pub open spec fn missing_arg_view(tool: Seq<char>, arg: Seq<char>, names: Seq<char>) -> RejectView {
    RejectView {
        code: RejectCode::MissingArg,
        reason: "tool "@
            + tool
            + " requires argument \""@
            + arg
            + "\""@,
        repair_hint: "Include the argument \""@
            + arg
            + "\" for tool \""@
            + tool
            + "\". Required arguments, in order: "@
            + names
            + "."@,
    }
}

/// Executable form of [`missing_arg_view`].
pub fn missing_arg(tool: &str, arg: &str, names: &str) -> (res: Reject)
    ensures
        res@ == missing_arg_view(tool@, arg@, names@),
        res.code == RejectCode::MissingArg,
        res.reason@ == "tool "@ + tool@ + " requires argument \""@ + arg@ + "\""@,
        res.repair_hint@ == "Include the argument \""@ + arg@ + "\" for tool \""@ + tool@ + "\". Required arguments, in order: "@
            + names@ + "."@,
{
    let mut reason = "tool ".to_owned();
    reason.append(tool);
    reason.append(" requires argument \"");
    reason.append(arg);
    reason.append("\"");
    let mut repair_hint = "Include the argument \"".to_owned();
    repair_hint.append(arg);
    repair_hint.append("\" for tool \"");
    repair_hint.append(tool);
    repair_hint.append("\". Required arguments, in order: ");
    repair_hint.append(names);
    repair_hint.append(".");
    Reject::new(RejectCode::MissingArg, reason, repair_hint)
}

/// An argument has the wrong type.
pub open spec fn arg_type_view(tool: Seq<char>, arg: Seq<char>, whole: bool) -> RejectView {
    RejectView {
        code: RejectCode::ArgType,
        reason: "argument \""@
            + arg
            + "\" of "@
            + tool
            + " has the wrong type"@,
        repair_hint: if whole {
            "Argument \""@
            + arg
            + "\" must be a whole number, not a string."@
        } else {
            "Argument \""@
            + arg
            + "\" must be a quoted string."@
        },
    }
}

/// Executable form of [`arg_type_view`].
pub fn arg_type(tool: &str, arg: &str, whole: bool) -> (res: Reject)
    ensures
        res@ == arg_type_view(tool@, arg@, whole),
        res.code == RejectCode::ArgType,
        res.reason@ == "argument \""@ + arg@ + "\" of "@ + tool@ + " has the wrong type"@,
        res.repair_hint@ == (if whole {
            "Argument \""@ + arg@ + "\" must be a whole number, not a string."@
        } else {
            "Argument \""@ + arg@ + "\" must be a quoted string."@
        }),
{
    let mut reason = "argument \"".to_owned();
    reason.append(arg);
    reason.append("\" of ");
    reason.append(tool);
    reason.append(" has the wrong type");
    let repair_hint = if whole {
        let mut hint = "Argument \"".to_owned();
        hint.append(arg);
        hint.append("\" must be a whole number, not a string.");
        hint
    } else {
        let mut hint = "Argument \"".to_owned();
        hint.append(arg);
        hint.append("\" must be a quoted string.");
        hint
    };
    Reject::new(RejectCode::ArgType, reason, repair_hint)
}

/// A string argument holds a control character.
pub open spec fn control_character_view(arg: Seq<char>, c: char) -> RejectView {
    RejectView {
        code: RejectCode::ControlCharacter,
        reason: "argument \""@
            + arg
            + "\" contains control character U+"@
            + text::hex(c as nat, 4),
        repair_hint: "Argument \""@
            + arg
            + "\" must not contain control characters or newlines."@,
    }
}

/// Executable form of [`control_character_view`].
pub fn control_character(arg: &str, c: char) -> (res: Reject)
    ensures
        res@ == control_character_view(arg@, c),
        res.code == RejectCode::ControlCharacter,
        res.reason@ == "argument \""@ + arg@ + "\" contains control character U+"@
            + text::hex(c as nat, 4),
        res.repair_hint@ == "Argument \""@ + arg@ + "\" must not contain control characters or newlines."@,
{
    let mut reason = "argument \"".to_owned();
    reason.append(arg);
    reason.append("\" contains control character U+");
    reason.append(text::hex_text(c as u64, 4).as_str());
    let mut repair_hint = "Argument \"".to_owned();
    repair_hint.append(arg);
    repair_hint.append("\" must not contain control characters or newlines.");
    Reject::new(RejectCode::ControlCharacter, reason, repair_hint)
}

/// The tool has no such argument.
pub open spec fn unknown_arg_view(tool: Seq<char>, key: Seq<char>, key_quoted: Seq<char>, names: Seq<char>) -> RejectView {
    RejectView {
        code: RejectCode::UnknownArg,
        reason: "tool "@
            + tool
            + " has no argument "@
            + key_quoted,
        repair_hint: "Remove \""@
            + key
            + "\". Tool \""@
            + tool
            + "\" takes exactly: "@
            + names
            + "."@,
    }
}

/// Executable form of [`unknown_arg_view`].
pub fn unknown_arg(tool: &str, key: &str, key_quoted: &str, names: &str) -> (res: Reject)
    ensures
        res@ == unknown_arg_view(tool@, key@, key_quoted@, names@),
        res.code == RejectCode::UnknownArg,
        res.reason@ == "tool "@ + tool@ + " has no argument "@ + key_quoted@,
        res.repair_hint@ == "Remove \""@ + key@ + "\". Tool \""@ + tool@ + "\" takes exactly: "@
            + names@ + "."@,
{
    let mut reason = "tool ".to_owned();
    reason.append(tool);
    reason.append(" has no argument ");
    reason.append(key_quoted);
    let mut repair_hint = "Remove \"".to_owned();
    repair_hint.append(key);
    repair_hint.append("\". Tool \"");
    repair_hint.append(tool);
    repair_hint.append("\" takes exactly: ");
    repair_hint.append(names);
    repair_hint.append(".");
    Reject::new(RejectCode::UnknownArg, reason, repair_hint)
}

/// A path does not start at the filesystem root.
pub open spec fn path_not_absolute_view(
    arg: Seq<char>,
    arg_quoted: Seq<char>,
    value_quoted: Seq<char>,
) -> RejectView {
    RejectView {
        code: RejectCode::PathNotAbsolute,
        reason: "argument "@
            + arg_quoted
            + " is not an absolute path: "@
            + value_quoted,
        repair_hint: "Argument \""@
            + arg
            + "\" must be an absolute path starting with '/'."@,
    }
}

/// Executable form of [`path_not_absolute_view`].
pub fn path_not_absolute(arg: &str, arg_quoted: &str, value_quoted: &str) -> (res: Reject)
    ensures
        res@ == path_not_absolute_view(arg@, arg_quoted@, value_quoted@),
        res.code == RejectCode::PathNotAbsolute,
        res.reason@ == "argument "@ + arg_quoted@ + " is not an absolute path: "@ + value_quoted@,
        res.repair_hint@ == "Argument \""@ + arg@ + "\" must be an absolute path starting with '/'."@,
{
    let mut reason = "argument ".to_owned();
    reason.append(arg_quoted);
    reason.append(" is not an absolute path: ");
    reason.append(value_quoted);
    let mut repair_hint = "Argument \"".to_owned();
    repair_hint.append(arg);
    repair_hint.append("\" must be an absolute path starting with '/'.");
    Reject::new(RejectCode::PathNotAbsolute, reason, repair_hint)
}

/// A path climbs above the filesystem root.
pub open spec fn path_above_root_view(arg: Seq<char>, value_quoted: Seq<char>) -> RejectView {
    RejectView {
        code: RejectCode::PathAboveFilesystemRoot,
        reason: "path "@
            + value_quoted
            + " climbs above the filesystem root"@,
        repair_hint: "Argument \""@
            + arg
            + "\" contains too many '..' segments."@,
    }
}

/// Executable form of [`path_above_root_view`].
pub fn path_above_root(arg: &str, value_quoted: &str) -> (res: Reject)
    ensures
        res@ == path_above_root_view(arg@, value_quoted@),
        res.code == RejectCode::PathAboveFilesystemRoot,
        res.reason@ == "path "@ + value_quoted@ + " climbs above the filesystem root"@,
        res.repair_hint@ == "Argument \""@ + arg@ + "\" contains too many '..' segments."@,
{
    let mut reason = "path ".to_owned();
    reason.append(value_quoted);
    reason.append(" climbs above the filesystem root");
    let mut repair_hint = "Argument \"".to_owned();
    repair_hint.append(arg);
    repair_hint.append("\" contains too many '..' segments.");
    Reject::new(RejectCode::PathAboveFilesystemRoot, reason, repair_hint)
}

/// A path resolves outside every permitted root.
pub open spec fn path_outside_root_view(arg: Seq<char>, value_quoted: Seq<char>, resolved_quoted: Seq<char>, roots_quoted: Seq<char>, roots: Seq<char>, traversed: bool) -> RejectView {
    RejectView {
        code: RejectCode::PathOutsideRoot,
        reason: "path "@
            + value_quoted
            + " resolves to "@
            + resolved_quoted
            + ", which is outside the permitted root(s) "@
            + roots_quoted,
        repair_hint: if traversed {
            "Argument \""@
            + arg
            + "\" uses '..' to leave the permitted directory: "@
            + value_quoted
            + " resolves to "@
            + resolved_quoted
            + ". Stay within "@
            + roots
            + "."@
        } else {
            "Argument \""@
            + arg
            + "\" must be a path under "@
            + roots
            + "."@
        },
    }
}

/// Executable form of [`path_outside_root_view`].
pub fn path_outside_root(arg: &str, value_quoted: &str, resolved_quoted: &str, roots_quoted: &str, roots: &str, traversed: bool) -> (res: Reject)
    ensures
        res@ == path_outside_root_view(arg@, value_quoted@, resolved_quoted@, roots_quoted@, roots@, traversed),
        res.code == RejectCode::PathOutsideRoot,
        res.reason@ == "path "@ + value_quoted@ + " resolves to "@ + resolved_quoted@ + ", which is outside the permitted root(s) "@
            + roots_quoted@,
        res.repair_hint@ == (if traversed {
            "Argument \""@ + arg@ + "\" uses '..' to leave the permitted directory: "@
                + value_quoted@ + " resolves to "@ + resolved_quoted@ + ". Stay within "@ + roots@
                + "."@
        } else {
            "Argument \""@ + arg@ + "\" must be a path under "@ + roots@ + "."@
        }),
{
    let mut reason = "path ".to_owned();
    reason.append(value_quoted);
    reason.append(" resolves to ");
    reason.append(resolved_quoted);
    reason.append(", which is outside the permitted root(s) ");
    reason.append(roots_quoted);
    let repair_hint = if traversed {
        let mut hint = "Argument \"".to_owned();
        hint.append(arg);
        hint.append("\" uses '..' to leave the permitted directory: ");
        hint.append(value_quoted);
        hint.append(" resolves to ");
        hint.append(resolved_quoted);
        hint.append(". Stay within ");
        hint.append(roots);
        hint.append(".");
        hint
    } else {
        let mut hint = "Argument \"".to_owned();
        hint.append(arg);
        hint.append("\" must be a path under ");
        hint.append(roots);
        hint.append(".");
        hint
    };
    Reject::new(RejectCode::PathOutsideRoot, reason, repair_hint)
}

/// A command holds a character that only a shell would interpret.
pub open spec fn shell_metacharacter_view(arg: Seq<char>, c: char, value_quoted: Seq<char>) -> RejectView {
    RejectView {
        code: RejectCode::ShellMetacharacter,
        reason: "command contains shell metacharacter "@
            + metachar_text(c)
            + ": "@
            + value_quoted,
        repair_hint: "Argument \""@
            + arg
            + "\" is executed directly, not through a shell, so "@
            + metachar_text(c)
            + " cannot work. Issue one command with plain arguments; chaining, pipes and redirection are not available."@,
    }
}

/// Executable form of [`shell_metacharacter_view`].
pub fn shell_metacharacter(arg: &str, c: char, value_quoted: &str) -> (res: Reject)
    ensures
        res@ == shell_metacharacter_view(arg@, c, value_quoted@),
        res.code == RejectCode::ShellMetacharacter,
        res.reason@ == "command contains shell metacharacter "@ + metachar_text(c) + ": "@
            + value_quoted@,
        res.repair_hint@ == "Argument \""@ + arg@ + "\" is executed directly, not through a shell, so "@
            + metachar_text(c) + " cannot work. Issue one command with plain arguments; chaining, pipes and redirection are not available."@,
{
    let mut reason = "command contains shell metacharacter ".to_owned();
    reason.append(metachar(c).as_str());
    reason.append(": ");
    reason.append(value_quoted);
    let mut repair_hint = "Argument \"".to_owned();
    repair_hint.append(arg);
    repair_hint.append("\" is executed directly, not through a shell, so ");
    repair_hint.append(metachar(c).as_str());
    repair_hint.append(" cannot work. Issue one command with plain arguments; chaining, pipes and redirection are not available.");
    Reject::new(RejectCode::ShellMetacharacter, reason, repair_hint)
}

/// A command names nothing to run.
pub open spec fn empty_command_view(arg: Seq<char>) -> RejectView {
    RejectView {
        code: RejectCode::Argv0NotAllowed,
        reason: "command is empty"@,
        repair_hint: "Argument \""@
            + arg
            + "\" must name a command to run."@,
    }
}

/// Executable form of [`empty_command_view`].
pub fn empty_command(arg: &str) -> (res: Reject)
    ensures
        res@ == empty_command_view(arg@),
        res.code == RejectCode::Argv0NotAllowed,
        res.reason@ == "command is empty"@,
        res.repair_hint@ == "Argument \""@ + arg@ + "\" must name a command to run."@,
{
    let reason = "command is empty".to_owned();
    let mut repair_hint = "Argument \"".to_owned();
    repair_hint.append(arg);
    repair_hint.append("\" must name a command to run.");
    Reject::new(RejectCode::Argv0NotAllowed, reason, repair_hint)
}

/// A command is not on the step's allowlist.
pub open spec fn argv0_not_allowed_view(argv0_quoted: Seq<char>, allow_quoted: Seq<char>, allow: Seq<char>) -> RejectView {
    RejectView {
        code: RejectCode::Argv0NotAllowed,
        reason: "command "@
            + argv0_quoted
            + " is not in this step's allowlist "@
            + allow_quoted,
        repair_hint: "At this step the only permitted command(s) are: "@
            + allow
            + "."@,
    }
}

/// Executable form of [`argv0_not_allowed_view`].
pub fn argv0_not_allowed(argv0_quoted: &str, allow_quoted: &str, allow: &str) -> (res: Reject)
    ensures
        res@ == argv0_not_allowed_view(argv0_quoted@, allow_quoted@, allow@),
        res.code == RejectCode::Argv0NotAllowed,
        res.reason@ == "command "@ + argv0_quoted@ + " is not in this step's allowlist "@
            + allow_quoted@,
        res.repair_hint@ == "At this step the only permitted command(s) are: "@ + allow@ + "."@,
{
    let mut reason = "command ".to_owned();
    reason.append(argv0_quoted);
    reason.append(" is not in this step's allowlist ");
    reason.append(allow_quoted);
    let mut repair_hint = "At this step the only permitted command(s) are: ".to_owned();
    repair_hint.append(allow);
    repair_hint.append(".");
    Reject::new(RejectCode::Argv0NotAllowed, reason, repair_hint)
}

/// A URL has neither of the two accepted schemes.
pub open spec fn url_without_scheme_view(arg: Seq<char>, value_quoted: Seq<char>) -> RejectView {
    RejectView {
        code: RejectCode::UrlMalformed,
        reason: "url "@
            + value_quoted
            + " has no http(s) scheme"@,
        repair_hint: "Argument \""@
            + arg
            + "\" must start with http:// or https://."@,
    }
}

/// Executable form of [`url_without_scheme_view`].
pub fn url_without_scheme(arg: &str, value_quoted: &str) -> (res: Reject)
    ensures
        res@ == url_without_scheme_view(arg@, value_quoted@),
        res.code == RejectCode::UrlMalformed,
        res.reason@ == "url "@ + value_quoted@ + " has no http(s) scheme"@,
        res.repair_hint@ == "Argument \""@ + arg@ + "\" must start with http:// or https://."@,
{
    let mut reason = "url ".to_owned();
    reason.append(value_quoted);
    reason.append(" has no http(s) scheme");
    let mut repair_hint = "Argument \"".to_owned();
    repair_hint.append(arg);
    repair_hint.append("\" must start with http:// or https://.");
    Reject::new(RejectCode::UrlMalformed, reason, repair_hint)
}

/// A URL names no host.
pub open spec fn url_without_host_view(arg: Seq<char>, value_quoted: Seq<char>) -> RejectView {
    RejectView {
        code: RejectCode::UrlMalformed,
        reason: "url "@
            + value_quoted
            + " has no host"@,
        repair_hint: "Argument \""@
            + arg
            + "\" must include a hostname."@,
    }
}

/// Executable form of [`url_without_host_view`].
pub fn url_without_host(arg: &str, value_quoted: &str) -> (res: Reject)
    ensures
        res@ == url_without_host_view(arg@, value_quoted@),
        res.code == RejectCode::UrlMalformed,
        res.reason@ == "url "@ + value_quoted@ + " has no host"@,
        res.repair_hint@ == "Argument \""@ + arg@ + "\" must include a hostname."@,
{
    let mut reason = "url ".to_owned();
    reason.append(value_quoted);
    reason.append(" has no host");
    let mut repair_hint = "Argument \"".to_owned();
    repair_hint.append(arg);
    repair_hint.append("\" must include a hostname.");
    Reject::new(RejectCode::UrlMalformed, reason, repair_hint)
}

/// A host is not on the step's allowlist.
pub open spec fn host_not_allowed_view(host_quoted: Seq<char>, allow_quoted: Seq<char>, allow: Seq<char>) -> RejectView {
    RejectView {
        code: RejectCode::HostNotAllowed,
        reason: "host "@
            + host_quoted
            + " is not in this step's allowlist "@
            + allow_quoted,
        repair_hint: "At this step only these hosts may be fetched: "@
            + allow
            + "."@,
    }
}

/// Executable form of [`host_not_allowed_view`].
pub fn host_not_allowed(host_quoted: &str, allow_quoted: &str, allow: &str) -> (res: Reject)
    ensures
        res@ == host_not_allowed_view(host_quoted@, allow_quoted@, allow@),
        res.code == RejectCode::HostNotAllowed,
        res.reason@ == "host "@ + host_quoted@ + " is not in this step's allowlist "@
            + allow_quoted@,
        res.repair_hint@ == "At this step only these hosts may be fetched: "@ + allow@ + "."@,
{
    let mut reason = "host ".to_owned();
    reason.append(host_quoted);
    reason.append(" is not in this step's allowlist ");
    reason.append(allow_quoted);
    let mut repair_hint = "At this step only these hosts may be fetched: ".to_owned();
    repair_hint.append(allow);
    repair_hint.append(".");
    Reject::new(RejectCode::HostNotAllowed, reason, repair_hint)
}

/// The runbook has no step at the index.
pub open spec fn step_unknown_view(step_idx: nat, name_quoted: Seq<char>) -> RejectView {
    RejectView {
        code: RejectCode::StepUnknown,
        reason: "step index "@
            + text::decimal(step_idx)
            + " is past the end of runbook "@
            + name_quoted,
        repair_hint: "The runbook has no further steps."@,
    }
}

/// Executable form of [`step_unknown_view`].
pub fn step_unknown(step_idx: usize, name_quoted: &str) -> (res: Reject)
    ensures
        res@ == step_unknown_view(step_idx as nat, name_quoted@),
        res.code == RejectCode::StepUnknown,
        res.reason@ == "step index "@ + text::decimal(step_idx as nat) + " is past the end of runbook "@
            + name_quoted@,
        res.repair_hint@ == "The runbook has no further steps."@,
{
    let mut reason = "step index ".to_owned();
    reason.append(text::decimal_text(step_idx as u64).as_str());
    reason.append(" is past the end of runbook ");
    reason.append(name_quoted);
    let repair_hint = "The runbook has no further steps.".to_owned();
    Reject::new(RejectCode::StepUnknown, reason, repair_hint)
}

/// The tool belongs to a later step.
pub open spec fn step_out_of_order_view(tool: Seq<char>, later_quoted: Seq<char>, later: nat, step_quoted: Seq<char>, step_idx: nat, intent: Seq<char>, permitted: Seq<char>) -> RejectView {
    RejectView {
        code: RejectCode::StepOutOfOrder,
        reason: "tool "@
            + tool
            + " belongs to step "@
            + later_quoted
            + " (index "@
            + text::decimal(later)
            + "), not the current step "@
            + step_quoted
            + " (index "@
            + text::decimal(step_idx)
            + ")"@,
        repair_hint: "That comes later. The current step is "@
            + step_quoted
            + ": "@
            + intent
            + " Permitted now: "@
            + permitted
            + "."@,
    }
}

/// Executable form of [`step_out_of_order_view`].
pub fn step_out_of_order(tool: &str, later_quoted: &str, later: usize, step_quoted: &str, step_idx: usize, intent: &str, permitted: &str) -> (res: Reject)
    ensures
        res@ == step_out_of_order_view(tool@, later_quoted@, later as nat, step_quoted@, step_idx as nat, intent@, permitted@),
        res.code == RejectCode::StepOutOfOrder,
        res.reason@ == "tool "@ + tool@ + " belongs to step "@ + later_quoted@ + " (index "@
            + text::decimal(later as nat) + "), not the current step "@ + step_quoted@ + " (index "@
            + text::decimal(step_idx as nat) + ")"@,
        res.repair_hint@ == "That comes later. The current step is "@ + step_quoted@ + ": "@
            + intent@ + " Permitted now: "@ + permitted@ + "."@,
{
    let mut reason = "tool ".to_owned();
    reason.append(tool);
    reason.append(" belongs to step ");
    reason.append(later_quoted);
    reason.append(" (index ");
    reason.append(text::decimal_text(later as u64).as_str());
    reason.append("), not the current step ");
    reason.append(step_quoted);
    reason.append(" (index ");
    reason.append(text::decimal_text(step_idx as u64).as_str());
    reason.append(")");
    let mut repair_hint = "That comes later. The current step is ".to_owned();
    repair_hint.append(step_quoted);
    repair_hint.append(": ");
    repair_hint.append(intent);
    repair_hint.append(" Permitted now: ");
    repair_hint.append(permitted);
    repair_hint.append(".");
    Reject::new(RejectCode::StepOutOfOrder, reason, repair_hint)
}

/// The tool is permitted neither at this step nor at a later one.
pub open spec fn tool_not_permitted_view(tool: Seq<char>, step_quoted: Seq<char>, permitted: Seq<char>) -> RejectView {
    RejectView {
        code: RejectCode::ToolNotPermittedAtStep,
        reason: "tool "@
            + tool
            + " is not permitted at step "@
            + step_quoted
            + " and appears nowhere later in the runbook"@,
        repair_hint: "Tool \""@
            + tool
            + "\" is not available in this runbook. The current step "@
            + step_quoted
            + " permits: "@
            + permitted
            + "."@,
    }
}

/// Executable form of [`tool_not_permitted_view`].
pub fn tool_not_permitted(tool: &str, step_quoted: &str, permitted: &str) -> (res: Reject)
    ensures
        res@ == tool_not_permitted_view(tool@, step_quoted@, permitted@),
        res.code == RejectCode::ToolNotPermittedAtStep,
        res.reason@ == "tool "@ + tool@ + " is not permitted at step "@ + step_quoted@ + " and appears nowhere later in the runbook"@,
        res.repair_hint@ == "Tool \""@ + tool@ + "\" is not available in this runbook. The current step "@
            + step_quoted@ + " permits: "@ + permitted@ + "."@,
{
    let mut reason = "tool ".to_owned();
    reason.append(tool);
    reason.append(" is not permitted at step ");
    reason.append(step_quoted);
    reason.append(" and appears nowhere later in the runbook");
    let mut repair_hint = "Tool \"".to_owned();
    repair_hint.append(tool);
    repair_hint.append("\" is not available in this runbook. The current step ");
    repair_hint.append(step_quoted);
    repair_hint.append(" permits: ");
    repair_hint.append(permitted);
    repair_hint.append(".");
    Reject::new(RejectCode::ToolNotPermittedAtStep, reason, repair_hint)
}

/// A text argument is over the step's byte cap.
pub open spec fn arg_too_large_view(arg: Seq<char>, len: nat, cap: nat) -> RejectView {
    RejectView {
        code: RejectCode::ArgTooLarge,
        reason: "argument \""@
            + arg
            + "\" is "@
            + text::decimal(len)
            + " bytes, over this step's cap of "@
            + text::decimal(cap),
        repair_hint: "Argument \""@
            + arg
            + "\" must be at most "@
            + text::decimal(cap)
            + " bytes at this step; it was "@
            + text::decimal(len)
            + "."@,
    }
}

/// Executable form of [`arg_too_large_view`].
pub fn arg_too_large(arg: &str, len: usize, cap: usize) -> (res: Reject)
    ensures
        res@ == arg_too_large_view(arg@, len as nat, cap as nat),
        res.code == RejectCode::ArgTooLarge,
        res.reason@ == "argument \""@ + arg@ + "\" is "@ + text::decimal(len as nat) + " bytes, over this step's cap of "@
            + text::decimal(cap as nat),
        res.repair_hint@ == "Argument \""@ + arg@ + "\" must be at most "@
            + text::decimal(cap as nat) + " bytes at this step; it was "@
            + text::decimal(len as nat) + "."@,
{
    let mut reason = "argument \"".to_owned();
    reason.append(arg);
    reason.append("\" is ");
    reason.append(text::decimal_text(len as u64).as_str());
    reason.append(" bytes, over this step's cap of ");
    reason.append(text::decimal_text(cap as u64).as_str());
    let mut repair_hint = "Argument \"".to_owned();
    repair_hint.append(arg);
    repair_hint.append("\" must be at most ");
    repair_hint.append(text::decimal_text(cap as u64).as_str());
    repair_hint.append(" bytes at this step; it was ");
    repair_hint.append(text::decimal_text(len as u64).as_str());
    repair_hint.append(".");
    Reject::new(RejectCode::ArgTooLarge, reason, repair_hint)
}

/// A timeout is over the step's ceiling.
pub open spec fn timeout_above_ceiling_view(n: nat, cap: nat) -> RejectView {
    RejectView {
        code: RejectCode::TimeoutAboveCeiling,
        reason: "timeout_ms "@
            + text::decimal(n)
            + " exceeds this step's ceiling "@
            + text::decimal(cap),
        repair_hint: "Set \"timeout_ms\" to at most "@
            + text::decimal(cap)
            + "."@,
    }
}

/// Executable form of [`timeout_above_ceiling_view`].
pub fn timeout_above_ceiling(n: u64, cap: u64) -> (res: Reject)
    ensures
        res@ == timeout_above_ceiling_view(n as nat, cap as nat),
        res.code == RejectCode::TimeoutAboveCeiling,
        res.reason@ == "timeout_ms "@ + text::decimal(n as nat) + " exceeds this step's ceiling "@
            + text::decimal(cap as nat),
        res.repair_hint@ == "Set \"timeout_ms\" to at most "@ + text::decimal(cap as nat) + "."@,
{
    let mut reason = "timeout_ms ".to_owned();
    reason.append(text::decimal_text(n).as_str());
    reason.append(" exceeds this step's ceiling ");
    reason.append(text::decimal_text(cap).as_str());
    let mut repair_hint = "Set \"timeout_ms\" to at most ".to_owned();
    repair_hint.append(text::decimal_text(cap).as_str());
    repair_hint.append(".");
    Reject::new(RejectCode::TimeoutAboveCeiling, reason, repair_hint)
}

} // verus!
