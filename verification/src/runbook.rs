//! Runbooks: what the operator authorized, step by step.

use crate::action::Tool;
use crate::text;
use vstd::prelude::*;
use vstd::string::*;

verus! {

/// Authorization to use one tool at a step, and the bounds on its arguments.
/// An empty list leaves the matching argument unconstrained.
#[derive(Debug, Clone, PartialEq, Eq)]
pub struct Permit {
    pub tool: Tool,
    /// Directories that path arguments must stay in.
    pub path_roots: Vec<String>,
    /// Commands that a shell argument may name.
    pub argv0_allow: Vec<String>,
    /// Hosts that a URL argument may name.
    pub host_allow: Vec<String>,
    /// Byte cap on each free-text argument.
    pub max_text_bytes: Option<usize>,
    /// Ceiling on a `timeout_ms` argument.
    pub max_timeout_ms: Option<u64>,
}

/// Copies an array of string slices into owned strings.
fn owned<const N: usize>(items: [&str; N]) -> (res: Vec<String>)
    ensures
        res@.len() == N,
        forall|i: int| 0 <= i < N ==> #[trigger] res@[i]@ == items@[i]@,
{
    let mut res: Vec<String> = Vec::new();
    let mut i: usize = 0;
    while i < N
        invariant
            i <= N,
            res@.len() == i,
            forall|k: int| 0 <= k < i ==> #[trigger] res@[k]@ == items@[k]@,
        decreases N - i,
    {
        res.push(items[i].to_owned());
        i += 1;
    }
    res
}

impl Permit {
    /// The tool without any bounds.
    pub fn new(tool: Tool) -> (res: Permit)
        ensures
            res.tool == tool,
            res.path_roots@.len() == 0,
            res.argv0_allow@.len() == 0,
            res.host_allow@.len() == 0,
            res.max_text_bytes is None,
            res.max_timeout_ms is None,
    {
        Permit {
            tool,
            path_roots: Vec::new(),
            argv0_allow: Vec::new(),
            host_allow: Vec::new(),
            max_text_bytes: None,
            max_timeout_ms: None,
        }
    }

    /// Bounds path arguments to the given directories.
    pub fn roots<const N: usize>(self, roots: [&str; N]) -> (res: Permit)
        ensures
            res.path_roots@.len() == N,
            forall|i: int| 0 <= i < N ==> #[trigger] res.path_roots@[i]@ == roots@[i]@,
            res == (Permit { path_roots: res.path_roots, ..self }),
    {
        Permit { path_roots: owned(roots), ..self }
    }

    /// Bounds shell arguments to the given commands.
    pub fn argv0<const N: usize>(self, commands: [&str; N]) -> (res: Permit)
        ensures
            res.argv0_allow@.len() == N,
            forall|i: int| 0 <= i < N ==> #[trigger] res.argv0_allow@[i]@ == commands@[i]@,
            res == (Permit { argv0_allow: res.argv0_allow, ..self }),
    {
        Permit { argv0_allow: owned(commands), ..self }
    }

    /// Bounds URL arguments to the given hosts.
    pub fn hosts<const N: usize>(self, hosts: [&str; N]) -> (res: Permit)
        ensures
            res.host_allow@.len() == N,
            forall|i: int| 0 <= i < N ==> #[trigger] res.host_allow@[i]@ == hosts@[i]@,
            res == (Permit { host_allow: res.host_allow, ..self }),
    {
        Permit { host_allow: owned(hosts), ..self }
    }

    /// Caps free-text arguments at `bytes` bytes.
    pub fn max_text(self, bytes: usize) -> (res: Permit)
        ensures
            res == (Permit { max_text_bytes: Some(bytes), ..self }),
    {
        Permit { max_text_bytes: Some(bytes), ..self }
    }

    /// Caps the `timeout_ms` argument at `ms`.
    pub fn max_timeout(self, ms: u64) -> (res: Permit)
        ensures
            res == (Permit { max_timeout_ms: Some(ms), ..self }),
    {
        Permit { max_timeout_ms: Some(ms), ..self }
    }
}

/// One step of a runbook.
#[derive(Debug, Clone, PartialEq, Eq)]
pub struct Step {
    pub id: String,
    /// What the step is for, in the operator's words.
    pub intent: String,
    pub permits: Vec<Permit>,
}

/// The first of the permits for `tool`.
pub open spec fn permit_for(permits: Seq<Permit>, tool: Tool) -> Option<Permit>
    decreases permits.len(),
{
    if permits.len() == 0 {
        None
    } else if permits[0].tool == tool {
        Some(permits[0])
    } else {
        permit_for(permits.drop_first(), tool)
    }
}

/// Whether any of the permits is for `tool`.
pub open spec fn permits_tool(permits: Seq<Permit>, tool: Tool) -> bool {
    exists|i: int| 0 <= i < permits.len() && #[trigger] permits[i].tool == tool
}

proof fn lemma_permit_at(permits: Seq<Permit>, tool: Tool, i: int)
    requires
        0 <= i <= permits.len(),
        forall|k: int| 0 <= k < i ==> #[trigger] permits[k].tool != tool,
        i < permits.len() ==> permits[i].tool == tool,
    ensures
        permit_for(permits, tool) == (if i < permits.len() {
            Some(permits[i])
        } else {
            None
        }),
    decreases i,
{
    if i > 0 {
        let rest = permits.drop_first();
        assert(permits[0].tool != tool);
        assert forall|k: int| 0 <= k < i - 1 implies #[trigger] rest[k].tool != tool by {
            assert(rest[k] == permits[k + 1]);
        }
        lemma_permit_at(rest, tool, i - 1);
    }
}

/// A step has a permit for a tool exactly if one of its permits is for it,
/// and the permit found is one of them.
pub proof fn lemma_permit_for(permits: Seq<Permit>, tool: Tool)
    ensures
        permit_for(permits, tool) is Some <==> permits_tool(permits, tool),
        permit_for(permits, tool) matches Some(p) ==> p.tool == tool && permits.contains(p),
    decreases permits.len(),
{
    if permits.len() > 0 {
        let rest = permits.drop_first();
        lemma_permit_for(rest, tool);
        if permits[0].tool != tool {
            if permits_tool(permits, tool) {
                let i = choose|i: int|
                    0 <= i < permits.len() && #[trigger] permits[i].tool == tool;
                assert(rest[i - 1].tool == tool);
            }
            if permits_tool(rest, tool) {
                let i = choose|i: int| 0 <= i < rest.len() && #[trigger] rest[i].tool == tool;
                assert(permits[i + 1].tool == tool);
            }
            if permit_for(rest, tool) is Some {
                let p = permit_for(rest, tool)->0;
                let i = choose|i: int| 0 <= i < rest.len() && rest[i] == p;
                assert(permits[i + 1] == p);
            }
        } else {
            assert(permits[0] == permit_for(permits, tool)->0);
        }
    }
}

impl Step {
    /// A step with the given id, intent and permits.
    pub fn new(id: &str, intent: &str, permits: Vec<Permit>) -> (res: Step)
        ensures
            res.id@ == id@,
            res.intent@ == intent@,
            res.permits == permits,
    {
        Step { id: id.to_owned(), intent: intent.to_owned(), permits }
    }

    /// The permit that governs `tool` at this step.
    pub fn permit_for(&self, tool: Tool) -> (res: Option<&Permit>)
        ensures
            (match res {
                Some(p) => Some(*p),
                None => None,
            }) == permit_for(self.permits@, tool),
            res matches Some(p) ==> exists|i: int| {
                &&& 0 <= i < self.permits@.len()
                &&& #[trigger] self.permits@[i] == *p
                &&& p.tool == tool
                &&& forall|k: int| 0 <= k < i ==> #[trigger] self.permits@[k].tool != tool
            },
            res is None ==> forall|i: int|
                0 <= i < self.permits@.len() ==> #[trigger] self.permits@[i].tool != tool,
    {
        let mut i: usize = 0;
        while i < self.permits.len()
            invariant
                i <= self.permits@.len(),
                forall|k: int| 0 <= k < i ==> #[trigger] self.permits@[k].tool != tool,
            decreases self.permits@.len() - i,
        {
            if self.permits[i].tool == tool {
                proof {
                    lemma_permit_at(self.permits@, tool, i as int);
                }
                return Some(&self.permits[i]);
            }
            i += 1;
        }
        proof {
            lemma_permit_at(self.permits@, tool, i as int);
        }
        None
    }
}

/// An ordered list of steps.
#[derive(Debug, Clone, PartialEq, Eq)]
pub struct Runbook {
    pub name: String,
    pub steps: Vec<Step>,
}

/// The first step at or after `from` that permits `tool`.
pub open spec fn next_permitting(steps: Seq<Step>, tool: Tool, from: int) -> Option<int>
    decreases steps.len() - from,
{
    if from < 0 || from >= steps.len() {
        None
    } else if permits_tool(steps[from].permits@, tool) {
        Some(from)
    } else {
        next_permitting(steps, tool, from + 1)
    }
}

/// There is a next step that permits a tool exactly if some step from there on
/// does, and the one found is the first.
pub proof fn lemma_next_permitting(steps: Seq<Step>, tool: Tool, from: int)
    requires
        0 <= from,
    ensures
        next_permitting(steps, tool, from) is Some <==> exists|i: int|
            from <= i < steps.len() && permits_tool((#[trigger] steps[i]).permits@, tool),
        next_permitting(steps, tool, from) matches Some(n) ==> {
            &&& from <= n < steps.len()
            &&& permits_tool(steps[n].permits@, tool)
            &&& forall|i: int|
                from <= i < n ==> !permits_tool((#[trigger] steps[i]).permits@, tool)
        },
    decreases steps.len() - from,
{
    if from < steps.len() && !permits_tool(steps[from].permits@, tool) {
        lemma_next_permitting(steps, tool, from + 1);
    }
}

impl Runbook {
    /// The step at an index, if there is one.
    pub fn step(&self, idx: usize) -> (res: Option<&Step>)
        ensures
            (match res {
                Some(s) => Some(*s),
                None => None,
            }) == (if idx < self.steps@.len() {
                Some(self.steps@[idx as int])
            } else {
                None
            }),
    {
        if idx < self.steps.len() {
            Some(&self.steps[idx])
        } else {
            None
        }
    }

    /// The index of the first step at or after `from` that permits `tool`.
    pub fn next_step_permitting(&self, tool: Tool, from: usize) -> (res: Option<usize>)
        ensures
            (match res {
                Some(i) => Some(i as int),
                None => None,
            }) == next_permitting(self.steps@, tool, from as int),
            res matches Some(i) ==> i < self.steps@.len(),
            res matches Some(n) ==> from <= n && exists|j: int|
                0 <= j < self.steps@[n as int].permits@.len()
                    && #[trigger] self.steps@[n as int].permits@[j].tool == tool,
            forall|i: int, j: int|
                from <= i < self.steps@.len() && (res matches Some(n) ==> i < n) && 0 <= j
                    < self.steps@[i].permits@.len() ==> #[trigger] self.steps@[i].permits@[j].tool
                    != tool,
    {
        let mut i: usize = from;
        proof {
            lemma_next_permitting(self.steps@, tool, from as int);
        }
        while i < self.steps.len()
            invariant
                from <= i,
                forall|k: int|
                    from <= k < i && k < self.steps@.len() ==> !permits_tool(
                        (#[trigger] self.steps@[k]).permits@,
                        tool,
                    ),
                next_permitting(self.steps@, tool, from as int) == next_permitting(
                    self.steps@,
                    tool,
                    i as int,
                ),
            decreases self.steps@.len() - i,
        {
            proof {
                lemma_permit_for(self.steps@[i as int].permits@, tool);
            }
            if self.steps[i].permit_for(tool).is_some() {
                return Some(i);
            }
            i += 1;
        }
        None
    }
}

/// A worked example: read a configuration, restart the service, record it.
pub fn example_service_restart() -> (res: Runbook)
    ensures
        res.name@ == "service-restart"@,
        res.steps@.len() == 3,
        res.steps@[0].id@ == "read-config"@,
        res.steps@[1].id@ == "restart-service"@,
        res.steps@[2].id@ == "record-outcome"@,
        res.steps@[0].intent@ == "Read the telemetry agent configuration."@,
        res.steps@[1].intent@ == "Restart the telemetry agent service."@,
        res.steps@[2].intent@ == "Record the outcome in the run log."@,
        forall|i: int| 0 <= i < 3 ==> (#[trigger] res.steps@[i]).permits@.len() == 1,
        ({
            let p = res.steps@[0].permits@[0];
            &&& p.tool == Tool::FileRead
            &&& text::texts(p.path_roots@) == seq!["/etc/mpodol/"@]
            &&& p.argv0_allow@.len() == 0
            &&& p.host_allow@.len() == 0
            &&& p.max_text_bytes is None
            &&& p.max_timeout_ms is None
        }),
        ({
            let p = res.steps@[1].permits@[0];
            &&& p.tool == Tool::ShellExec
            &&& p.path_roots@.len() == 0
            &&& text::texts(p.argv0_allow@) == seq!["systemctl"@]
            &&& p.host_allow@.len() == 0
            &&& p.max_text_bytes is None
            &&& p.max_timeout_ms == Some(5000u64)
        }),
        ({
            let p = res.steps@[2].permits@[0];
            &&& p.tool == Tool::FileWrite
            &&& text::texts(p.path_roots@) == seq!["/var/log/mpodol/"@]
            &&& p.argv0_allow@.len() == 0
            &&& p.host_allow@.len() == 0
            &&& p.max_text_bytes == Some(4096usize)
            &&& p.max_timeout_ms is None
        }),
{
    let read = Step::new(
        "read-config",
        "Read the telemetry agent configuration.",
        vec![Permit::new(Tool::FileRead).roots(["/etc/mpodol/"])],
    );
    let restart = Step::new(
        "restart-service",
        "Restart the telemetry agent service.",
        vec![Permit::new(Tool::ShellExec).argv0(["systemctl"]).max_timeout(5000)],
    );
    let record = Step::new(
        "record-outcome",
        "Record the outcome in the run log.",
        vec![Permit::new(Tool::FileWrite).roots(["/var/log/mpodol/"]).max_text(4096)],
    );
    Runbook { name: "service-restart".to_owned(), steps: vec![read, restart, record] }
}

} // verus!
