//! The event log: append-only, one JSON object per line, one log per run.
//!
//! The log is the source of truth after a crash, so its rules are stated
//! here: how events are numbered, what replaying a log gives, what a damaged
//! log is, and when an append has happened. The bytes of a log are the subject
//! of [`crate::store`]; files, clocks and the JSON of an event belong to the
//! caller.

use crate::action;
use crate::action::{fingerprint, Action};
use crate::reject::Reject;
use crate::text;
use vstd::prelude::*;
use vstd::string::*;

verus! {

// ---- events -------------------------------------------------------------
/// A failure as a record and not a sentence, so that it can be retrieved by
/// tool, by argument similarity and by task context.
#[derive(Debug, Clone, PartialEq, Eq)]
pub struct ErrorRecord {
    /// The runbook step's id, for task-context similarity.
    pub step_id: String,
    /// The step's intent, the natural-language side of the similarity query.
    pub step_intent: String,
    pub tool: Option<String>,
    /// The stable spelling of the rejection's code.
    pub code: String,
    /// The key of "this exact call was tried before".
    pub args_fingerprint: Option<String>,
    /// The explanation for the operator.
    pub reason: String,
    /// The correction for the model.
    pub repair_hint: String,
}

/// What an [`ErrorRecord`] says.
#[verifier::ext_equal]
pub struct ErrorRecordView {
    pub step_id: Seq<char>,
    pub step_intent: Seq<char>,
    pub tool: Option<Seq<char>>,
    pub code: Seq<char>,
    pub args_fingerprint: Option<Seq<char>>,
    pub reason: Seq<char>,
    pub repair_hint: Seq<char>,
}

/// The view of an optional string.
pub open spec fn opt_view(o: Option<String>) -> Option<Seq<char>> {
    match o {
        Some(s) => Some(s@),
        None => None,
    }
}

impl View for ErrorRecord {
    type V = ErrorRecordView;

    open spec fn view(&self) -> ErrorRecordView {
        ErrorRecordView {
            step_id: self.step_id@,
            step_intent: self.step_intent@,
            tool: opt_view(self.tool),
            code: self.code@,
            args_fingerprint: opt_view(self.args_fingerprint),
            reason: self.reason@,
            repair_hint: self.repair_hint@,
        }
    }
}

/// The record of a rejection at a step. The tool and the fingerprint are those
/// of the rejected action, if there was one.
pub open spec fn recorded(
    step_id: Seq<char>,
    step_intent: Seq<char>,
    action: Option<&Action>,
    r: Reject,
) -> ErrorRecordView {
    ErrorRecordView {
        step_id,
        step_intent,
        tool: match action {
            Some(a) => Some(a.tool.name()),
            None => None,
        },
        code: r.code.key(),
        args_fingerprint: match action {
            Some(a) => Some(action::fingerprint_text(a.tool, a.args@)),
            None => None,
        },
        reason: r.reason@,
        repair_hint: r.repair_hint@,
    }
}

impl ErrorRecord {
    /// Records a rejection.
    pub fn from_reject(
        step_id: &str,
        step_intent: &str,
        action: Option<&Action>,
        r: &Reject,
    ) -> (res: ErrorRecord)
        ensures
            res@ == recorded(step_id@, step_intent@, action, *r),
            res.step_id@ == step_id@,
            res.step_intent@ == step_intent@,
            res.code@ == r.code.key(),
            res.reason@ == r.reason@,
            res.repair_hint@ == r.repair_hint@,
            match (action, res.tool, res.args_fingerprint) {
                (Some(a), Some(tool), Some(key)) => {
                    &&& tool@ == a.tool.name()
                    &&& key@ == action::fingerprint_text(a.tool, a.args@)
                },
                (None, None, None) => true,
                _ => false,
            },
    {
        let tool = match action {
            Some(a) => Some(a.tool.as_str().to_owned()),
            None => None,
        };
        let args_fingerprint = match action {
            Some(a) => Some(fingerprint(a)),
            None => None,
        };
        ErrorRecord {
            step_id: step_id.to_owned(),
            step_intent: step_intent.to_owned(),
            tool,
            code: r.code.as_str().to_owned(),
            args_fingerprint,
            reason: r.reason.clone(),
            repair_hint: r.repair_hint.clone(),
        }
    }
}

/// What happened.
#[derive(Debug, Clone, PartialEq, Eq)]
pub enum EventKind {
    UserMessage { text: String },
    AgentThought { text: String },
    /// The raw text stands beside the parsed action, so that what did not parse
    /// is on record too.
    ActionProposed { step_id: String, raw: String, action: Option<Action> },
    ActionExecuted { step_id: String, action: Action },
    Observation { step_id: String, exit_code: Option<i32>, text: String },
    Error(ErrorRecord),
    /// A compressed point to resume from.
    StateSnapshot { step_idx: usize, scratchpad: String },
}

/// One entry of the log.
#[derive(Debug, Clone, PartialEq, Eq)]
pub struct Event {
    pub seq: u64,
    pub ts_ms: u64,
    pub kind: EventKind,
}

/// The record of an event, if it is an error.
pub open spec fn error_of(e: Event) -> Option<ErrorRecord> {
    match e.kind {
        EventKind::Error(r) => Some(r),
        _ => None,
    }
}

/// The records of the error events, in order.
pub open spec fn errors(events: Seq<Event>) -> Seq<ErrorRecord>
    decreases events.len(),
{
    if events.len() == 0 {
        Seq::<ErrorRecord>::empty()
    } else {
        let before = errors(events.drop_last());
        match error_of(events.last()) {
            Some(r) => before.push(r),
            None => before,
        }
    }
}

/// Every error in a stream of events, in order.
pub fn error_records(events: &[Event]) -> (res: Vec<&ErrorRecord>)
    ensures
        res@.len() == errors(events@).len(),
        forall|i: int| 0 <= i < res@.len() ==> *(#[trigger] res@[i]) == errors(events@)[i],
{
    let mut res: Vec<&ErrorRecord> = Vec::new();
    let mut i: usize = 0;
    while i < events.len()
        invariant
            i <= events@.len(),
            res@.len() == errors(events@.take(i as int)).len(),
            forall|k: int|
                0 <= k < res@.len() ==> *(#[trigger] res@[k]) == errors(events@.take(i as int))[k],
        decreases events@.len() - i,
    {
        assert(events@.take(i + 1).drop_last() =~= events@.take(i as int));
        if let EventKind::Error(r) = &events[i].kind {
            res.push(r);
        }
        i += 1;
    }
    assert(events@.take(i as int) =~= events@);
    res
}

/// The law of the query surface: a record is among the errors of a stream
/// exactly if an event of the stream is that error.
pub proof fn law_errors_are_the_error_events(events: Seq<Event>, r: ErrorRecord)
    ensures
        errors(events).contains(r) <==> exists|i: int|
            0 <= i < events.len() && error_of(#[trigger] events[i]) == Some(r),
    decreases events.len(),
{
    if events.len() > 0 {
        let init = events.drop_last();
        let before = errors(init);
        law_errors_are_the_error_events(init, r);
        if errors(events).contains(r) {
            let k = choose|k: int| 0 <= k < errors(events).len() && errors(events)[k] == r;
            if k < before.len() {
                assert(before[k] == r);
                let i = choose|i: int|
                    0 <= i < init.len() && error_of(#[trigger] init[i]) == Some(r);
                assert(events[i] == init[i]);
            } else {
                assert(error_of(events[events.len() - 1]) == Some(r));
            }
        }
        if exists|i: int| 0 <= i < events.len() && error_of(#[trigger] events[i]) == Some(r) {
            let i = choose|i: int|
                0 <= i < events.len() && error_of(#[trigger] events[i]) == Some(r);
            if i < init.len() {
                assert(init[i] == events[i]);
                let k = choose|k: int| 0 <= k < before.len() && before[k] == r;
                assert(errors(events)[k] == r);
            } else {
                assert(errors(events)[before.len() as int] == r);
            }
        }
    }
}

/// The law of order among errors: the errors of a stream and of what follows
/// it are the errors of both, in that order and each as often as it occurs.
pub proof fn law_errors_keep_their_order(a: Seq<Event>, b: Seq<Event>, e: Event)
    ensures
        errors(Seq::empty()) == Seq::<ErrorRecord>::empty(),
        errors(a + b) == errors(a) + errors(b),
        e.kind matches EventKind::Error(r) ==> errors(seq![e]) == seq![r],
        !(e.kind is Error) ==> errors(seq![e]) == Seq::<ErrorRecord>::empty(),
    decreases b.len(),
{
    assert(seq![e].drop_last() =~= Seq::<Event>::empty());
    assert(errors(seq![e].drop_last()) == Seq::<ErrorRecord>::empty());
    if let EventKind::Error(r) = e.kind {
        assert(errors(seq![e]) =~= seq![r]);
    }
    if b.len() == 0 {
        assert(a + b =~= a);
        assert(errors(a) + errors(b) =~= errors(a));
    } else {
        let init = b.drop_last();
        law_errors_keep_their_order(a, init, e);
        assert((a + b).drop_last() =~= a + init);
        assert(errors(a + b) =~= errors(a) + errors(b));
    }
}

/// The positions of a stream's errors, in order.
pub open spec fn error_positions(events: Seq<Event>) -> Seq<int>
    decreases events.len(),
{
    if events.len() == 0 {
        Seq::<int>::empty()
    } else if events.last().kind is Error {
        error_positions(events.drop_last()).push(events.len() - 1)
    } else {
        error_positions(events.drop_last())
    }
}

/// The law of positions: the errors of a stream stand at strictly ascending
/// positions, one for each record, and every error event is at one of them.
pub proof fn law_errors_have_ascending_positions(events: Seq<Event>)
    ensures
        ({
            let p = error_positions(events);
            &&& p.len() == errors(events).len()
            &&& forall|k: int, m: int| 0 <= k < m < p.len() ==> #[trigger] p[k] < #[trigger] p[m]
            &&& forall|k: int|
                0 <= k < p.len() ==> 0 <= #[trigger] p[k] < events.len()
                    && events[p[k]].kind == EventKind::Error(errors(events)[k])
            &&& forall|i: int|
                0 <= i < events.len() && (#[trigger] events[i]).kind is Error ==> p.contains(i)
        }),
    decreases events.len(),
{
    if events.len() > 0 {
        let init = events.drop_last();
        law_errors_have_ascending_positions(init);
        let q = error_positions(init);
        let p = error_positions(events);
        assert forall|k: int| 0 <= k < p.len() implies 0 <= #[trigger] p[k] < events.len()
            && events[p[k]].kind == EventKind::Error(errors(events)[k]) by {
            if k < q.len() {
                assert(p[k] == q[k]);
                assert(init[q[k]] == events[q[k]]);
            }
        }
        assert forall|i: int|
            0 <= i < events.len() && (#[trigger] events[i]).kind is Error implies p.contains(i) by {
            if i < init.len() {
                assert(init[i].kind is Error);
                let k = q.index_of(i);
                assert(p[k] == i);
            } else {
                assert(p[q.len() as int] == i);
            }
        }
    }
}

// ---- log errors ---------------------------------------------------------
/// Trusted: the type of the standard library's I/O errors. A value of it is
/// carried through and never looked into.
#[verifier::external_type_specification]
#[verifier::external_body]
pub struct ExIoError(std::io::Error);

/// When an appended event is flushed to the device.
#[derive(Debug, Clone, Copy, PartialEq, Eq, Structural)]
pub enum Durability {
    /// After every append.
    Sync,
    /// When the system sees fit: faster, and the tail is lost when power fails.
    Relaxed,
}

/// Why a log could not be read or written.
#[derive(Debug)]
pub enum LogError {
    Io(std::io::Error),
    /// A malformed line that is not the last one.
    Corrupt { line_no: usize, detail: String },
    /// Sequence numbers are not contiguous and ascending from 1.
    SequenceBreak { expected: u64, found: u64 },
}

/// What is wrong with the contents of a log.
pub enum Fault {
    Corrupt { line_no: int, detail: Seq<char> },
    SequenceBreak { expected: int, found: int },
}

impl LogError {
    /// What the error says of the log's contents; nothing if it is not about
    /// them.
    pub open spec fn fault(self) -> Option<Fault> {
        match self {
            LogError::Io(_) => None,
            LogError::Corrupt { line_no, detail } => Some(
                Fault::Corrupt { line_no: line_no as int, detail: detail@ },
            ),
            LogError::SequenceBreak { expected, found } => Some(
                Fault::SequenceBreak { expected: expected as int, found: found as int },
            ),
        }
    }

    /// The message, given the text of the I/O error where there is one.
    pub open spec fn message(self, shown: Seq<char>) -> Seq<char> {
        match self {
            LogError::Io(_) => "io error: "@ + shown,
            LogError::Corrupt { line_no, detail } => "corrupt event at line "@ + text::decimal(
                line_no as nat,
            ) + ": "@ + detail@,
            LogError::SequenceBreak { expected, found } => "sequence break: expected "@
                + text::decimal(expected as nat) + ", found "@ + text::decimal(found as nat),
        }
    }

    /// Executable form of [`LogError::message`].
    pub fn message_with(&self, shown: &str) -> (res: String)
        ensures
            res@ == self.message(shown@),
            self is Io ==> res@ == "io error: "@ + shown@,
            self matches LogError::Corrupt { line_no, detail } ==> res@
                == "corrupt event at line "@ + text::decimal(*line_no as nat) + ": "@ + detail@,
            self matches LogError::SequenceBreak { expected, found } ==> res@
                == "sequence break: expected "@ + text::decimal(*expected as nat) + ", found "@
                + text::decimal(*found as nat),
    {
        match self {
            LogError::Io(_) => {
                let mut res = "io error: ".to_owned();
                res.append(shown);
                res
            },
            LogError::Corrupt { line_no, detail } => {
                let mut res = "corrupt event at line ".to_owned();
                res.append(text::decimal_text(*line_no as u64).as_str());
                res.append(": ");
                res.append(detail.as_str());
                res
            },
            LogError::SequenceBreak { expected, found } => {
                let mut res = "sequence break: expected ".to_owned();
                res.append(text::decimal_text(*expected).as_str());
                res.append(", found ");
                res.append(text::decimal_text(*found).as_str());
                res
            },
        }
    }

    /// The error on one line. The text of an I/O error is the system's own.
    pub fn to_text(&self) -> (res: String)
        ensures
            exists|shown: Seq<char>| res@ == #[trigger] self.message(shown),
            self.fault() is Some ==> res@ == self.message(Seq::<char>::empty()),
    {
        let shown = match self {
            LogError::Io(e) => io_text(e),
            _ => String::new(),
        };
        self.message_with(shown.as_str())
    }
}

/// Trusted: the text of an I/O error, as its `to_string` gives it. It rests on
/// the system, so nothing is said of it.
#[verifier::external_body]
fn io_text(e: &std::io::Error) -> (res: String) {
    e.to_string()
}

impl From<std::io::Error> for LogError {
    fn from(e: std::io::Error) -> (res: LogError) {
        LogError::Io(e)
    }
}

impl vstd::std_specs::convert::FromSpecImpl<std::io::Error> for LogError {
    open spec fn obeys_from_spec() -> bool {
        true
    }

    open spec fn from_spec(e: std::io::Error) -> LogError {
        LogError::Io(e)
    }
}

// ---- replay -------------------------------------------------------------
/// One line of a log: its text, and the event it holds or why it holds none.
#[derive(Debug)]
pub struct LogLine {
    pub text: String,
    pub parsed: Result<Event, String>,
}

/// What a [`LogLine`] says.
#[verifier::ext_equal]
pub struct LineView {
    pub text: Seq<char>,
    pub parsed: Result<Event, Seq<char>>,
}

impl View for LogLine {
    type V = LineView;

    open spec fn view(&self) -> LineView {
        LineView {
            text: self.text@,
            parsed: match self.parsed {
                Ok(ev) => Ok(ev),
                Err(detail) => Err(detail@),
            },
        }
    }
}

/// The views of a log's lines.
pub open spec fn line_views(lines: Seq<LogLine>) -> Seq<LineView> {
    Seq::new(lines.len(), |i: int| lines[i]@)
}

/// The law of line views: the views of a log's lines are its lines, in order,
/// each with its text and what it holds.
pub proof fn law_line_views_are_the_lines(lines: Seq<LogLine>)
    ensures
        line_views(lines).len() == lines.len(),
        forall|i: int|
            0 <= i < lines.len() ==> (#[trigger] line_views(lines)[i]).text == lines[i].text@
                && match lines[i].parsed {
                Ok(ev) => line_views(lines)[i].parsed == Ok::<Event, Seq<char>>(ev),
                Err(detail) => line_views(lines)[i].parsed == Err::<Event, Seq<char>>(detail@),
            },
{
}

/// Nothing but white space.
pub open spec fn blank(s: Seq<char>) -> bool {
    forall|i: int| 0 <= i < s.len() ==> text::is_space(#[trigger] s[i])
}

/// Executable form of [`blank`].
fn is_blank(s: &str) -> (res: bool)
    ensures
        res == blank(s@),
{
    let chars = text::chars_of(s);
    let mut i: usize = 0;
    while i < chars.len()
        invariant
            chars@ == s@,
            i <= chars@.len(),
            forall|k: int| 0 <= k < i ==> text::is_space(#[trigger] chars@[k]),
        decreases chars@.len() - i,
    {
        if !text::space_char(chars[i]) {
            assert(!text::is_space(s@[i as int]));
            return false;
        }
        i += 1;
    }
    true
}

/// The event of a line, unless the line is blank or malformed.
pub open spec fn event_of(line: LineView) -> Option<Event> {
    if blank(line.text) {
        None
    } else {
        match line.parsed {
            Ok(ev) => Some(ev),
            Err(_) => None,
        }
    }
}

/// A line that is neither blank nor an event.
pub open spec fn malformed(line: LineView) -> bool {
    !blank(line.text) && line.parsed is Err
}

/// The events of a log's lines, in order.
pub open spec fn intact(lines: Seq<LineView>) -> Seq<Event>
    decreases lines.len(),
{
    if lines.len() == 0 {
        Seq::<Event>::empty()
    } else {
        let before = intact(lines.drop_last());
        match event_of(lines.last()) {
            Some(ev) => before.push(ev),
            None => before,
        }
    }
}

/// The last line is malformed: what a write that was cut short leaves behind.
pub open spec fn torn(lines: Seq<LineView>) -> bool {
    lines.len() > 0 && malformed(lines.last())
}

/// What is wrong with the `i`th line: it is malformed and not the last one, or
/// its event does not carry the next sequence number.
pub open spec fn fault_at(lines: Seq<LineView>, i: int) -> Option<Fault> {
    let next = intact(lines.take(i)).len() + 1;
    if malformed(lines[i]) {
        if i + 1 == lines.len() {
            None
        } else {
            Some(Fault::Corrupt { line_no: i + 1, detail: lines[i].parsed->Err_0 })
        }
    } else {
        match event_of(lines[i]) {
            Some(ev) => if ev.seq != next {
                Some(Fault::SequenceBreak { expected: next as int, found: ev.seq as int })
            } else {
                None
            },
            None => None,
        }
    }
}

/// The first fault from the `k`th line on.
pub open spec fn first_fault(lines: Seq<LineView>, k: int) -> Option<Fault>
    decreases lines.len() - k,
{
    if k < 0 || k >= lines.len() {
        None
    } else {
        match fault_at(lines, k) {
            Some(f) => Some(f),
            None => first_fault(lines, k + 1),
        }
    }
}

/// What replaying a log gives: its events and whether a partial tail was
/// dropped, or the first fault.
pub open spec fn replayed(lines: Seq<LineView>) -> Result<(Seq<Event>, bool), Fault> {
    match first_fault(lines, 0) {
        Some(f) => Err(f),
        None => Ok((intact(lines), torn(lines))),
    }
}

/// Sequence numbers are contiguous and ascending from 1.
pub open spec fn numbered(events: Seq<Event>) -> bool {
    forall|i: int| 0 <= i < events.len() ==> (#[trigger] events[i]).seq == i + 1
}

/// The events of a log.
#[derive(Debug, Clone, PartialEq, Eq)]
pub struct Replay {
    pub events: Vec<Event>,
    /// Whether an incomplete last line was dropped: the previous run almost
    /// certainly died in the middle of a write.
    pub dropped_partial_tail: bool,
}

/// The outcome of a replay is the one that the lines give.
pub open spec fn tells(res: Result<Replay, LogError>, lines: Seq<LineView>) -> bool {
    match res {
        Ok(r) => replayed(lines) == Ok::<(Seq<Event>, bool), Fault>(
            (r.events@, r.dropped_partial_tail),
        ),
        Err(e) => e.fault() matches Some(f) && replayed(lines) == Err::<(Seq<Event>, bool), Fault>(
            f,
        ),
    }
}

/// Where the lines before `k` are without fault, their events are numbered.
proof fn lemma_numbered(lines: Seq<LineView>, k: int)
    requires
        0 <= k <= lines.len(),
        forall|i: int| 0 <= i < k ==> #[trigger] fault_at(lines, i) is None,
    ensures
        numbered(intact(lines.take(k))),
    decreases k,
{
    if k > 0 {
        lemma_numbered(lines, k - 1);
        assert(fault_at(lines, k - 1) is None);
        assert(lines.take(k).drop_last() =~= lines.take(k - 1));
    }
}

/// No fault from the `k`th line on means no fault at any of those.
pub(crate) proof fn lemma_no_fault(lines: Seq<LineView>, k: int)
    requires
        0 <= k <= lines.len(),
    ensures
        first_fault(lines, k) is None <==> forall|i: int|
            k <= i < lines.len() ==> #[trigger] fault_at(lines, i) is None,
    decreases lines.len() - k,
{
    if k < lines.len() {
        lemma_no_fault(lines, k + 1);
        if fault_at(lines, k) is Some {
            assert(!(fault_at(lines, k) is None));
        }
    }
}

/// The law of numbering: the events of a log that replays carry the numbers
/// from 1 on, without a gap.
pub proof fn law_replayed_is_numbered(lines: Seq<LineView>)
    ensures
        replayed(lines) matches Ok((events, _)) ==> numbered(events),
{
    lemma_no_fault(lines, 0);
    if replayed(lines) is Ok {
        lemma_numbered(lines, lines.len() as int);
        assert(lines.take(lines.len() as int) =~= lines);
    }
}

/// Adding a line that is an event with the next number, or blank, or, at the
/// very end, malformed, adds no fault where none was and the last line is
/// whole.
proof fn lemma_pushed(lines: Seq<LineView>, line: LineView)
    requires
        first_fault(lines, 0) is None,
        !torn(lines),
        event_of(line) matches Some(ev) ==> ev.seq == intact(lines).len() + 1,
    ensures
        first_fault(lines.push(line), 0) is None,
{
    let more = lines.push(line);
    lemma_no_fault(lines, 0);
    lemma_no_fault(more, 0);
    assert forall|i: int| 0 <= i < more.len() implies #[trigger] fault_at(more, i) is None by {
        if i < lines.len() {
            assert(fault_at(lines, i) is None);
            assert(more.take(i) =~= lines.take(i));
            assert(more[i] == lines[i]);
        } else {
            assert(more.take(i) =~= lines);
        }
    }
}

/// The law of appending: a log that replays whole, with one more event that
/// carries the next sequence number, replays to its events and that one.
pub proof fn law_appended_event_replays(lines: Seq<LineView>, line: LineView, ev: Event)
    requires
        replayed(lines) matches Ok((events, torn)) && !torn && ev.seq == events.len() + 1,
        event_of(line) == Some(ev),
    ensures
        replayed(lines.push(line)) == Ok::<(Seq<Event>, bool), Fault>(
            (intact(lines).push(ev), false),
        ),
{
    lemma_pushed(lines, line);
    assert(lines.push(line).drop_last() =~= lines);
}

/// The law of the torn tail: a log that replays whole, with a last line that
/// was cut short, replays to the same events and says that a tail was dropped.
pub proof fn law_torn_tail_is_dropped(lines: Seq<LineView>, line: LineView)
    requires
        replayed(lines) matches Ok((_, torn)) && !torn,
        malformed(line),
    ensures
        replayed(lines.push(line)) == Ok::<(Seq<Event>, bool), Fault>((intact(lines), true)),
{
    lemma_pushed(lines, line);
    assert(lines.push(line).drop_last() =~= lines);
}

/// The law of corruption: a malformed line before the last one is never
/// skipped; the replay is an error.
pub proof fn law_corruption_is_an_error(lines: Seq<LineView>, i: int)
    requires
        0 <= i < lines.len() - 1,
        malformed(lines[i]),
    ensures
        replayed(lines) is Err,
{
    lemma_no_fault(lines, 0);
    assert(fault_at(lines, i) is Some);
}

/// The first line with a fault is the one that counts.
proof fn lemma_first_fault_at(lines: Seq<LineView>, k: int, j: int)
    requires
        0 <= k <= j < lines.len(),
        forall|i: int| k <= i < j ==> #[trigger] fault_at(lines, i) is None,
        fault_at(lines, j) is Some,
    ensures
        first_fault(lines, k) == fault_at(lines, j),
    decreases j - k,
{
    if k < j {
        assert(fault_at(lines, k) is None);
        lemma_first_fault_at(lines, k + 1, j);
    }
}

/// Where there is a fault, there is a first one.
proof fn lemma_some_fault(lines: Seq<LineView>, k: int) -> (j: int)
    requires
        0 <= k,
        first_fault(lines, k) is Some,
    ensures
        k <= j < lines.len(),
        forall|i: int| k <= i < j ==> #[trigger] fault_at(lines, i) is None,
        first_fault(lines, k) == fault_at(lines, j),
        fault_at(lines, j) is Some,
    decreases lines.len() - k,
{
    if fault_at(lines, k) is Some {
        k
    } else {
        lemma_some_fault(lines, k + 1)
    }
}

/// What is wrong with a line does not depend on those after it, unless it is
/// the last one and malformed.
proof fn lemma_fault_stays(lines: Seq<LineView>, line: LineView, i: int)
    requires
        0 <= i < lines.len(),
        i + 1 < lines.len() || !malformed(lines[i]),
    ensures
        fault_at(lines.push(line), i) == fault_at(lines, i),
{
    assert(lines.push(line).take(i) =~= lines.take(i));
}

/// A line with something in it other than white space.
pub open spec fn written(line: LineView) -> bool {
    exists|i: int| 0 <= i < line.text.len() && !text::is_space(#[trigger] line.text[i])
}

/// The law of replay: each line of a log advances what was replayed before it.
/// A line of white space adds nothing, an event is added if it carries the next
/// number and breaks the sequence otherwise, a line that holds no event is a
/// dropped tail until another line follows it, and a fault stays.
pub proof fn law_each_line_advances_the_replay(lines: Seq<LineView>, line: LineView)
    ensures
        replayed(Seq::empty()) == Ok::<(Seq<Event>, bool), Fault>((Seq::<Event>::empty(), false)),
        match replayed(lines) {
            Err(f) => replayed(lines.push(line)) == Err::<(Seq<Event>, bool), Fault>(f),
            Ok((events, true)) => lines.len() > 0 && lines.last().parsed is Err && replayed(
                lines.push(line),
            ) == Err::<(Seq<Event>, bool), Fault>(
                Fault::Corrupt {
                    line_no: lines.len() as int,
                    detail: lines.last().parsed->Err_0,
                },
            ),
            Ok((events, false)) => replayed(lines.push(line)) == (if !written(line) {
                Ok::<(Seq<Event>, bool), Fault>((events, false))
            } else {
                match line.parsed {
                    Err(_) => Ok((events, true)),
                    Ok(ev) => if ev.seq == events.len() + 1 {
                        Ok((events.push(ev), false))
                    } else {
                        Err(
                            Fault::SequenceBreak {
                                expected: events.len() as int + 1,
                                found: ev.seq as int,
                            },
                        )
                    },
                }
            }),
        },
{
    let more = lines.push(line);
    let n = lines.len() as int;
    assert(more.drop_last() =~= lines);
    assert(more.take(n) =~= lines);
    assert(written(line) <==> !blank(line.text));
    lemma_no_fault(lines, 0);
    match replayed(lines) {
        Err(f) => {
            let j = lemma_some_fault(lines, 0);
            assert(j + 1 < lines.len() || !malformed(lines[j]));
            assert forall|i: int| 0 <= i < j implies #[trigger] fault_at(more, i) is None by {
                assert(fault_at(lines, i) is None);
                lemma_fault_stays(lines, line, i);
            }
            lemma_fault_stays(lines, line, j);
            lemma_first_fault_at(more, 0, j);
        },
        Ok((events, dropped)) => {
            if dropped {
                assert forall|i: int| 0 <= i < n - 1 implies #[trigger] fault_at(more, i) is None by {
                    assert(fault_at(lines, i) is None);
                    lemma_fault_stays(lines, line, i);
                }
                assert(more[n - 1] == lines.last());
                lemma_first_fault_at(more, 0, n - 1);
            } else {
                assert forall|i: int| 0 <= i < n implies #[trigger] fault_at(more, i) is None by {
                    assert(fault_at(lines, i) is None);
                    lemma_fault_stays(lines, line, i);
                }
                if fault_at(more, n) is Some {
                    lemma_first_fault_at(more, 0, n);
                } else {
                    lemma_no_fault(more, 0);
                }
            }
        },
    }
}

/// The lines hold the events, one each.
pub open spec fn hold(lines: Seq<LineView>, events: Seq<Event>) -> bool {
    &&& lines.len() == events.len()
    &&& forall|i: int|
        0 <= i < lines.len() ==> event_of(#[trigger] lines[i]) == Some(events[i])
}

/// The law of writing: lines that hold numbered events, one each, replay to
/// just those events. So a log that was written event by event reads back as
/// it was written, and one whose torn tail was rewritten away is whole again.
pub proof fn law_written_events_replay(lines: Seq<LineView>, events: Seq<Event>)
    requires
        hold(lines, events),
        numbered(events),
    ensures
        replayed(lines) == Ok::<(Seq<Event>, bool), Fault>((events, false)),
    decreases lines.len(),
{
    if lines.len() == 0 {
        assert(events =~= Seq::<Event>::empty());
    } else {
        let init = lines.drop_last();
        let before = events.drop_last();
        assert forall|i: int| 0 <= i < init.len() implies event_of(#[trigger] init[i]) == Some(
            before[i],
        ) by {
            assert(init[i] == lines[i]);
        }
        assert(numbered(before)) by {
            assert forall|i: int| 0 <= i < before.len() implies (#[trigger] before[i]).seq == i
                + 1 by {
                assert(before[i] == events[i]);
            }
        }
        law_written_events_replay(init, before);
        assert(event_of(lines[lines.len() - 1]) == Some(events.last()));
        assert(events[events.len() - 1].seq == events.len());
        law_appended_event_replays(init, lines.last(), events.last());
        assert(init.push(lines.last()) =~= lines);
        assert(before.push(events.last()) =~= events);
    }
}

// ---- the log ------------------------------------------------------------
/// The state of an open log: the next sequence number, and when to flush.
#[derive(Debug)]
pub struct EventLog {
    next_seq: u64,
    durability: Durability,
}

impl EventLog {
    /// The number that the next event carries.
    pub closed spec fn next(self) -> u64 {
        self.next_seq
    }

    /// When appended events are flushed.
    pub closed spec fn policy(self) -> Durability {
        self.durability
    }

    /// Reads the events of a log off its lines.
    pub fn replay(lines: Vec<LogLine>) -> (res: Result<Replay, LogError>)
        ensures
            tells(res, line_views(lines@)),
            match res {
                Ok(r) => replayed(line_views(lines@)) == Ok::<(Seq<Event>, bool), Fault>(
                    (r.events@, r.dropped_partial_tail),
                ),
                Err(LogError::Io(_)) => false,
                Err(LogError::Corrupt { line_no, detail }) => {
                    &&& replayed(line_views(lines@)) == Err::<(Seq<Event>, bool), Fault>(
                        Fault::Corrupt { line_no: line_no as int, detail: detail@ },
                    )
                    &&& 1 <= line_no < lines@.len()
                    &&& lines@[line_no - 1].parsed == Err::<Event, String>(detail)
                },
                Err(LogError::SequenceBreak { expected, found }) => {
                    &&& replayed(line_views(lines@)) == Err::<(Seq<Event>, bool), Fault>(
                        Fault::SequenceBreak { expected: expected as int, found: found as int },
                    )
                    &&& expected != found
                    &&& exists|i: int|
                        0 <= i < lines@.len() && ((#[trigger] lines@[i]).parsed matches Ok(ev)
                            && ev.seq == found)
                },
            },
    {
        let ghost given = lines@;
        let ghost all = line_views(lines@);
        let total: usize = lines.len();
        let mut events: Vec<Event> = Vec::new();
        let mut dropped_partial_tail = false;
        let mut i: usize = 0;
        assert(all.take(0) =~= Seq::<LineView>::empty());
        for line in iter: lines.into_iter()
            invariant
                iter.seq() == given,
                all == line_views(given),
                total == all.len(),
                i == iter.index(),
                first_fault(all, 0) == first_fault(all, i as int),
                events@ == intact(all.take(i as int)),
                events@.len() <= i,
                dropped_partial_tail == (i == total && torn(all)),
        {
            assert(line@ == all[i as int]);
            assert(all.take(i + 1).drop_last() =~= all.take(i as int));
            if !is_blank(line.text.as_str()) {
                match line.parsed {
                    Ok(ev) => {
                        let expected: u64 = events.len() as u64 + 1;
                        if ev.seq != expected {
                            return Err(LogError::SequenceBreak { expected, found: ev.seq });
                        }
                        events.push(ev);
                    },
                    Err(detail) => {
                        if i + 1 == total {
                            dropped_partial_tail = true;
                        } else {
                            return Err(LogError::Corrupt { line_no: i + 1, detail });
                        }
                    },
                }
            }
            i += 1;
        }
        assert(all.take(i as int) =~= all);
        Ok(Replay { events, dropped_partial_tail })
    }

    /// Opens a log with the given lines, none if there was no log: positioned
    /// after the last intact event.
    pub fn open(lines: Vec<LogLine>, durability: Durability) -> (res: Result<
        (EventLog, Replay),
        LogError,
    >)
        requires
            lines@.len() < u64::MAX,
        ensures
            match res {
                Ok((log, replay)) => {
                    &&& tells(Ok(replay), line_views(lines@))
                    &&& replayed(line_views(lines@)) == Ok::<(Seq<Event>, bool), Fault>(
                        (replay.events@, replay.dropped_partial_tail),
                    )
                    &&& log.next() == replay.events@.len() + 1
                    &&& log.policy() == durability
                },
                Err(e) => tells(Err(e), line_views(lines@)) && replayed(line_views(lines@)) is Err,
            },
    {
        let ghost all = line_views(lines@);
        match EventLog::replay(lines) {
            Ok(replay) => {
                proof {
                    lemma_no_more_events(all);
                }
                let next_seq: u64 = replay.events.len() as u64 + 1;
                Ok((EventLog { next_seq, durability }, replay))
            },
            Err(e) => Err(e),
        }
    }

    /// The number that the next event will carry.
    pub fn next_seq(&self) -> (res: u64)
        ensures
            res == self.next(),
    {
        self.next_seq
    }

    /// Whether an append is flushed to the device before it counts.
    pub fn syncs(&self) -> (res: bool)
        ensures
            res == (self.policy() == Durability::Sync),
    {
        self.durability == Durability::Sync
    }

    /// The event to append for what happened at the given time. It counts once
    /// it has been written and [committed](EventLog::commit).
    pub fn append(&self, ts_ms: u64, kind: EventKind) -> (res: Event)
        ensures
            res == (Event { seq: self.next(), ts_ms, kind }),
    {
        Event { seq: self.next_seq, ts_ms, kind }
    }

    /// The event to append for a rejection: a structured error.
    pub fn append_reject(
        &self,
        ts_ms: u64,
        step_id: &str,
        step_intent: &str,
        action: Option<&Action>,
        r: &Reject,
    ) -> (res: Event)
        ensures
            res.seq == self.next(),
            res.ts_ms == ts_ms,
            res.kind matches EventKind::Error(record) && {
                &&& record.step_id@ == step_id@
                &&& record.step_intent@ == step_intent@
                &&& record.code@ == r.code.key()
                &&& record.reason@ == r.reason@
                &&& record.repair_hint@ == r.repair_hint@
                &&& record.tool is Some <==> action is Some
                &&& record.args_fingerprint is Some <==> action is Some
            },
            error_of(res) matches Some(record) && record@ == recorded(
                step_id@,
                step_intent@,
                action,
                *r,
            ),
    {
        self.append(
            ts_ms,
            EventKind::Error(ErrorRecord::from_reject(step_id, step_intent, action, r)),
        )
    }

    /// Ends the append of the log's next event, given how writing and flushing
    /// it went. The sequence number is used up only if both succeeded.
    pub fn commit(&mut self, ev: Event, written: Result<(), std::io::Error>) -> (res: Result<
        Event,
        LogError,
    >)
        requires
            ev.seq == old(self).next(),
            old(self).next() < u64::MAX,
        ensures
            final(self).policy() == old(self).policy(),
            match written {
                Ok(_) => res == Ok::<Event, LogError>(ev) && final(self).next() == old(self).next()
                    + 1,
                Err(e) => res == Err::<Event, LogError>(LogError::Io(e)) && final(self).next()
                    == old(self).next(),
            },
    {
        match written {
            Ok(_) => {
                self.next_seq = self.next_seq + 1;
                Ok(ev)
            },
            Err(e) => Err(LogError::from(e)),
        }
    }
}

/// A log has at most as many events as lines.
proof fn lemma_no_more_events(lines: Seq<LineView>)
    ensures
        intact(lines).len() <= lines.len(),
    decreases lines.len(),
{
    if lines.len() > 0 {
        lemma_no_more_events(lines.drop_last());
    }
}

// ---- the text of a log --------------------------------------------------
/// The JSON of each event, each on its line.
pub open spec fn framed(jsons: Seq<Seq<char>>) -> Seq<char>
    decreases jsons.len(),
{
    if jsons.len() == 0 {
        Seq::<char>::empty()
    } else {
        framed(jsons.drop_last()) + jsons.last().push('\n')
    }
}

/// The line that is written for one event: in one piece with its end, so that
/// a write that was cut short leaves a last line without one.
pub fn frame(json: &str) -> (res: String)
    ensures
        res@ == json@.push('\n'),
{
    let mut res = json.to_owned();
    res.push('\n');
    res
}

/// Executable form of [`framed`].
pub(crate) fn frame_all(jsons: &Vec<String>) -> (res: String)
    ensures
        res@ == framed(text::texts(jsons@)),
{
    let ghost all = text::texts(jsons@);
    let mut res = String::new();
    let mut i: usize = 0;
    assert(all.take(0) =~= Seq::<Seq<char>>::empty());
    while i < jsons.len()
        invariant
            all == text::texts(jsons@),
            i <= jsons@.len(),
            res@ == framed(all.take(i as int)),
        decreases jsons@.len() - i,
    {
        assert(all.take(i + 1).drop_last() =~= all.take(i as int));
        res.append(frame(jsons[i].as_str()).as_str());
        i += 1;
    }
    assert(all.take(i as int) =~= all);
    res
}

/// The lines of a log's text. A line ends at a line feed, or at a carriage
/// return and a line feed; what follows the last of those is a line if it is
/// not empty.
pub open spec fn lines_of(log: Seq<char>) -> Seq<Seq<char>> {
    text::lines(log, '\n', '\r')
}

/// The text without a carriage return at its end.
fn drop_return(s: &str) -> (res: String)
    ensures
        res@ == text::without_last(s@, '\r'),
{
    let chars = text::chars_of(s);
    if chars.len() > 0 && chars[chars.len() - 1] == '\r' {
        let res = text::text_between(&chars, 0, chars.len() - 1);
        assert(res@ =~= s@.drop_last());
        res
    } else {
        s.to_owned()
    }
}

/// The lines of a log's text, each to be parsed.
pub fn log_lines(log: &str) -> (res: Vec<String>)
    ensures
        text::texts(res@) == lines_of(log@),
{
    let pieces = text::split_on(log, '\n');
    let ghost all = text::split(log@, '\n');
    proof {
        text::lemma_split_nonempty(log@, '\n');
    }
    assert(all.len() == pieces@.len());
    let last: usize = pieces.len() - 1;
    let mut res: Vec<String> = Vec::new();
    let mut i: usize = 0;
    while i < last
        invariant
            all == text::texts(pieces@),
            i <= last,
            last == pieces@.len() - 1,
            text::texts(res@) == Seq::new(i as nat, |k: int| text::without_last(all[k], '\r')),
        decreases last - i,
    {
        let ghost before = text::texts(res@);
        let line = drop_return(pieces[i].as_str());
        assert(line@ == text::without_last(all[i as int], '\r'));
        res.push(line);
        assert(text::texts(res@) =~= before.push(line@));
        i += 1;
        assert(text::texts(res@) =~= Seq::new(i as nat, |k: int| text::without_last(all[k], '\r')));
    }
    assert(all.last() == pieces@[last as int]@);
    let ghost before = text::texts(res@);
    if text::chars_of(pieces[last].as_str()).len() > 0 {
        let line = pieces[last].clone();
        res.push(line);
        assert(text::texts(res@) =~= before.push(line@));
    }
    res
}

/// The law of lines: a log's line ends at its line feed, with the carriage
/// return before that if there is one, and what follows the last line feed is a
/// line unless it is empty.
pub proof fn law_lines_of_a_log(a: Seq<char>, b: Seq<char>)
    requires
        !a.contains('\n'),
    ensures
        lines_of(a + seq!['\n'] + b) == seq![
            if a.len() > 0 && a.last() == '\r' {
                a.drop_last()
            } else {
                a
            },
        ] + lines_of(b),
        a.len() > 0 ==> lines_of(a) == seq![a],
        lines_of(Seq::empty()) == Seq::<Seq<char>>::empty(),
{
    text::law_lines_end_at_line_ends(a, b, '\n', '\r');
    text::law_lines_end_at_line_ends(Seq::<char>::empty(), b, '\n', '\r');
    assert(a + seq!['\n'] + b =~= a.push('\n') + b);
}

/// A text that can be framed: on one line, and without a carriage return at
/// its end.
pub open spec fn single_line(s: Seq<char>) -> bool {
    !s.contains('\n') && (s.len() == 0 || s.last() != '\r')
}

/// The pieces of framed texts and what follows them.
proof fn lemma_framed_pieces(jsons: Seq<Seq<char>>, tail: Seq<char>)
    requires
        forall|i: int| 0 <= i < jsons.len() ==> !(#[trigger] jsons[i]).contains('\n'),
        !tail.contains('\n'),
    ensures
        text::split(framed(jsons) + tail, '\n') == jsons.push(tail),
    decreases jsons.len(),
{
    text::lemma_split_whole(tail, '\n');
    if jsons.len() == 0 {
        assert(framed(jsons) + tail =~= tail);
        assert(jsons.push(tail) =~= seq![tail]);
    } else {
        let init = jsons.drop_last();
        let last = jsons.last();
        assert(!jsons[jsons.len() - 1].contains('\n'));
        assert forall|i: int| 0 <= i < init.len() implies !(#[trigger] init[i]).contains('\n') by {
            assert(init[i] == jsons[i]);
        }
        lemma_framed_pieces(init, last);
        text::lemma_split_concat(framed(init) + last, tail, '\n');
        assert((framed(init) + last).push('\n') + tail =~= framed(jsons) + tail);
        assert(init.push(last) + seq![tail] =~= jsons.push(tail));
    }
}

/// The law of framing: the lines of a log's text are the texts that were
/// framed, and at the end, where a write was cut short, what it left behind.
pub proof fn law_framed_lines_come_back(jsons: Seq<Seq<char>>, tail: Seq<char>)
    requires
        forall|i: int| 0 <= i < jsons.len() ==> single_line(#[trigger] jsons[i]),
        !tail.contains('\n'),
    ensures
        lines_of(framed(jsons) + tail) == (if tail.len() == 0 {
            jsons
        } else {
            jsons.push(tail)
        }),
{
    assert forall|i: int| 0 <= i < jsons.len() implies !(#[trigger] jsons[i]).contains('\n') by {
        assert(single_line(jsons[i]));
    }
    lemma_framed_pieces(jsons, tail);
    let pieces = jsons.push(tail);
    let ended = Seq::new((pieces.len() - 1) as nat, |i: int| text::without_last(pieces[i], '\r'));
    assert forall|i: int| 0 <= i < jsons.len() implies #[trigger] ended[i] == jsons[i] by {
        assert(single_line(jsons[i]));
    }
    assert(ended =~= jsons);
}

/// The law of the next line: framing one more text adds just its line to the
/// text of the log.
pub proof fn law_frame_appends(jsons: Seq<Seq<char>>, json: Seq<char>)
    ensures
        framed(jsons.push(json)) == framed(jsons) + json.push('\n'),
        framed(Seq::empty()) == Seq::<char>::empty(),
{
    assert(jsons.push(json).drop_last() =~= jsons);
}

// ---- time ---------------------------------------------------------------
/// The time stamp of a moment so many milliseconds after the epoch, as far as
/// 64 bits hold it; 0 for a clock that stands before the epoch.
pub fn now_ms(since_epoch: Option<u128>) -> (res: u64)
    ensures
        res as int == (match since_epoch {
            Some(ms) => ms as int % 0x1_0000_0000_0000_0000,
            None => 0,
        }),
{
    match since_epoch {
        Some(ms) => {
            assert((ms as u64) as u128 == ms % 0x1_0000_0000_0000_0000u128) by (bit_vector);
            #[verifier::truncate]
            (ms as u64)
        },
        None => 0,
    }
}

} // verus!
