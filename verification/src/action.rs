//! The fixed action vocabulary: six tools, their declared arguments, and the
//! actions a model may propose.

use crate::text;
use vstd::prelude::*;
use vstd::string::*;

verus! {

/// What an argument's value means, and so how it is constrained.
#[derive(Debug, Clone, Copy, PartialEq, Eq, Structural)]
pub enum ArgKind {
    Path,
    Text,
    Shell,
    Url,
    Int,
}

/// One declared argument of a tool.
#[derive(Debug, Clone, Copy, PartialEq, Eq)]
pub struct ArgSpec {
    pub name: &'static str,
    pub kind: ArgKind,
}

/// The tools an action can name.
#[derive(Debug, Clone, Copy, PartialEq, Eq, Structural)]
pub enum Tool {
    FileRead,
    FileWrite,
    FileEdit,
    ShellExec,
    Search,
    HttpFetch,
}

impl Tool {
    /// The tool's name as it is spelled in an action.
    pub open spec fn name(self) -> Seq<char> {
        match self {
            Tool::FileRead => "file_read"@,
            Tool::FileWrite => "file_write"@,
            Tool::FileEdit => "file_edit"@,
            Tool::ShellExec => "shell_exec"@,
            Tool::Search => "search"@,
            Tool::HttpFetch => "http_fetch"@,
        }
    }

    /// Executable form of [`Tool::name`].
    pub fn as_str(self) -> (res: &'static str)
        ensures
            res@ == self.name(),
            self == Tool::FileRead ==> res@ == "file_read"@,
            self == Tool::FileWrite ==> res@ == "file_write"@,
            self == Tool::FileEdit ==> res@ == "file_edit"@,
            self == Tool::ShellExec ==> res@ == "shell_exec"@,
            self == Tool::Search ==> res@ == "search"@,
            self == Tool::HttpFetch ==> res@ == "http_fetch"@,
    {
        match self {
            Tool::FileRead => "file_read",
            Tool::FileWrite => "file_write",
            Tool::FileEdit => "file_edit",
            Tool::ShellExec => "shell_exec",
            Tool::Search => "search",
            Tool::HttpFetch => "http_fetch",
        }
    }

    /// The declared arguments, in the order in which an action spells them.
    pub open spec fn declared(self) -> Seq<ArgSpec> {
        match self {
            Tool::FileRead => seq![ArgSpec { name: "path", kind: ArgKind::Path }],
            Tool::FileWrite => seq![
                ArgSpec { name: "path", kind: ArgKind::Path },
                ArgSpec { name: "content", kind: ArgKind::Text },
            ],
            Tool::FileEdit => seq![
                ArgSpec { name: "path", kind: ArgKind::Path },
                ArgSpec { name: "find", kind: ArgKind::Text },
                ArgSpec { name: "replace", kind: ArgKind::Text },
            ],
            Tool::ShellExec => seq![
                ArgSpec { name: "cmd", kind: ArgKind::Shell },
                ArgSpec { name: "timeout_ms", kind: ArgKind::Int },
            ],
            Tool::Search => seq![
                ArgSpec { name: "path", kind: ArgKind::Path },
                ArgSpec { name: "query", kind: ArgKind::Text },
            ],
            Tool::HttpFetch => seq![ArgSpec { name: "url", kind: ArgKind::Url }],
        }
    }

    /// Executable form of [`Tool::declared`].
    pub fn args(self) -> (res: Vec<ArgSpec>)
        ensures
            res@ == self.declared(),
            self == Tool::FileRead ==> res@.len() == 1 && res@[0].name@ == "path"@
                && res@[0].kind == ArgKind::Path,
            self == Tool::FileWrite ==> res@.len() == 2 && res@[0].name@ == "path"@
                && res@[0].kind == ArgKind::Path && res@[1].name@ == "content"@
                && res@[1].kind == ArgKind::Text,
            self == Tool::FileEdit ==> res@.len() == 3 && res@[0].name@ == "path"@
                && res@[0].kind == ArgKind::Path && res@[1].name@ == "find"@
                && res@[1].kind == ArgKind::Text && res@[2].name@ == "replace"@
                && res@[2].kind == ArgKind::Text,
            self == Tool::ShellExec ==> res@.len() == 2 && res@[0].name@ == "cmd"@
                && res@[0].kind == ArgKind::Shell && res@[1].name@ == "timeout_ms"@
                && res@[1].kind == ArgKind::Int,
            self == Tool::Search ==> res@.len() == 2 && res@[0].name@ == "path"@
                && res@[0].kind == ArgKind::Path && res@[1].name@ == "query"@
                && res@[1].kind == ArgKind::Text,
            self == Tool::HttpFetch ==> res@.len() == 1 && res@[0].name@ == "url"@
                && res@[0].kind == ArgKind::Url,
    {
        match self {
            Tool::FileRead => vec![ArgSpec { name: "path", kind: ArgKind::Path }],
            Tool::FileWrite => vec![
                ArgSpec { name: "path", kind: ArgKind::Path },
                ArgSpec { name: "content", kind: ArgKind::Text },
            ],
            Tool::FileEdit => vec![
                ArgSpec { name: "path", kind: ArgKind::Path },
                ArgSpec { name: "find", kind: ArgKind::Text },
                ArgSpec { name: "replace", kind: ArgKind::Text },
            ],
            Tool::ShellExec => vec![
                ArgSpec { name: "cmd", kind: ArgKind::Shell },
                ArgSpec { name: "timeout_ms", kind: ArgKind::Int },
            ],
            Tool::Search => vec![
                ArgSpec { name: "path", kind: ArgKind::Path },
                ArgSpec { name: "query", kind: ArgKind::Text },
            ],
            Tool::HttpFetch => vec![ArgSpec { name: "url", kind: ArgKind::Url }],
        }
    }

    /// Every tool, in vocabulary order.
    pub open spec fn vocabulary() -> Seq<Tool> {
        seq![
            Tool::FileRead,
            Tool::FileWrite,
            Tool::FileEdit,
            Tool::ShellExec,
            Tool::Search,
            Tool::HttpFetch,
        ]
    }

    /// Executable form of [`Tool::vocabulary`].
    pub fn all() -> (res: Vec<Tool>)
        ensures
            res@ == Tool::vocabulary(),
            res@.len() == 6,
            res@[0] == Tool::FileRead,
            res@[1] == Tool::FileWrite,
            res@[2] == Tool::FileEdit,
            res@[3] == Tool::ShellExec,
            res@[4] == Tool::Search,
            res@[5] == Tool::HttpFetch,
    {
        vec![
            Tool::FileRead,
            Tool::FileWrite,
            Tool::FileEdit,
            Tool::ShellExec,
            Tool::Search,
            Tool::HttpFetch,
        ]
    }
}

/// An argument's value.
#[derive(Debug, PartialEq, Eq)]
pub enum ArgValue {
    Str(String),
    Int(u64),
}

impl Clone for ArgValue {
    fn clone(&self) -> (res: Self)
        ensures
            res == *self,
    {
        match self {
            ArgValue::Str(s) => ArgValue::Str(s.clone()),
            ArgValue::Int(n) => ArgValue::Int(*n),
        }
    }
}

/// The value under a key in a list of entries.
pub open spec fn lookup(entries: Seq<(Seq<char>, ArgValue)>, key: Seq<char>) -> Option<ArgValue>
    decreases entries.len(),
{
    if entries.len() == 0 {
        None
    } else if entries[0].0 == key {
        Some(entries[0].1)
    } else {
        lookup(entries.drop_first(), key)
    }
}

/// The keys stand in strictly ascending order, so none occurs twice.
pub open spec fn ascending(entries: Seq<(Seq<char>, ArgValue)>) -> bool {
    forall|i: int, j: int|
        0 <= i < j < entries.len() ==> text::text_less(#[trigger] entries[i].0, #[trigger] entries[j].0)
}

/// The arguments of an action: values under distinct keys, in key order.
#[derive(Debug, PartialEq, Eq)]
pub struct ArgMap {
    entries: Vec<(String, ArgValue)>,
}

/// The views of stored entries.
spec fn entry_views(entries: Seq<(String, ArgValue)>) -> Seq<(Seq<char>, ArgValue)> {
    Seq::new(entries.len(), |i: int| (entries[i].0@, entries[i].1))
}

impl View for ArgMap {
    type V = Seq<(Seq<char>, ArgValue)>;

    closed spec fn view(&self) -> Seq<(Seq<char>, ArgValue)> {
        entry_views(self.entries@)
    }
}

/// `lookup` finds the entry at `i` if no earlier one has its key.
proof fn lemma_lookup_found(entries: Seq<(Seq<char>, ArgValue)>, i: int)
    requires
        0 <= i < entries.len(),
        forall|k: int| 0 <= k < i ==> #[trigger] entries[k].0 != entries[i].0,
    ensures
        lookup(entries, entries[i].0) == Some(entries[i].1),
    decreases i,
{
    if i > 0 {
        let rest = entries.drop_first();
        assert(entries[0].0 != entries[i].0);
        assert forall|k: int| 0 <= k < i - 1 implies #[trigger] rest[k].0 != rest[i - 1].0 by {
            assert(rest[k] == entries[k + 1]);
        }
        lemma_lookup_found(rest, i - 1);
    }
}

/// `lookup` finds nothing if no entry has the key.
proof fn lemma_lookup_missing(entries: Seq<(Seq<char>, ArgValue)>, key: Seq<char>)
    requires
        forall|k: int| 0 <= k < entries.len() ==> #[trigger] entries[k].0 != key,
    ensures
        lookup(entries, key) == None::<ArgValue>,
    decreases entries.len(),
{
    if entries.len() > 0 {
        let rest = entries.drop_first();
        assert(entries[0].0 != key);
        assert forall|k: int| 0 <= k < rest.len() implies #[trigger] rest[k].0 != key by {
            assert(rest[k] == entries[k + 1]);
        }
        lemma_lookup_missing(rest, key);
    }
}

/// What `lookup` gives depends on the entry at `i` alone if that one has the
/// key and the keys ascend.
proof fn lemma_lookup_ascending(entries: Seq<(Seq<char>, ArgValue)>, i: int)
    requires
        0 <= i < entries.len(),
        ascending(entries),
    ensures
        lookup(entries, entries[i].0) == Some(entries[i].1),
{
    assert forall|k: int| 0 <= k < i implies #[trigger] entries[k].0 != entries[i].0 by {
        text::lemma_text_less_irreflexive(entries[i].0);
    }
    lemma_lookup_found(entries, i);
}

/// Replacing the value at `at` changes what `lookup` gives for that key only.
proof fn lemma_replaced(before: Seq<(Seq<char>, ArgValue)>, at: int, value: ArgValue)
    requires
        ascending(before),
        0 <= at < before.len(),
    ensures
        ({
            let key = before[at].0;
            let after = before.update(at, (key, value));
            &&& ascending(after)
            &&& lookup(after, key) == Some(value)
            &&& forall|k: Seq<char>| k != key ==> #[trigger] lookup(after, k) == lookup(before, k)
        }),
{
    let key = before[at].0;
    let after = before.update(at, (key, value));
    assert forall|i: int, j: int| 0 <= i < j < after.len() implies text::text_less(
        #[trigger] after[i].0,
        #[trigger] after[j].0,
    ) by {
        assert(after[i].0 == before[i].0);
        assert(after[j].0 == before[j].0);
    }
    lemma_lookup_ascending(after, at);
    assert forall|k: Seq<char>| k != key implies #[trigger] lookup(after, k) == lookup(
        before,
        k,
    ) by {
        if exists|i: int| 0 <= i < before.len() && #[trigger] before[i].0 == k {
            let i = choose|i: int| 0 <= i < before.len() && #[trigger] before[i].0 == k;
            lemma_lookup_ascending(before, i);
            assert(after[i] == before[i]);
            lemma_lookup_ascending(after, i);
        } else {
            lemma_lookup_missing(before, k);
            assert forall|i: int| 0 <= i < after.len() implies #[trigger] after[i].0 != k by {
                assert(before[i].0 == after[i].0);
            }
            lemma_lookup_missing(after, k);
        }
    }
}

/// Inserting a new key at its place keeps the order and every other value.
proof fn lemma_inserted(
    before: Seq<(Seq<char>, ArgValue)>,
    at: int,
    key: Seq<char>,
    value: ArgValue,
)
    requires
        ascending(before),
        0 <= at <= before.len(),
        forall|k: int| 0 <= k < at ==> text::text_less(#[trigger] before[k].0, key),
        at < before.len() ==> text::text_less(key, before[at].0),
    ensures
        ({
            let after = before.insert(at, (key, value));
            &&& ascending(after)
            &&& lookup(after, key) == Some(value)
            &&& forall|k: Seq<char>| k != key ==> #[trigger] lookup(after, k) == lookup(before, k)
        }),
{
    let after = before.insert(at, (key, value));
    assert forall|i: int, j: int| 0 <= i < j < after.len() implies text::text_less(
        #[trigger] after[i].0,
        #[trigger] after[j].0,
    ) by {
        if j == at {
            assert(after[i] == before[i]);
        } else if i == at {
            assert(after[j] == before[j - 1]);
            if j - 1 > at {
                text::lemma_text_less_transitive(key, before[at].0, before[j - 1].0);
            }
        } else if i < at && at < j {
            assert(after[i] == before[i]);
            assert(after[j] == before[j - 1]);
        } else if j < at {
            assert(after[i] == before[i]);
            assert(after[j] == before[j]);
        } else {
            assert(after[i] == before[i - 1]);
            assert(after[j] == before[j - 1]);
        }
    }
    assert(after[at] == (key, value));
    lemma_lookup_ascending(after, at);
    assert forall|k: Seq<char>| k != key implies #[trigger] lookup(after, k) == lookup(
        before,
        k,
    ) by {
        if exists|i: int| 0 <= i < before.len() && #[trigger] before[i].0 == k {
            let i = choose|i: int| 0 <= i < before.len() && #[trigger] before[i].0 == k;
            let j = if i < at { i } else { i + 1 };
            lemma_lookup_ascending(before, i);
            assert(after[j] == before[i]);
            lemma_lookup_ascending(after, j);
        } else {
            lemma_lookup_missing(before, k);
            assert forall|j: int| 0 <= j < after.len() implies #[trigger] after[j].0 != k by {
                if j < at {
                    assert(before[j].0 == after[j].0);
                } else if j > at {
                    assert(before[j - 1].0 == after[j].0);
                }
            }
            lemma_lookup_missing(after, k);
        }
    }
}

impl ArgMap {
    #[verifier::type_invariant]
    spec fn in_order(self) -> bool {
        ascending(entry_views(self.entries@))
    }

    /// No arguments.
    pub fn new() -> (res: ArgMap)
        ensures
            res@ == Seq::<(Seq<char>, ArgValue)>::empty(),
    {
        let res = ArgMap { entries: Vec::new() };
        assert(res@ =~= Seq::<(Seq<char>, ArgValue)>::empty());
        res
    }

    /// The value under `key`, if there is one.
    pub fn get(&self, key: &str) -> (res: Option<&ArgValue>)
        ensures
            (match res {
                Some(v) => Some(*v),
                None => None,
            }) == lookup(self@, key@),
            res matches Some(v) ==> self@.contains((key@, *v)),
            res is None ==> forall|i: int| 0 <= i < self@.len() ==> #[trigger] self@[i].0 != key@,
    {
        let ghost all = self@;
        let mut i: usize = 0;
        while i < self.entries.len()
            invariant
                i <= self.entries@.len(),
                all == entry_views(self.entries@),
                forall|k: int| 0 <= k < i ==> #[trigger] all[k].0 != key@,
            decreases self.entries@.len() - i,
        {
            if text::same_text(self.entries[i].0.as_str(), key) {
                proof {
                    assert(all[i as int].0 == key@);
                    assert(all[i as int] == (key@, self.entries@[i as int].1));
                    lemma_lookup_found(all, i as int);
                }
                return Some(&self.entries[i].1);
            }
            i += 1;
        }
        proof {
            lemma_lookup_missing(all, key@);
        }
        None
    }

    /// The keys, in order.
    pub fn keys(&self) -> (res: Vec<String>)
        ensures
            res@.len() == self@.len(),
            forall|i: int| 0 <= i < res@.len() ==> #[trigger] res@[i]@ == self@[i].0,
            ascending(self@),
            forall|i: int, j: int|
                0 <= i < j < res@.len() ==> text::text_less(#[trigger] res@[i]@, #[trigger] res@[j]@),
    {
        proof {
            use_type_invariant(self);
        }
        let mut res: Vec<String> = Vec::new();
        let mut i: usize = 0;
        while i < self.entries.len()
            invariant
                i <= self.entries@.len(),
                res@.len() == i,
                self@ == entry_views(self.entries@),
                forall|k: int| 0 <= k < i ==> #[trigger] res@[k]@ == self@[k].0,
            decreases self.entries@.len() - i,
        {
            res.push(self.entries[i].0.clone());
            i += 1;
        }
        res
    }

    /// Puts `value` under `key`, in place of any value that was there.
    pub fn insert(&mut self, key: String, value: ArgValue)
        ensures
            lookup(final(self)@, key@) == Some(value),
            forall|k: Seq<char>|
                k != key@ ==> #[trigger] lookup(final(self)@, k) == lookup(old(self)@, k),
            ascending(final(self)@),
            forall|i: int, j: int|
                0 <= i < j < final(self)@.len() ==> text::text_less(
                    #[trigger] final(self)@[i].0,
                    #[trigger] final(self)@[j].0,
                ),
    {
        proof {
            use_type_invariant(&*self);
        }
        let ghost before = self@;
        let mut entries: Vec<(String, ArgValue)> = Vec::new();
        std::mem::swap(&mut entries, &mut self.entries);
        assert(before == entry_views(entries@));
        let mut at: usize = 0;
        while at < entries.len() && text::comes_before(entries[at].0.as_str(), key.as_str())
            invariant
                at <= entries@.len(),
                before == entry_views(entries@),
                forall|k: int| 0 <= k < at ==> text::text_less(#[trigger] before[k].0, key@),
            decreases entries@.len() - at,
        {
            at += 1;
        }
        if at < entries.len() && text::same_text(entries[at].0.as_str(), key.as_str()) {
            entries.set(at, (key, value));
            assert(entry_views(entries@) =~= before.update(at as int, (key@, value)));
            proof {
                lemma_replaced(before, at as int, value);
            }
        } else {
            entries.insert(at, (key, value));
            assert(entry_views(entries@) =~= before.insert(at as int, (key@, value)));
            proof {
                if at < before.len() {
                    text::lemma_text_less_total(before[at as int].0, key@);
                }
                lemma_inserted(before, at as int, key@, value);
            }
        }
        self.entries = entries;
    }
}

impl Clone for ArgMap {
    fn clone(&self) -> (res: Self)
        ensures
            res@ == self@,
    {
        proof {
            use_type_invariant(self);
        }
        let mut entries: Vec<(String, ArgValue)> = Vec::new();
        let mut i: usize = 0;
        while i < self.entries.len()
            invariant
                i <= self.entries@.len(),
                entries@ == self.entries@.take(i as int),
            decreases self.entries@.len() - i,
        {
            entries.push((self.entries[i].0.clone(), self.entries[i].1.clone()));
            i += 1;
            assert(self.entries@.take(i as int) =~= self.entries@.take(i - 1).push(
                self.entries@[i - 1],
            ));
        }
        assert(entries@ =~= self.entries@);
        ArgMap { entries }
    }
}

/// A list that has a key has an entry with it.
proof fn lemma_lookup_some(entries: Seq<(Seq<char>, ArgValue)>, key: Seq<char>) -> (i: int)
    requires
        lookup(entries, key) is Some,
    ensures
        0 <= i < entries.len(),
        entries[i].0 == key,
    decreases entries.len(),
{
    if entries[0].0 == key {
        0
    } else {
        1 + lemma_lookup_some(entries.drop_first(), key)
    }
}

/// The law of arguments: in ascending entries a key has the value that stands
/// beside it, and no other key has one.
pub proof fn law_lookup_finds_the_entry(
    entries: Seq<(Seq<char>, ArgValue)>,
    key: Seq<char>,
    value: ArgValue,
)
    requires
        ascending(entries),
    ensures
        lookup(entries, key) == Some(value) <==> entries.contains((key, value)),
        lookup(entries, key) is None <==> forall|i: int|
            0 <= i < entries.len() ==> #[trigger] entries[i].0 != key,
{
    if entries.contains((key, value)) {
        let i = entries.index_of((key, value));
        lemma_lookup_ascending(entries, i);
    }
    if lookup(entries, key) is Some {
        let i = lemma_lookup_some(entries, key);
        lemma_lookup_ascending(entries, i);
        assert(entries[i] == (key, lookup(entries, key)->0));
    } else if exists|i: int| 0 <= i < entries.len() && #[trigger] entries[i].0 == key {
        let i = choose|i: int| 0 <= i < entries.len() && #[trigger] entries[i].0 == key;
        lemma_lookup_ascending(entries, i);
    }
}

/// The law of key order: two ascending lists under which every key has the
/// same value are the same list. So what a set of arguments holds does not
/// depend on the order in which it was filled.
pub proof fn law_arguments_are_canonical(
    a: Seq<(Seq<char>, ArgValue)>,
    b: Seq<(Seq<char>, ArgValue)>,
)
    requires
        ascending(a),
        ascending(b),
        forall|k: Seq<char>| #[trigger] lookup(a, k) == lookup(b, k),
    ensures
        a == b,
    decreases a.len(),
{
    if a.len() == 0 || b.len() == 0 {
        if b.len() > 0 {
            lemma_lookup_ascending(b, 0);
            assert(lookup(a, b[0].0) == lookup(b, b[0].0));
        }
        if a.len() > 0 {
            lemma_lookup_ascending(a, 0);
            assert(lookup(a, a[0].0) == lookup(b, a[0].0));
        }
        assert(a =~= b);
    } else {
        lemma_lookup_ascending(a, 0);
        lemma_lookup_ascending(b, 0);
        assert(lookup(a, a[0].0) == lookup(b, a[0].0));
        assert(lookup(a, b[0].0) == lookup(b, b[0].0));
        let j = lemma_lookup_some(b, a[0].0);
        let i = lemma_lookup_some(a, b[0].0);
        if i > 0 && j > 0 {
            text::lemma_text_less_transitive(a[0].0, a[i].0, b[j].0);
            text::lemma_text_less_irreflexive(a[0].0);
        }
        assert(a[0].0 == b[0].0);
        let a1 = a.drop_first();
        let b1 = b.drop_first();
        assert forall|k: Seq<char>| #[trigger] lookup(a1, k) == lookup(b1, k) by {
            assert(lookup(a, k) == lookup(b, k));
            if k == a[0].0 {
                text::lemma_text_less_irreflexive(k);
                assert forall|m: int| 0 <= m < a1.len() implies #[trigger] a1[m].0 != k by {
                    assert(a1[m] == a[m + 1]);
                }
                assert forall|m: int| 0 <= m < b1.len() implies #[trigger] b1[m].0 != k by {
                    assert(b1[m] == b[m + 1]);
                }
                lemma_lookup_missing(a1, k);
                lemma_lookup_missing(b1, k);
            }
        }
        assert(ascending(a1)) by {
            assert forall|m: int, n: int| 0 <= m < n < a1.len() implies text::text_less(
                #[trigger] a1[m].0,
                #[trigger] a1[n].0,
            ) by {
                assert(a1[m] == a[m + 1]);
                assert(a1[n] == a[n + 1]);
            }
        }
        assert(ascending(b1)) by {
            assert forall|m: int, n: int| 0 <= m < n < b1.len() implies text::text_less(
                #[trigger] b1[m].0,
                #[trigger] b1[n].0,
            ) by {
                assert(b1[m] == b[m + 1]);
                assert(b1[n] == b[n + 1]);
            }
        }
        law_arguments_are_canonical(a1, b1);
        assert(a =~= seq![a[0]] + a1);
        assert(b =~= seq![b[0]] + b1);
    }
}

/// A proposed tool call.
#[derive(Debug, PartialEq, Eq)]
pub struct Action {
    pub tool: Tool,
    pub args: ArgMap,
}

impl Clone for Action {
    fn clone(&self) -> (res: Self)
        ensures
            res.tool == self.tool,
            res.args@ == self.args@,
    {
        Action { tool: self.tool, args: self.args.clone() }
    }
}

/// An argument's value as the canonical form spells it: its type, then the
/// value.
pub open spec fn value_text(v: ArgValue) -> Seq<char> {
    match v {
        ArgValue::Str(s) => "s"@ + s@,
        ArgValue::Int(n) => "i"@ + text::decimal(n as nat),
    }
}

/// The canonical form of an action: the tool's name, then each argument in
/// key order, set off by separator characters.
pub open spec fn canonical(tool: Tool, entries: Seq<(Seq<char>, ArgValue)>) -> Seq<char>
    decreases entries.len(),
{
    if entries.len() == 0 {
        tool.name()
    } else {
        let (key, value) = entries.last();
        canonical(tool, entries.drop_last()) + "\u{1f}"@ + key + "\u{1e}"@ + value_text(value)
    }
}

pub const FNV_OFFSET: u64 = 0xcbf2_9ce4_8422_2325;

pub const FNV_PRIME: u64 = 0x0000_0100_0000_01b3;

/// The 64-bit FNV-1a hash of a byte string.
pub open spec fn fnv1a(bytes: Seq<u8>) -> u64
    decreases bytes.len(),
{
    if bytes.len() == 0 {
        FNV_OFFSET
    } else {
        (fnv1a(bytes.drop_last()) ^ (bytes.last() as u64)).wrapping_mul(FNV_PRIME)
    }
}

/// The fingerprint of an action with the given tool and arguments.
pub open spec fn fingerprint_text(tool: Tool, entries: Seq<(Seq<char>, ArgValue)>) -> Seq<char> {
    text::hex(fnv1a(vstd::utf8::encode_utf8(canonical(tool, entries))) as nat, 16)
}

/// The law of the canonical form: it begins with the tool's name, and each
/// argument adds a unit separator, its key, a record separator, a letter for
/// its type, and its value.
pub proof fn law_canonical_adds_each_argument(
    tool: Tool,
    entries: Seq<(Seq<char>, ArgValue)>,
    key: Seq<char>,
    value: ArgValue,
)
    ensures
        canonical(tool, Seq::empty()) == tool.name(),
        value matches ArgValue::Str(s) ==> canonical(tool, entries.push((key, value))) == canonical(
            tool,
            entries,
        ) + seq!['\u{1f}'] + key + seq!['\u{1e}'] + seq!['s'] + s@,
        value matches ArgValue::Int(n) ==> canonical(tool, entries.push((key, value))) == canonical(
            tool,
            entries,
        ) + seq!['\u{1f}'] + key + seq!['\u{1e}'] + seq!['i'] + text::decimal(n as nat),
{
    reveal_strlit("\u{1f}");
    reveal_strlit("\u{1e}");
    reveal_strlit("s");
    reveal_strlit("i");
    let all = entries.push((key, value));
    assert(all.drop_last() =~= entries);
    assert("\u{1f}"@ =~= seq!['\u{1f}']);
    assert("\u{1e}"@ =~= seq!['\u{1e}']);
    match value {
        ArgValue::Str(s) => {
            assert(canonical(tool, all) =~= canonical(tool, entries) + seq!['\u{1f}'] + key + seq![
                '\u{1e}',
            ] + seq!['s'] + s@);
        },
        ArgValue::Int(n) => {
            assert(canonical(tool, all) =~= canonical(tool, entries) + seq!['\u{1f}'] + key + seq![
                '\u{1e}',
            ] + seq!['i'] + text::decimal(n as nat));
        },
    }
}

/// The law of the hash: nothing hashes to the offset basis, and one more byte
/// is mixed in by exclusive or and a product with the prime, modulo 2^64.
pub proof fn law_hash_mixes_in_each_byte(bytes: Seq<u8>, byte: u8)
    ensures
        fnv1a(Seq::empty()) == 0xcbf2_9ce4_8422_2325u64,
        fnv1a(bytes.push(byte)) as int == ((fnv1a(bytes) ^ (byte as u64)) * 0x100_0000_01b3)
            % 0x1_0000_0000_0000_0000,
{
    assert(bytes.push(byte).drop_last() =~= bytes);
}

/// Executable form of [`canonical`].
fn canonical_form(action: &Action) -> (res: String)
    ensures
        res@ == canonical(action.tool, action.args@),
{
    let mut res = action.tool.as_str().to_owned();
    let ghost all = action.args@;
    let mut i: usize = 0;
    assert(all.take(0) =~= Seq::<(Seq<char>, ArgValue)>::empty());
    while i < action.args.entries.len()
        invariant
            all == entry_views(action.args.entries@),
            i <= action.args.entries@.len(),
            res@ == canonical(action.tool, all.take(i as int)),
        decreases action.args.entries@.len() - i,
    {
        assert(all.take(i + 1).drop_last() =~= all.take(i as int));
        res.append("\u{1f}");
        res.append(action.args.entries[i].0.as_str());
        res.append("\u{1e}");
        let mut value = String::new();
        match &action.args.entries[i].1 {
            ArgValue::Str(s) => {
                value.append("s");
                value.append(s.as_str());
            },
            ArgValue::Int(n) => {
                value.append("i");
                value.append(text::decimal_text(*n).as_str());
            },
        }
        assert(value@ =~= value_text(all[i as int].1));
        res.append(value.as_str());
        i += 1;
    }
    assert(all.take(i as int) =~= all);
    res
}

/// A short stable key for an action: the same for every action with the same
/// tool and the same arguments, in every run.
pub fn fingerprint(action: &Action) -> (res: String)
    ensures
        res@ == fingerprint_text(action.tool, action.args@),
        res@.len() == 16,
        text::hex_number_of(res@) == fnv1a(
            vstd::utf8::encode_utf8(canonical(action.tool, action.args@)),
        ),
{
    let form = canonical_form(action);
    let bytes = form.as_str().as_bytes();
    let mut h: u64 = FNV_OFFSET;
    let mut i: usize = 0;
    assert(bytes@.take(0) =~= Seq::<u8>::empty());
    while i < bytes.len()
        invariant
            i <= bytes@.len(),
            h == fnv1a(bytes@.take(i as int)),
        decreases bytes@.len() - i,
    {
        assert(bytes@.take(i + 1).drop_last() =~= bytes@.take(i as int));
        h = (h ^ (bytes[i] as u64)).wrapping_mul(FNV_PRIME);
        i += 1;
    }
    assert(bytes@.take(i as int) =~= bytes@);
    proof {
        text::law_hex_spells_the_number(h as nat, 16);
        reveal_with_fuel(text::sixteen_to, 17);
    }
    text::hex_text(h, 16)
}

} // verus!
