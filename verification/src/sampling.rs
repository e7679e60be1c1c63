//! What a whole grammar can sample: the actions of the permitted tools, each
//! with its keys in place and a value in each place that the permit admits.

use crate::action::{ArgSpec, Tool};
use crate::grammar;
use crate::grammar::Symbol;
use crate::language;
use crate::runbook;
use crate::runbook::Permit;
use crate::text;
use vstd::prelude::*;

verus! {

// ---- derivation ---------------------------------------------------------
/// The rule of the `j`th argument under the `i`th permit is written, under the
/// given name.
pub open spec fn names_value(permits: Seq<Permit>, i: int, j: int, name: Seq<char>) -> bool {
    &&& 0 <= i < permits.len()
    &&& 0 <= j < permits[i].tool.declared().len()
    &&& grammar::own_alternatives(permits[i], permits[i].tool.declared()[j]) is Some
    &&& grammar::rule_name(i as nat, permits[i].tool.declared()[j]) == name
}

/// The alternatives of the rule that a grammar has under a name.
pub open spec fn rule_named(permits: Seq<Permit>, name: Seq<char>) -> Option<Seq<Seq<Symbol>>> {
    if name == "freestr"@ {
        Some(seq![grammar::open_string(seq!['"'])])
    } else if exists|i: int, j: int| #[trigger] names_value(permits, i, j, name) {
        let (i, j) = choose|i: int, j: int| #[trigger] names_value(permits, i, j, name);
        grammar::own_alternatives(permits[i], permits[i].tool.declared()[j])
    } else {
        None
    }
}

/// A symbol of a grammar derives a text. A reference derives what the rule of
/// that name admits.
pub open spec fn yields(permits: Seq<Permit>, sym: Symbol, s: Seq<char>) -> bool {
    match sym {
        Symbol::Text(t) => s == t,
        Symbol::FreeChars => grammar::all_free(s),
        Symbol::Digit => s.len() == 1 && language::is_digit(s[0]),
        Symbol::Rule(name) => match rule_named(permits, name) {
            Some(alts) => language::admits(alts, s),
            None => false,
        },
    }
}

/// The parts, one per symbol and each derived by it, make up a text.
pub open spec fn cut_into(
    permits: Seq<Permit>,
    alt: Seq<Symbol>,
    s: Seq<char>,
    parts: Seq<Seq<char>>,
) -> bool {
    &&& parts.len() == alt.len()
    &&& s == text::join(parts, Seq::<char>::empty())
    &&& forall|k: int| 0 <= k < alt.len() ==> yields(permits, alt[k], #[trigger] parts[k])
}

/// The symbols, in order, derive a text.
pub open spec fn sequence_derives(permits: Seq<Permit>, alt: Seq<Symbol>, s: Seq<char>) -> bool {
    exists|parts: Seq<Seq<char>>| #[trigger] cut_into(permits, alt, s, parts)
}

/// The grammar of a step with these permits can sample a text: its root derives
/// what the rule of one of the permits derives.
pub open spec fn samples(permits: Seq<Permit>, s: Seq<char>) -> bool {
    exists|i: int|
        0 <= i < permits.len() && sequence_derives(
            permits,
            grammar::action_alternative(i as nat, #[trigger] permits[i]),
            s,
        )
}

// ---- actions ------------------------------------------------------------
/// An action up to its `n`th argument: fixed texts and values in turn.
pub open spec fn action_start(tool: Tool, values: Seq<Seq<char>>, n: int) -> Seq<char>
    decreases n,
{
    if n <= 0 {
        Seq::<char>::empty()
    } else {
        action_start(tool, values, n - 1) + grammar::lead(tool, n - 1) + values[n - 1]
    }
}

/// An action with the given values in their places.
pub open spec fn action_with(tool: Tool, values: Seq<Seq<char>>) -> Seq<char> {
    action_start(tool, values, tool.declared().len() as int) + grammar::closing(tool)
}

/// One value for each declared argument, each admitted under the permit.
pub open spec fn fills(permit: Permit, values: Seq<Seq<char>>) -> bool {
    &&& values.len() == permit.tool.declared().len()
    &&& forall|j: int|
        0 <= j < values.len() ==> language::admits(
            language::value_alternatives(permit, permit.tool.declared()[j]),
            #[trigger] values[j],
        )
}

// ---- rule names ---------------------------------------------------------
proof fn lemma_digit_apart(a: int, b: int)
    requires
        0 <= a <= 9,
        0 <= b <= 9,
        text::digit(a) == text::digit(b),
    ensures
        a == b,
{
}

/// Numbers with the same digits are the same.
proof fn lemma_decimal_apart(a: nat, b: nat)
    requires
        text::decimal(a) == text::decimal(b),
    ensures
        a == b,
    decreases a,
{
    language::lemma_decimal_digits(a / 10);
    language::lemma_decimal_digits(b / 10);
    let x = text::decimal(a);
    let y = text::decimal(b);
    if a < 10 && b < 10 {
        assert(x[0] == y[0]);
        lemma_digit_apart(a as int, b as int);
    } else if a >= 10 && b >= 10 {
        assert(x.last() == y.last());
        lemma_digit_apart((a % 10) as int, (b % 10) as int);
        assert(x.drop_last() =~= text::decimal(a / 10));
        assert(y.drop_last() =~= text::decimal(b / 10));
        lemma_decimal_apart(a / 10, b / 10);
    } else if a < 10 {
        assert(x.len() == 1 && y.len() == text::decimal(b / 10).len() + 1);
    } else {
        assert(y.len() == 1 && x.len() == text::decimal(a / 10).len() + 1);
    }
}

/// A rule's name tells the permit and the argument's name.
proof fn lemma_rule_name_tells(i: nat, x: ArgSpec, k: nat, y: ArgSpec)
    requires
        grammar::rule_name(i, x) == grammar::rule_name(k, y),
    ensures
        i == k,
        grammar::dashed(x.name@) == grammar::dashed(y.name@),
{
    let n = grammar::rule_name(i, x);
    let m = grammar::rule_name(k, y);
    let a = text::decimal(i);
    let b = text::decimal(k);
    reveal_strlit("a");
    reveal_strlit("-");
    language::lemma_decimal_digits(i);
    language::lemma_decimal_digits(k);
    assert(n[1 + a.len() as int] == '-');
    assert(m[1 + b.len() as int] == '-');
    if a.len() < b.len() {
        assert(m[1 + a.len() as int] == b[a.len() as int]);
        assert(language::is_digit(b[a.len() as int]));
    } else if b.len() < a.len() {
        assert(n[1 + b.len() as int] == a[b.len() as int]);
        assert(language::is_digit(a[b.len() as int]));
    }
    assert forall|q: int| 0 <= q < a.len() implies a[q] == b[q] by {
        assert(n[1 + q] == a[q]);
        assert(m[1 + q] == b[q]);
    }
    assert(a =~= b);
    lemma_decimal_apart(i, k);
    let u = grammar::dashed(x.name@);
    let v = grammar::dashed(y.name@);
    assert(u =~= n.skip(2 + a.len() as int));
    assert(v =~= m.skip(2 + a.len() as int));
}

/// The arguments of a tool have different rules.
proof fn lemma_arguments_apart(tool: Tool, j: int, k: int)
    requires
        0 <= j < tool.declared().len(),
        0 <= k < tool.declared().len(),
        grammar::dashed(tool.declared()[j].name@) == grammar::dashed(tool.declared()[k].name@),
    ensures
        j == k,
{
    reveal_strlit("path");
    reveal_strlit("content");
    reveal_strlit("find");
    reveal_strlit("replace");
    reveal_strlit("cmd");
    reveal_strlit("timeout_ms");
    reveal_strlit("query");
    reveal_strlit("url");
    let u = tool.declared()[j].name@;
    let v = tool.declared()[k].name@;
    assert(grammar::dashed(u)[0] == u[0]);
    assert(grammar::dashed(v)[0] == v[0]);
    assert(grammar::dashed(u).len() == u.len());
    assert(grammar::dashed(v).len() == v.len());
}

/// The symbol of a value derives what the permit admits in its place.
proof fn lemma_value_symbol_yields(permits: Seq<Permit>, i: int, j: int, s: Seq<char>)
    requires
        0 <= i < permits.len(),
        0 <= j < permits[i].tool.declared().len(),
    ensures
        ({
            let arg = permits[i].tool.declared()[j];
            yields(permits, grammar::value_symbol(i as nat, permits[i], arg), s)
                <==> language::admits(language::value_alternatives(permits[i], arg), s)
        }),
{
    let permit = permits[i];
    let arg = permit.tool.declared()[j];
    if grammar::own_alternatives(permit, arg) is Some {
        let name = grammar::rule_name(i as nat, arg);
        reveal_strlit("freestr");
        reveal_strlit("a");
        assert(name[0] == 'a');
        assert("freestr"@[0] == 'f');
        assert(names_value(permits, i, j, name));
        let (p, q) = choose|p: int, q: int| #[trigger] names_value(permits, p, q, name);
        lemma_rule_name_tells(p as nat, permits[p].tool.declared()[q], i as nat, arg);
        assert(p == i);
        lemma_arguments_apart(permit.tool, q, j);
    }
}

// ---- what is sampled ----------------------------------------------------
/// The parts of an action, as its symbols cut it.
spec fn action_parts(tool: Tool, values: Seq<Seq<char>>, n: int) -> Seq<Seq<char>>
    decreases n,
{
    if n <= 0 {
        Seq::<Seq<char>>::empty()
    } else {
        action_parts(tool, values, n - 1).push(grammar::lead(tool, n - 1)).push(values[n - 1])
    }
}

proof fn lemma_join_push(parts: Seq<Seq<char>>, last: Seq<char>)
    ensures
        text::join(parts.push(last), Seq::<char>::empty()) == text::join(
            parts,
            Seq::<char>::empty(),
        ) + last,
{
    let none = Seq::<char>::empty();
    let all = parts.push(last);
    assert(all.drop_last() =~= parts);
    if parts.len() == 0 {
        assert(text::join(parts, none) + last =~= last);
    } else {
        assert(text::join(parts, none) + none + last =~= text::join(parts, none) + last);
    }
}

/// The parts stand in turn: the fixed text and the value of each argument.
spec fn in_turn(parts: Seq<Seq<char>>, tool: Tool, values: Seq<Seq<char>>, j: int) -> bool {
    parts[2 * j] == grammar::lead(tool, j) && parts[2 * j + 1] == values[j]
}

proof fn lemma_action_parts(tool: Tool, values: Seq<Seq<char>>, n: int)
    requires
        0 <= n,
    ensures
        action_parts(tool, values, n).len() == 2 * n,
        text::join(action_parts(tool, values, n), Seq::<char>::empty()) == action_start(
            tool,
            values,
            n,
        ),
        forall|j: int|
            0 <= j < n ==> #[trigger] in_turn(action_parts(tool, values, n), tool, values, j),
    decreases n,
{
    if n > 0 {
        lemma_action_parts(tool, values, n - 1);
        let before = action_parts(tool, values, n - 1);
        let lead = grammar::lead(tool, n - 1);
        lemma_join_push(before, lead);
        lemma_join_push(before.push(lead), values[n - 1]);
        let all = action_parts(tool, values, n);
        assert forall|j: int| 0 <= j < n implies #[trigger] in_turn(all, tool, values, j) by {
            if j < n - 1 {
                assert(in_turn(before, tool, values, j));
                assert(all[2 * j] == before[2 * j]);
                assert(all[2 * j + 1] == before[2 * j + 1]);
            }
        }
    }
}

/// The law of actions: the rule of a permit derives exactly the actions of its
/// tool with, in each place, a value that the permit admits there.
pub proof fn law_action_rule_derives_actions(permits: Seq<Permit>, i: int, s: Seq<char>)
    requires
        0 <= i < permits.len(),
    ensures
        sequence_derives(permits, grammar::action_alternative(i as nat, permits[i]), s)
            <==> exists|values: Seq<Seq<char>>| #[trigger]
            fills(permits[i], values) && s == action_with(permits[i].tool, values),
{
    let permit = permits[i];
    let tool = permit.tool;
    let n = tool.declared().len() as int;
    let alt = grammar::action_alternative(i as nat, permit);
    let syms = grammar::action_symbols(i as nat, permit, n);
    grammar::lemma_action_symbols(i as nat, permit, n);
    assert forall|j: int| 0 <= j < n implies {
        &&& alt[2 * j] == Symbol::Text(grammar::lead(tool, j))
        &&& alt[2 * j + 1] == grammar::value_symbol(
            i as nat,
            permit,
            #[trigger] tool.declared()[j],
        )
    } by {
        assert(alt[2 * j] == syms[2 * j]);
        assert(alt[2 * j + 1] == syms[2 * j + 1]);
    }
    assert(alt[2 * n] == Symbol::Text(grammar::closing(tool)));
    if sequence_derives(permits, alt, s) {
        let parts = choose|parts: Seq<Seq<char>>| #[trigger] cut_into(permits, alt, s, parts);
        let values = Seq::new(n as nat, |j: int| parts[2 * j + 1]);
        lemma_action_parts(tool, values, n);
        let made = action_parts(tool, values, n).push(grammar::closing(tool));
        assert forall|k: int| 0 <= k < parts.len() implies parts[k] == made[k] by {
            assert(yields(permits, alt[k], parts[k]));
            if k < 2 * n {
                let j = k / 2;
                assert(tool.declared()[j] == tool.declared()[j]);
                assert(values[j] == parts[2 * j + 1]);
                assert(in_turn(action_parts(tool, values, n), tool, values, j));
                assert(k == 2 * j || k == 2 * j + 1);
            }
        }
        assert(parts =~= made);
        lemma_join_push(action_parts(tool, values, n), grammar::closing(tool));
        assert forall|j: int| 0 <= j < values.len() implies language::admits(
            language::value_alternatives(permit, tool.declared()[j]),
            #[trigger] values[j],
        ) by {
            assert(tool.declared()[j] == tool.declared()[j]);
            assert(yields(permits, alt[2 * j + 1], parts[2 * j + 1]));
            lemma_value_symbol_yields(permits, i, j, values[j]);
        }
        assert(fills(permit, values));
    }
    if exists|values: Seq<Seq<char>>| #[trigger]
        fills(permit, values) && s == action_with(tool, values) {
        let values = choose|values: Seq<Seq<char>>| #[trigger]
            fills(permit, values) && s == action_with(tool, values);
        lemma_action_parts(tool, values, n);
        let parts = action_parts(tool, values, n).push(grammar::closing(tool));
        lemma_join_push(action_parts(tool, values, n), grammar::closing(tool));
        assert forall|k: int| 0 <= k < alt.len() implies yields(
            permits,
            alt[k],
            #[trigger] parts[k],
        ) by {
            if k < 2 * n {
                let j = k / 2;
                assert(tool.declared()[j] == tool.declared()[j]);
                assert(in_turn(action_parts(tool, values, n), tool, values, j));
                assert(parts[k] == action_parts(tool, values, n)[k]);
                if k == 2 * j {
                } else {
                    assert(k == 2 * j + 1);
                    lemma_value_symbol_yields(permits, i, j, values[j]);
                }
            }
        }
        assert(cut_into(permits, alt, s, parts));
    }
}

/// The law of sampling: a step's grammar can sample exactly the actions of its
/// permits' tools with admitted values.
pub proof fn law_only_permitted_actions_are_sampled(permits: Seq<Permit>, s: Seq<char>)
    ensures
        samples(permits, s) <==> exists|i: int, values: Seq<Seq<char>>|
            0 <= i < permits.len() && #[trigger] fills(permits[i], values) && s == action_with(
                permits[i].tool,
                values,
            ),
{
    if samples(permits, s) {
        let i = choose|i: int|
            0 <= i < permits.len() && sequence_derives(
                permits,
                grammar::action_alternative(i as nat, #[trigger] permits[i]),
                s,
            );
        law_action_rule_derives_actions(permits, i, s);
        let values = choose|values: Seq<Seq<char>>| #[trigger]
            fills(permits[i], values) && s == action_with(permits[i].tool, values);
        assert(fills(permits[i], values));
    }
    if exists|i: int, values: Seq<Seq<char>>|
        0 <= i < permits.len() && #[trigger] fills(permits[i], values) && s == action_with(
            permits[i].tool,
            values,
        ) {
        let (i, values) = choose|i: int, values: Seq<Seq<char>>|
            0 <= i < permits.len() && #[trigger] fills(permits[i], values) && s == action_with(
                permits[i].tool,
                values,
            );
        assert(fills(permits[i], values));
        law_action_rule_derives_actions(permits, i, s);
        assert(sequence_derives(
            permits,
            grammar::action_alternative(i as nat, permits[i]),
            s,
        ));
    }
}

/// The start of an action goes on from its first fixed text.
proof fn lemma_action_opens(tool: Tool, values: Seq<Seq<char>>, n: int)
    requires
        1 <= n,
    ensures
        text::starts_with(action_start(tool, values, n), grammar::opening(tool)),
    decreases n,
{
    let o = grammar::opening(tool);
    let start = action_start(tool, values, n);
    if n == 1 {
        reveal_with_fuel(action_start, 2);
        assert(o =~= start.subrange(0, o.len() as int));
    } else {
        lemma_action_opens(tool, values, n - 1);
        let before = action_start(tool, values, n - 1);
        assert(o == before.subrange(0, o.len() as int));
        assert(start.subrange(0, o.len() as int) =~= before.subrange(0, o.len() as int));
    }
}

/// The law of tools: whatever a step's grammar samples begins by naming a tool
/// that the step permits.
pub proof fn law_sample_names_a_permitted_tool(permits: Seq<Permit>, s: Seq<char>)
    requires
        samples(permits, s),
    ensures
        exists|tool: Tool| #[trigger]
            runbook::permits_tool(permits, tool) && text::starts_with(s, grammar::opening(tool)),
{
    law_only_permitted_actions_are_sampled(permits, s);
    let (i, values) = choose|i: int, values: Seq<Seq<char>>|
        0 <= i < permits.len() && #[trigger] fills(permits[i], values) && s == action_with(
            permits[i].tool,
            values,
        );
    let tool = permits[i].tool;
    let n = tool.declared().len() as int;
    lemma_action_opens(tool, values, n);
    let o = grammar::opening(tool);
    let start = action_start(tool, values, n);
    assert(o == start.subrange(0, o.len() as int));
    assert(s.subrange(0, o.len() as int) =~= start.subrange(0, o.len() as int));
    assert(runbook::permits_tool(permits, tool));
}

} // verus!
