# mpodol

The deterministic core of an offline agent harness for small language models,
verified with Verus. A runbook says what an operator authorized at each step.
From that one source come two independent layers:

- the grammar compiler makes every other tool, key, root, command and host
  unsamplable at the step;
- the validator catches what a grammar cannot evaluate: path normalization,
  numeric ceilings, byte caps and step order.

What happened is kept in an append-only event log that survives a crash in the
middle of a write: wherever the write was cut, in an object, in a character or
before its line end, opening the log makes it whole again. A log that lost
nothing keeps every byte.

## Layout

| Module | What it holds |
|---|---|
| `src/text.rs` | text as sequences of characters |
| `src/action.rs` | the tool vocabulary, actions and their fingerprints |
| `src/runbook.rs` | permits, steps and runbooks |
| `src/reject.rs` | rejection codes and the wording of each rejection |
| `src/path.rs` | lexical path normalization and containment |
| `src/validate.rs` | the two-pass validator |
| `src/grammar.rs` | the step-scoped grammar compiler |
| `src/language.rs` | what the value rules of a grammar admit |
| `src/sampling.rs` | what a whole grammar can sample |
| `src/scope.rs` | which tools a grammar can spell |
| `src/event.rs` | events, replay and the state of the log |
| `src/store.rs` | the log as bytes: reading, mending, what comes back |

`app/` holds the log's file, the clock and the JSON of an event.

Each executable function states its result exactly over spec functions. The
laws that relate several of them are the public proof functions whose names
begin with `law_`.

## What is taken on trust

- `String::push` appends one character.
- `{:?}` on a string gives a text that depends on the string alone
  (`text::debug_text`) and holds no line feed.
- `String::from_utf8` decodes exactly the valid UTF-8 byte strings.
- I/O errors are carried through unread, and their own text is shown as it is.

Path containment is lexical. A symbolic link inside a root can still lead out of
it; whoever opens the path has to enforce containment there.
