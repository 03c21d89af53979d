# llm_messages

A verified model of the messages exchanged with a language model: user
inputs, assistant steps with their tool calls, the tool results collected for
them, whole turns and conversations, the folding of a streamed answer into a
step, and the rendering of a conversation into the wire messages one agent
sees.

The library under `src/` is written in Verus: each value type keeps its
rules as a type invariant or a well-formedness predicate, and each operation
states in its contract what it returns or changes, including which error
comes back on which input.

JSON parsing is done by `serde_json`, called from one function whose
contract Verus takes without proof (`src/json.rs`); `String::push` and the
`Debug` rendering of a string are the two other such functions
(`src/strings.rs`).

`app/` holds the serde forms of the types (`serde` derives cannot stand in
Verus code), converting to and from the library's types through the
library's own checked constructors. `tests/` holds the tests.
