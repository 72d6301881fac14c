# herdr_triage

Attention triage for [herdr](https://herdr.dev) agents: read the agent list from herdr's
control socket, time how long each agent has been in its status, rank agents by who needs
attention first, and render the ranked list.

`src/` is the verified library:

- `json_spec.rs`, `json.rs` — the JSON grammar as spec functions and a reader proved to
  follow it exactly (values, errors and their messages), objects kept sorted with one
  member per key, and the string writer with a proof that what it writes reads back.
- `json_laws.rs` — whitespace around a JSON text is ignored, and other text after it is
  refused as trailing input.
- `herdr.rs` — the request line, the checks on a response envelope, the agents an
  `agent.list` result describes, and `LineReader`, which assembles the response line from
  socket reads and decodes it, proved not to depend on how the bytes are split into reads.
- `tracker.rs` — the time each agent has spent in its current status, against an
  injectable clock, with laws for resets, carry-over and forgetting.
- `priority.rs` — rank items and the order of attention given integer score keys:
  a permutation sorted by score, then time in status, stable on ties.
- `render.rs` — durations, labels, truncation and the rendered list, character for
  character.
- `config.rs` — the numeric fields a config file sets.
- `text.rs` — decimal digits, Unicode whitespace and string building.

Two maps are kept as vectors with an invariant. A JSON object is a `Vec` of members
sorted by key with each key once, where an ordered `BTreeMap<String, Value>` would do, and
the tracker keeps a `Vec` of entries with distinct agent ids, where a
`HashMap<String, _>` would do. vstd's specifications of std's maps give little to prove
with `String` keys, while a vector's contents are fully specified, so the map behaviour
(one entry per key, key order, a later value replacing an earlier one) is stated as an
invariant and proved.

`app/` is the program around it: the socket client, the config file and its defaults, the
floating-point scores, and the refresh loop.
