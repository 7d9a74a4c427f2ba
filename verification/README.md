# customer_support_cli

Support tickets, verified with Verus: normalizing a ticket, computing where
it stands against its service-level agreement, building the work queue and
a ticket's timeline, and routing it to a team.

- `src/` is the library. `support.rs` holds the types and their views;
  `support/text.rs` trimming, lower-casing and the order of texts;
  `support/dates.rs` instants and the calls into chrono; `support/order.rs`
  stable sorting; `support/normalize.rs`, `support/sla.rs`,
  `support/queue.rs` and `support/routing.rs` the operations, each with a
  spec function of its outcome and the laws about it.
- `app/` is the command-line tool: clap for the arguments, serde for the
  JSON, and the conversion of the policy's hours into whole milliseconds.
- `tests/` runs the library on concrete tickets, policies and rules.
