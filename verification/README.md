# pirs

The rules behind an agent harness and a personal assistant, as a library that Verus verifies.

- `src/ai` — messages, routing of model aliases over backends with failover, server-sent events
- `src/agent` — repair of conversations, verified retries, background jobs, the flight recorder
- `src/registry.rs`, `src/config.rs` — backends and model aliases, and how they are configured
- `src/claw` — sessions, schedules, pairing, secrets, skills, voice memos, the messaging channels
- `src/tools`, `src/bench` — running tests, tools on jobs, captured commands
- `src/graph` — search over code by terms and by meaning, within a token budget
- `src/work.rs` — coding sessions: strategies and their defaults
- `src/text`, `src/environ.rs` — texts and environments
- `src/json.rs`, `src/record.rs` — JSON values, and records that are kept in JSON

What the functions do is stated in their contracts over spec functions; what holds of several of
them together is stated by public proof functions, whose names start with `lemma_`.

`app` is the command line around the library: files, the network, processes, floating point.
