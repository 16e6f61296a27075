# Vapor Diagnostics Server

Opt-in diagnostics and log upload service. The rules of the service are a
library whose contracts Verus proves; sockets, files and JSON are a thin program
around it.

## Layout

- `src/text.rs`, `src/order.rs`: decimal notation, white space, the order of texts.
- `src/config.rs`: settings and limits.
- `src/redact.rs`: line breaks and redaction.
- `src/report.rs`: what a report may hold, and the log text it becomes.
- `src/clock.rs`, `src/runs.rs`: run identifiers, metadata, listings.
- `src/store.rs`: storing an upload as a sequence of actions and their outcomes.
- `src/disk.rs`: what storing does to the disk, stated over a model of it.
- `src/api.rs`: what each route answers, and who may read.
- `app/`: the server.
- `tests/`: the library at work on concrete values.

## What is believed without proof

The items marked `external_body` and `assume_specification`: matches of the
`regex` crate, random identifiers of the `uuid` crate, the system clock, lossy
decoding of bytes, and `String::push`. Each says in its doc comment what is
believed of it.
