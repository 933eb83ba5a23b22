# embedded_perfmon_analyzer

Analysis of the event streams that an embedded async executor records for
performance monitoring.

- `src/` is the library, verified with Verus:
  - `events.rs`: the recorded events as plain values;
  - `types.rs`, `capture.rs`: the `Capture` that `Capture::parse_events` folds
    the events into (IRQ, executor and task timelines, markers and spans), and
    the warnings for task events that a task's history does not explain;
  - `capture_model.rs`: the specification of that fold, one transition per event;
  - `entries.rs`: the model of an insertion-ordered map as a sequence of entries;
  - `index_map.rs`: the `indexmap` maps the capture is kept in, behind trusted wrappers;
  - `perfetto.rs`: the Perfetto trace of the task events, `to_perfetto_trace`;
  - `protobuf.rs`: `serialize_trace`, the Protocol Buffers bytes of a trace;
  - `decode.rs`: when to stop decoding a recorded byte stream;
  - `wire.rs`: reading the bytes of a trace back into its packets;
  - `laws.rs`, `laws_steps.rs`: properties that hold for every event stream
    and for every single step.
- `app/` is the command line tool: it reads a recording, decodes it with the
  transport crate, and writes JSON, a Perfetto trace or the JSON schema.
- `tests/` runs the library on concrete streams.
