# onemessagebus

Messages on append-only queues, as a Verus library: what a function under `src/`
promises stands in its `ensures`, and Verus proves it. The exceptions are the few
functions marked `external_body`, the `assume_specification` items and the outside
types: each calls into std or another crate, and its doc comment says what is taken
of that call without proof.

- `src/` holds the library: names, JSON values, schemas, queues and their event
  logs, layouts, codecs, questions and replies, configurations and the bus they
  bind to, schema links, event streams, inboxes and the plugin protocol.
- `image` runs the library's operations on a directory of queues as it was read,
  and tells what is left to be written; `offers` holds the whole of an offer, a
  question or a reply, from the record to what is appended, and `plan` settles a
  question's records before the first of them is appended.
- `tests/` runs the library on concrete values.
- `app/` holds what reads and writes: files, processes, the network and the
  serialised forms of the library's types.

Laws that relate several functions stand as public proof functions beside them,
such as `queue_laws`, `fold_laws`, and the ends of `read`, `emit`, `bus` and
`questions`.
