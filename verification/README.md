# lessons

A verified library of small algorithms and the decision logic of a few network servers.

- `src/basics.rs`, `src/calc.rs`: factorial, the largest element of a slice, a small calculator.
- `src/order.rs`, `src/mergesort.rs`: a bottom-up merge sort that merges in place, proved to
  produce a stable sorted permutation of its input for any lawful `Ord`.
- `src/framing.rs`, `src/messages.rs`: newline framing of a line-based JSON protocol (the
  receive buffer and the writer's frames) and the ping server's messages.
- `src/chat.rs`: the decisions of a chat server: admission, joining, the answer to every
  request, leaving.
- `src/processes.rs`: the steps of an event loop's listening and client processes, and
  which tasks a ready descriptor wakes.
- `src/scheduling.rs`, `src/polling.rs`: round-robin job placement, the ordered gathering of
  a fork/join line, and the timeout and read-outcome rules of a polling server.

`app/` holds what works with sockets, threads, async tasks and JSON: the servers, the worker
queue and the assembly-line pipeline, driven by the library's decisions.
