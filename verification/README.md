# moq_origin

The origin of a media relay, with its decisions proved in Verus: which broadcasts are published
where, which source feeds each of them, who is told of them, and which cached groups go when
memory runs short.

- `src/` is the verified library. State is passed in, so every operation is a function from
  state to state with an exact contract, and modules end in the laws that their operations keep.
  - `cache`, `heap`: a byte budget with least-recently-used eviction.
  - `origin`, `coding`: origin ids and hop chains, and their wire format.
  - `path`: broadcast paths and canonical sets of prefixes.
  - `route`, `front`: how routes are ordered, and the table of sources behind a broadcast.
  - `announce`, `node`, `tree`: the broadcast tree and the coalesced updates of its cursors.
  - `history`: what a cursor is told over the whole life of a tree.
  - `nodes`, `handle`: what a handle may use, and the handles themselves.
  - `dynamic`: broadcasts served on request.
  - `serve`, `lifecycle`: the decisions of the tasks that serve tracks and drive sources.
  - `time`: clocks, spans and deadlines.
- `app/` holds the locks, tasks and timers around it.
- `tests/` runs the library.

What is trusted: reading the clock (`web_async`), drawing a random number (`rand`), and taking or
appending one byte (`bytes`).
