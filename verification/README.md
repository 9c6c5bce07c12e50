# osap_host

The decision logic of the automation platform's host, written in Verus and proved against
its contracts.

- `src/` is the library. Each module states, over mathematical models (`Seq`, `Map`,
  `Multiset`, spec functions), what its functions return and how they change their state,
  and the laws that relate several operations stand as public proof functions:
  - `sched`: the text-read queue — one job per request before its picture, interactive
    reads first, the newest keyed request wins, every owner's share bounded.
  - `snap_queue`, `snapshot`, `snapshot::pending`: snapshot requests, how a round groups
    them into captures, their budgets, and the asynchronous requests of a module with their
    limits and answers.
  - `profile`: a part of a picture reduced per column and per row to whole-number sums, in
    one pass (the means, fractions, are divided in `app/`).
  - `service`: what a job's time and a snapshot read are charged, and the clock that tells
    a hung recogniser from a busy one.
  - `registry`, `registry::review`, `registry::plan`, `registry::install`: repository names,
    URLs and commit ids, the dependency graph of installed modules (reload order, orphans);
    working out an install plan one lookup at a time (a missing required dependency fails it,
    an optional one comes whole or not at all), its review, the order an install writes in and
    the folders it may write into; what an update adds; and the steps that put a module in
    place so that a failed update leaves the installed version as it was.
  - `settings`: the portable settings store — reading back what was set, rolling back a
    failed load, taking over the old list of disabled modules, and what the start-up sweep
    removes.
  - `speech`: which engine speaks for a module, and the rules of the screen-reader search.
  - `region`, `types`, `text`, `portable`, `policy`: rectangles, text, and the folder the
    application lives in.
- `app/` holds what cannot be verified here: files and network, threads, floating point,
  and the serde copies of the library's types.
- `tests/` run the library with the outside crates linked.
