# dragonfly_bench

Runs benchmarks against several builds of a database server and tabulates the results.

- `src/` is the verified library (Verus): argument formatting and `ROOT+` path
  resolution (`args`, `text`), checks of the configured executables (`error`),
  the plan of each step of a benchmark run and the decisions taken while waiting
  for a server (`process`), the session's directories, validation and collected
  results (`bench_runner`), and the schedule of the earlier configuration format
  (`config`).
- `app/` is the program around it: command line, TOML and JSON files, starting
  and stopping processes, pinging the server, and printing the result tables.
