# benchmark

Runs an application repeatedly under GNU `time -v`, reads the user time, CPU
share and peak memory out of each report, writes them to
`bench_<app>/benchmarks.csv` and draws one SVG scatter graph per measurement.

- `src/` is the verified library (Verus): splitting command lines and
  resolving the application's path (`utils`), reading the timer reports
  (`bench::collector`, with `number` for decimal integers and `text` for
  splitting and searching text), the timer's command line
  (`bench::analysis`), the graphs' contents (`bench::graphs`) and the error
  type (`error`).
- `app/` is the command-line program around it: argument parsing, running the
  processes, files, logging, CSV and SVG output, and the float arithmetic of
  milliseconds and averages.
- `tests/` exercises the library on concrete reports and paths.
