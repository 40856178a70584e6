# monowrap

Runs the commands of a monorepo in every package, in an order that respects
two kinds of requirement: a command may require other commands (in the same
package), and a package may require other packages.

- `src/` is the verified library:
  - `manifest`: the manifest's types and its validation against the JSON Schema;
  - `graph`: the command graph and the dependency graph of a manifest;
  - `job`: the job graph (one job per package and command) and its builder;
  - `execute`: the batches of jobs that are ready to run, and the scope of packages;
  - `logger`, `arg_parse`: log messages and the command line;
  - `keys`, `ordmap`: string order and the ordered map the graphs are kept in.
- `app/` is the program: it reads the manifest file, prints the log, and hands
  each batch of tasks to the task runner as JSON lines.
- `tests/` runs the library on concrete manifests and command lines.

The graphs are kept in `OrdMap`, a map held as a vector of entries in
ascending key order, rather than in `std::collections::BTreeMap`. The keys are
strings and pairs of strings; for such keys the specifications that vstd gives
`BTreeMap` let Verus prove next to nothing (not even the length after one
insert), while `OrdMap` states its contents as a `Map` and its key order, over
the code-point order of `keys`, and both are proved.

The command line's scope (`-s`, default `*`) decides which packages get tasks:
`JobScheduler::next_batch_in_scope` runs the jobs of every package in order but
hands out only the tasks of the packages that some pattern of the scope matches.
