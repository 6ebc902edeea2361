# codex_par

Runs tasks in parallel workers, and lets the workers share facts.

The library in `src/` holds everything that decides or computes; Verus proves it.

- `coordinator` and `run_state`: which task of a run may start, what each event changes, and when
  the run is over. Requests that add tasks are validated here.
- `config`: puts tasks into waves by their dependencies.
- `facts`: shared facts by key, and the preamble that shows them to a worker.
- `commands::run`: what the `run` command records, announces and sums up.
- `task`, `names`, `text`, `sequences`: tasks and records, sets of names, texts, and facts about
  sequences.
- `run_laws`, `schedule_laws`, `wave_laws`, `fact_laws`: what holds of all of these together, such
  as that no task is lost, that a run that ends well has completed all it accepted, and that a run
  never waits for nothing.

Two things are taken on trust: the clock (`clock`), of which only the shape of its text is claimed,
and the `Debug` output of a text (`text::show_debug`), which is given a name and nothing more.

`app/` is the ordinary Rust around it: the asynchronous loop, the facts file, and the `run`
command. `tests/` runs the library on examples.
