# ergo

A macOS utility that watches display connections and runs shell commands
chosen by rules such as `+ and "Built-in" and =2 -> echo 'external display'`.

- `src/` is the verified library:
  - `text.rs`: white space, trimming, decimal numbers, line splitting;
  - `conditions.rs`: conditions, condition trees, rule parsing and evaluation;
  - `config.rs`: the `ergorc` file: its path, a fresh file's text, reading it;
  - `service.rs`: the LaunchAgent property list and when to install or remove it;
  - `monitor.rs`: display changes between two looks and the commands to run.
- `app/main.rs` is the program: file and process I/O, logging, the first-run
  dialog, the display list from AppKit and the run-loop timer.
- `tests/` runs the library on concrete rules and configurations.
