# diskwatch

A disk activity monitor that runs as you, with no system dependencies. This
crate is its verified core: Verus proves the contract of every function under
`src/`, but for a few small wrappers around calls into `ratatui` and the
standard library, whose contracts it takes as stated.

- `collect/` crosses two unprivileged readings, the bytes each process moves and
  the files it holds open, into the likely owner of a hot path. The tables come
  from `/proc` on Linux (`linux`) and from process queries on macOS (`darwin`);
  `windows` describes drives.
- `tabs/` lays out the Hot Files and Insights tabs as plain widgets, `ui/` holds
  the widgets and the text of sizes and rates.
- `binary64` and `fixed` compute and print IEEE 754 doubles on whole numbers, so
  that a rate shown is exactly the rate stated in a contract.
- `laws/` states what holds of the library as a whole.

`app/` is the ordinary Rust around it: it reads the system and paints the
widgets on a terminal. Times handed to the library are nanoseconds on one clock.
