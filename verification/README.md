# learn_arta

Active learning of alternating real-time automata (ARTA), with the library
proved in Verus.

- `src/` — the verified library: time delays and intervals, timed words,
  state formulas and their minimal models, automata (building, running,
  simplifying, DOT and JSON forms), membership and white-box equivalence
  oracles, guard partitions, row vectors over `fixedbitset`, the observation
  table, basis decomposition, cohesion checks and repairs, basis
  minimization, the evidence automaton, hypothesis construction, the
  learner's steps and its bounded learning loop against the white-box
  oracle.
- `tests/` — the tests of the library.
- `app/` — the command-line tool: DOT rendering, comparison and learning of
  JSON automata, with file I/O and argument parsing.
