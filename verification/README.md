# va_sim

The rules of a circuit simulator for Verilog-A models, verified with Verus.

The library in `src/` decides everything that does not take floating point: which model a
device line places and how its ports are wired, which unknowns a circuit has and what they
are called, which analysis a deck may run, what a checked model file counts as, where a
device's contributions go in a matrix, which frequencies and noise sources a sweep takes,
what a run roughly costs, and every line of every report. Numbers pass through it by their
binary64 encoding, which it can store, order and negate. Where a sum or a product is needed,
the caller hands in the operation, and the contract says what it is applied to.

`app/` is the program around it: arguments, files, the arithmetic of the devices and of the
sweeps, drawing, and the calls into the frontend, the code generator and the solvers.
`tests/` runs the library on concrete circuits.

What holds of the library as a whole is stated in public proof functions beside the
functions they are about, such as `the_last_named_setting_wins` in `src/place.rs`,
`every_unknown_is_named_once` in `src/circuit_laws.rs`, `tallies_add_up` in `src/check.rs`
and `splitting_undoes_stacking` in `src/block.rs`.
