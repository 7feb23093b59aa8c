# anise_orbit

Orbital-state logic over IEEE 754 binary64 numbers, verified with Verus.

The library holds every binary64 value as its 64-bit pattern (`Binary64`),
so that the decisions and the arithmetic of the orbital-element code can be
stated and proved exactly:

- `src/binary64.rs`: the pattern, its classification, its value (an integer
  count of 2^-1074), and the IEEE 754 comparisons.
- `src/rounding.rs`: round to nearest, ties to even, onto the binary64 grid.
- `src/arith.rs`: correctly rounded `+`, `-` and `*`, with their laws
  (nearest result, monotonicity, commutativity, NaN propagation).
- `src/quotient.rs`: correctly rounded `/`, with its law (nearest result).
- `src/orbit.rs`: the cross and dot products, the orbital momentum vector, the apsides, the semi-major
  axis and C3, the eccentricity vector from its terms, the validation and
  checks of the Keplerian elements and the decisions between element formulas.
- `src/repl.rs`: the commands of the interactive shell.
- `src/cli.rs`: the decisions of the command-line tool (converted file
  names, merge arguments). The tool itself, which reads and writes SPK and
  ANISE files through the `anise` crate, is not part of `app/`: that crate
  is not available to this project.

`app/` holds the shell itself (terminal and history files) and the element
formulas that need trigonometry, square roots and powers in floating point.
They call the library for the orbital momentum and node vectors, the
apsides, the semi-major axis, C3, the last step of the eccentricity vector,
the checks of the Keplerian elements and the choice between formulas; the
norms, dot products and the trigonometry stay in floating point there.
