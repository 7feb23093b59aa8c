//! Orbital-state logic over IEEE 754 binary64 values held as bit patterns:
//! exact comparisons, correctly rounded arithmetic, the exactly specified
//! parts of the orbital elements, and the commands of the interactive shell.
pub mod binary64;
pub mod rounding;
pub mod arith;
pub mod quotient;
pub mod orbit;
pub mod repl;
pub mod cli;
