//! Small command-line and web exercises whose logic is stated and proved with Verus:
//! an infix-expression front end for a calculator, integer-vector utilities,
//! rock-paper-scissors rules, stopwatch and countdown displays, and the request
//! logic of a message board.
pub mod text;
pub mod calculator;
pub mod numbers;
pub mod game;
pub mod timer;
pub mod board;
