//! j2calc: a programmer's calculator for a keypad and a memory LCD.
//!
//! - `calc`: the expression evaluator (an RPN stack machine and its algebraic
//!   front end);
//! - `keypad`: the commands of the keypad's port expander and the key scan;
//! - `lcd`: the pixel and text framebuffers and the commands of the panel;
//! - `firmware`: the decisions of the firmware's keypad and display loops.
pub mod calc;
pub mod firmware;
pub mod keypad;
pub mod lcd;
