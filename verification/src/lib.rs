//! A verified interpreter for the CHIP-8 virtual machine.
//!
//! The machine state (memory, registers, timers, stack, keypad, framebuffer)
//! lives in [`chip8::Chip8`]; every instruction handler carries a contract
//! relating the state after the step to the state before it, phrased over the
//! mathematical model in [`machine`].

pub mod chip8;
pub mod machine;

pub use crate::chip8::Chip8;
pub use crate::machine::Chip8Error;
pub use crate::machine::DISPLAY_H;
pub use crate::machine::DISPLAY_W;
