//! Interrupts: the descriptor table and the programmable interrupt controllers.

pub mod idt;
pub mod pic;
