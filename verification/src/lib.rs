//! The debugger and the headless runner of an Agon Light emulator.
pub mod address;
pub mod text;
pub mod machine;
pub mod prefix;
pub mod processor;
pub mod execution;
pub mod machine_laws;
pub mod images;
pub mod image_laws;
pub mod headless;
pub mod headless_laws;
pub mod session_laws;
pub mod disassembly;
pub mod code_laws;
pub mod protocol;
pub mod channel;
pub mod world;
pub mod debugger;
pub mod tick;
pub mod debugging_laws;
pub mod command_laws;
pub mod tick_laws;
