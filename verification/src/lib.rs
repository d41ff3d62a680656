pub mod channel;
pub mod experiments;
pub mod input;
pub mod math;
pub mod parameters;
pub mod tui;
mod text;
