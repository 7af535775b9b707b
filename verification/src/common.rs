pub mod log;
pub mod state;
