pub mod allocset;
pub mod memory_manager;
