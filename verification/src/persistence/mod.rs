pub mod inventory;
pub mod log;

pub use inventory::{CategorySummary, Inventory, InventorySummary, MountpointSummary};
pub use log::{ExecutionLogger, LogEvent, LogNote};
