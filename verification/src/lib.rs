//! SaveTensor DiskSort core library: inventory accounting, category
//! heuristics, sort planning and the decisions of safe relocation.

pub mod text;
pub mod text_order;
pub mod keyed;
pub mod utils;
pub mod discovery;
pub mod planner;
pub mod accounting;
pub mod persistence;
pub mod executor;
pub mod config;
pub mod tui;

