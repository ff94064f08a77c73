pub mod keybinds;
pub mod tree;
pub mod checkbox_list;

pub use keybinds::{map_key, Action, Key};
pub use tree::{flatten_folder_tree, TreeItemState, TreeRow};
pub mod app;

pub use app::{App, AppEffect, AppTab, BackgroundMsg, InputMode};
pub use checkbox_list::{CheckboxList, CheckboxRow};
