//! Terminal-region layout and rendering: panes are composed into a nested,
//! proportionally sized layout, and their cursor-relative drawing actions are
//! turned into absolute terminal commands that stay inside each pane's region.
pub mod action;
pub mod command;
pub mod keys;
pub mod layout;
pub mod terminal;
pub mod window;

pub use action::{PrettyString, RenderAction, StyleProperty};
pub use command::{BinOp, UnOp};
pub use layout::{Container, ContainerOrientation, TileType, partition};
pub use terminal::TermCmd;
pub use window::{ActionSeq, Window, WindowConfig, WindowDisplay};
pub use keys::{Command, Key, Modifiers, process_char, process_key, process_text};
