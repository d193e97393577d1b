//! Named cycles of i3 workspaces: the state that the cycling daemon keeps,
//! the requests it answers, and the small pieces of text it produces.

pub mod text_order;
pub mod name_list;
pub mod state;
pub mod protocol;
pub mod daemon;
pub mod logging;
