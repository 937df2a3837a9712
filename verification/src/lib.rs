pub mod binary64;
pub mod cells;
pub mod compact;
pub mod duration;
pub mod git;
pub mod path;
pub mod session;
pub mod statusline;
pub mod text;
