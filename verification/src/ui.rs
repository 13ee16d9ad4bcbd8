pub mod history;
pub mod pty_state;
pub mod summarize;
