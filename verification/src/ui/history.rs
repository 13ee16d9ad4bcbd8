//! Backend-switch history dialog: state, intents and the reducer.

use vstd::prelude::*;

verus! {

/// Number of history rows visible at once in the dialog.
pub const MAX_VISIBLE_ROWS: usize = 14;

/// One recorded backend switch, as shown in the history dialog.
#[derive(Debug, Clone, PartialEq)]
pub struct HistoryEntry {
    /// When the switch occurred, in milliseconds since the Unix epoch.
    pub timestamp_ms: u64,
    /// The previously active backend (`None` for the initial selection).
    pub from_backend: Option<String>,
    /// The backend switched to.
    pub to_backend: String,
}

/// State of the history dialog.
#[derive(Debug, Clone, PartialEq)]
pub enum HistoryDialogState {
    Hidden,
    Visible { entries: Vec<HistoryEntry>, scroll_offset: usize },
}

impl HistoryDialogState {
    pub fn is_visible(&self) -> (r: bool)
        ensures
            r == !(self is Hidden),
    {
        !matches!(self, HistoryDialogState::Hidden)
    }
}

impl Default for HistoryDialogState {
    fn default() -> (r: Self)
        ensures
            r is Hidden,
    {
        HistoryDialogState::Hidden
    }
}

/// User intent driving the history dialog.
#[derive(Debug, Clone)]
pub enum HistoryIntent {
    Load { entries: Vec<HistoryEntry> },
    Close,
    ScrollUp,
    ScrollDown,
}

/// Pure reducer for the history dialog.
pub struct HistoryReducer;

/// Relation between a prior state, an intent, and the state the reducer yields.
///
/// `Load` shows the dialog scrolled so that the last entries are visible;
/// `Close` hides it; scrolling moves one row and clamps at both ends and is
/// a no-op while the dialog is hidden.
pub open spec fn history_reduce_spec(
    state: HistoryDialogState,
    intent: HistoryIntent,
    r: HistoryDialogState,
) -> bool {
    match intent {
        HistoryIntent::Load { entries } => {
            let max_offset = if entries.len() >= MAX_VISIBLE_ROWS {
                (entries.len() - MAX_VISIBLE_ROWS) as usize
            } else {
                0usize
            };
            r == (HistoryDialogState::Visible { entries, scroll_offset: max_offset })
        },
        HistoryIntent::Close => r is Hidden,
        HistoryIntent::ScrollUp => match state {
            HistoryDialogState::Visible { entries, scroll_offset } => {
                let down = if scroll_offset >= 1 {
                    (scroll_offset - 1) as usize
                } else {
                    0usize
                };
                r == (HistoryDialogState::Visible { entries, scroll_offset: down })
            },
            _ => r == state,
        },
        HistoryIntent::ScrollDown => match state {
            HistoryDialogState::Visible { entries, scroll_offset } => {
                let max_offset = if entries.len() >= MAX_VISIBLE_ROWS {
                    (entries.len() - MAX_VISIBLE_ROWS) as usize
                } else {
                    0usize
                };
                let up = if scroll_offset + 1 <= max_offset {
                    (scroll_offset + 1) as usize
                } else {
                    max_offset
                };
                r == (HistoryDialogState::Visible { entries, scroll_offset: up })
            },
            _ => r == state,
        },
    }
}

impl HistoryReducer {
    pub fn reduce(state: HistoryDialogState, intent: HistoryIntent) -> (r: HistoryDialogState)
        ensures
            history_reduce_spec(state, intent, r),
    {
        match intent {
            HistoryIntent::Load { entries } => {
                let scroll_offset = entries.len().saturating_sub(MAX_VISIBLE_ROWS);
                HistoryDialogState::Visible { entries, scroll_offset }
            },
            HistoryIntent::Close => HistoryDialogState::Hidden,
            HistoryIntent::ScrollUp => match state {
                HistoryDialogState::Visible { entries, scroll_offset } => {
                    HistoryDialogState::Visible {
                        entries,
                        scroll_offset: scroll_offset.saturating_sub(1),
                    }
                },
                other => other,
            },
            HistoryIntent::ScrollDown => match state {
                HistoryDialogState::Visible { entries, scroll_offset } => {
                    let max_offset = entries.len().saturating_sub(MAX_VISIBLE_ROWS);
                    let bumped = if scroll_offset < max_offset {
                        scroll_offset + 1
                    } else {
                        max_offset
                    };
                    HistoryDialogState::Visible { scroll_offset: bumped, entries }
                },
                other => other,
            },
        }
    }
}

} // verus!
