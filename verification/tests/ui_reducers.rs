use anyrelay::pty::parse_command_from;
use anyrelay::ui::history::{
    HistoryDialogState, HistoryEntry, HistoryIntent, HistoryReducer, MAX_VISIBLE_ROWS,
};
use anyrelay::ui::pty_state::PtyLifecycleState;
use anyrelay::ui::summarize::{SummarizeDialogState, SummarizeIntent, SummarizeReducer};
use std::collections::VecDeque;

fn make_entries(count: usize) -> Vec<HistoryEntry> {
    (0..count)
        .map(|i| HistoryEntry {
            timestamp_ms: 0,
            from_backend: if i == 0 { None } else { Some(format!("backend-{}", i - 1)) },
            to_backend: format!("backend-{}", i),
        })
        .collect()
}

#[test]
fn reducer_load_shows_dialog() {
    let state = HistoryReducer::reduce(
        HistoryDialogState::Hidden,
        HistoryIntent::Load { entries: make_entries(3) },
    );
    assert!(state.is_visible());
}

#[test]
fn reducer_load_scrolls_to_end() {
    let entries = make_entries(20);
    let state = HistoryReducer::reduce(HistoryDialogState::Hidden, HistoryIntent::Load { entries });
    if let HistoryDialogState::Visible { scroll_offset, .. } = state {
        assert_eq!(scroll_offset, 20 - MAX_VISIBLE_ROWS);
    } else {
        panic!("expected Visible");
    }
}

#[test]
fn reducer_close_hides_dialog() {
    let state = HistoryReducer::reduce(
        HistoryDialogState::Visible { entries: make_entries(3), scroll_offset: 0 },
        HistoryIntent::Close,
    );
    assert!(!state.is_visible());
}

#[test]
fn reducer_scroll_up_clamps_at_zero() {
    let state = HistoryDialogState::Visible { entries: make_entries(3), scroll_offset: 0 };
    let state = HistoryReducer::reduce(state, HistoryIntent::ScrollUp);
    if let HistoryDialogState::Visible { scroll_offset, .. } = state {
        assert_eq!(scroll_offset, 0);
    }
}

#[test]
fn reducer_scroll_down_clamps_at_max() {
    let entries = make_entries(20);
    let max = entries.len().saturating_sub(MAX_VISIBLE_ROWS);
    let state = HistoryDialogState::Visible { entries, scroll_offset: max };
    let state = HistoryReducer::reduce(state, HistoryIntent::ScrollDown);
    if let HistoryDialogState::Visible { scroll_offset, .. } = state {
        assert_eq!(scroll_offset, max);
    }
}

#[test]
fn reducer_scroll_on_hidden_is_noop() {
    let state = HistoryReducer::reduce(HistoryDialogState::Hidden, HistoryIntent::ScrollUp);
    assert!(!state.is_visible());
}

#[test]
fn history_state_default_is_hidden() {
    let state = HistoryDialogState::default();
    assert!(!state.is_visible());
}

#[test]
fn history_state_visible_reports_visible() {
    let state = HistoryDialogState::Visible { entries: make_entries(1), scroll_offset: 0 };
    assert!(state.is_visible());
}

#[test]
fn start_transitions_to_summarizing() {
    let state = SummarizeDialogState::Hidden;
    let new_state = SummarizeReducer::reduce(state, SummarizeIntent::Start);
    assert!(matches!(new_state, SummarizeDialogState::Summarizing { animation_tick: 0 }));
}

#[test]
fn animation_tick_increments() {
    let state = SummarizeDialogState::Summarizing { animation_tick: 5 };
    let new_state = SummarizeReducer::reduce(state, SummarizeIntent::AnimationTick);
    assert!(matches!(new_state, SummarizeDialogState::Summarizing { animation_tick: 6 }));
}

#[test]
fn first_error_transitions_to_retrying() {
    let state = SummarizeDialogState::Summarizing { animation_tick: 0 };
    let new_state = SummarizeReducer::reduce(
        state,
        SummarizeIntent::Error { message: "timeout".into() },
    );

    match new_state {
        SummarizeDialogState::Retrying { attempt, error, .. } => {
            assert_eq!(attempt, 1);
            assert_eq!(error, "timeout");
        },
        _ => panic!("Expected Retrying state"),
    }
}

#[test]
fn max_retries_transitions_to_failed() {
    let state = SummarizeDialogState::Retrying {
        attempt: 2,
        error: "previous".into(),
        animation_tick: 0,
    };

    let new_state = SummarizeReducer::reduce(
        state,
        SummarizeIntent::Error { message: "final error".into() },
    );

    match new_state {
        SummarizeDialogState::Failed { error, selected_button } => {
            assert_eq!(error, "final error");
            assert_eq!(selected_button, 0);
        },
        _ => panic!("Expected Failed state"),
    }
}

#[test]
fn success_transitions_to_hidden() {
    let state = SummarizeDialogState::Summarizing { animation_tick: 0 };
    let new_state = SummarizeReducer::reduce(state, SummarizeIntent::Success);
    assert_eq!(new_state, SummarizeDialogState::Hidden);
}

#[test]
fn mod_parse_command_defaults_to_claude() {
    let configured = "agent".to_string();
    let (command, args) = parse_command_from(configured.clone(), Vec::new());
    assert_eq!(command, configured);
    assert!(args.is_empty());
}

#[test]
fn mod_parse_command_with_args() {
    let args = vec!["--debug".to_string(), "--model".to_string()];
    let (command, remaining) = parse_command_from("agent".to_string(), args);
    assert_eq!(command, "agent");
    assert_eq!(remaining, vec!["--debug".to_string(), "--model".to_string()]);
}

#[test]
fn pty_state_default_is_buffering() {
    let state = PtyLifecycleState::default();
    assert!(state.is_buffering());
    assert!(!state.is_ready());
}

#[test]
fn pty_state_ready_is_not_buffering() {
    let state = PtyLifecycleState::Ready;
    assert!(state.is_ready());
    assert!(!state.is_buffering());
}

#[test]
fn pty_state_attached_is_buffering() {
    let state = PtyLifecycleState::Attached { buffer: VecDeque::new() };
    assert!(state.is_buffering());
}
