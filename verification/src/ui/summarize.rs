//! Summarization dialog: state, intents and the reducer.

use vstd::prelude::*;

verus! {

/// How many automatic retries are attempted before the dialog asks the user.
pub const MAX_AUTO_RETRIES: u32 = 3;

/// State of the summarization dialog.
#[derive(Debug, Clone, PartialEq)]
pub enum SummarizeDialogState {
    Hidden,
    Summarizing { animation_tick: u64 },
    Retrying { attempt: u32, error: String, animation_tick: u64 },
    Failed { error: String, selected_button: u8 },
}

impl Default for SummarizeDialogState {
    fn default() -> (r: Self)
        ensures
            r is Hidden,
    {
        SummarizeDialogState::Hidden
    }
}

/// User or system intent driving the summarization dialog.
#[derive(Debug, Clone)]
pub enum SummarizeIntent {
    Start,
    AnimationTick,
    Success,
    Error { message: String },
    ToggleButton,
    Hide,
}

/// Pure reducer for the summarization dialog.
pub struct SummarizeReducer;

/// Relation between a prior state, an intent, and the state the reducer yields.
///
/// `Start` begins a fresh run; ticks advance the spinner; an error retries
/// automatically until `MAX_AUTO_RETRIES` attempts have failed, then the
/// dialog shows a failure with a two-button choice.
pub open spec fn summarize_reduce_spec(
    state: SummarizeDialogState,
    intent: SummarizeIntent,
    r: SummarizeDialogState,
) -> bool {
    match intent {
        SummarizeIntent::Start => r == (SummarizeDialogState::Summarizing { animation_tick: 0 }),
        SummarizeIntent::AnimationTick => match state {
            SummarizeDialogState::Summarizing { animation_tick } => {
                let next = if animation_tick == u64::MAX {
                    0u64
                } else {
                    (animation_tick + 1) as u64
                };
                r == (SummarizeDialogState::Summarizing { animation_tick: next })
            },
            SummarizeDialogState::Retrying { attempt, error, animation_tick } => {
                let next = if animation_tick == u64::MAX {
                    0u64
                } else {
                    (animation_tick + 1) as u64
                };
                r == (SummarizeDialogState::Retrying { attempt, error, animation_tick: next })
            },
            _ => r == state,
        },
        SummarizeIntent::Success => r is Hidden,
        SummarizeIntent::Error { message } => {
            let current_attempt: u32 = match state {
                SummarizeDialogState::Summarizing { .. } => 1u32,
                SummarizeDialogState::Retrying { attempt, .. } => if attempt == u32::MAX {
                    u32::MAX
                } else {
                    (attempt + 1) as u32
                },
                _ => 1u32,
            };
            if current_attempt >= MAX_AUTO_RETRIES {
                r == (SummarizeDialogState::Failed { error: message, selected_button: 0 })
            } else {
                r == (SummarizeDialogState::Retrying {
                    attempt: current_attempt,
                    error: message,
                    animation_tick: 0,
                })
            }
        },
        SummarizeIntent::ToggleButton => match state {
            SummarizeDialogState::Failed { error, selected_button } => {
                let flipped: u8 = if selected_button == 0 {
                    1u8
                } else {
                    0u8
                };
                r == (SummarizeDialogState::Failed { error, selected_button: flipped })
            },
            _ => r == state,
        },
        SummarizeIntent::Hide => r is Hidden,
    }
}

impl SummarizeReducer {
    pub fn reduce(state: SummarizeDialogState, intent: SummarizeIntent) -> (r: SummarizeDialogState)
        ensures
            summarize_reduce_spec(state, intent, r),
    {
        match intent {
            SummarizeIntent::Start => SummarizeDialogState::Summarizing { animation_tick: 0 },
            SummarizeIntent::AnimationTick => match state {
                SummarizeDialogState::Summarizing { animation_tick } => {
                    SummarizeDialogState::Summarizing {
                        animation_tick: animation_tick.wrapping_add(1),
                    }
                },
                SummarizeDialogState::Retrying { attempt, error, animation_tick } => {
                    SummarizeDialogState::Retrying {
                        attempt,
                        error,
                        animation_tick: animation_tick.wrapping_add(1),
                    }
                },
                other => other,
            },
            SummarizeIntent::Success => SummarizeDialogState::Hidden,
            SummarizeIntent::Error { message } => {
                let current_attempt: u32 = match &state {
                    SummarizeDialogState::Summarizing { .. } => 1,
                    SummarizeDialogState::Retrying { attempt, .. } => attempt.saturating_add(1),
                    _ => 1,
                };
                if current_attempt >= MAX_AUTO_RETRIES {
                    SummarizeDialogState::Failed { error: message, selected_button: 0 }
                } else {
                    SummarizeDialogState::Retrying {
                        attempt: current_attempt,
                        error: message,
                        animation_tick: 0,
                    }
                }
            },
            SummarizeIntent::ToggleButton => match state {
                SummarizeDialogState::Failed { error, selected_button } => {
                    SummarizeDialogState::Failed {
                        error,
                        selected_button: if selected_button == 0 {
                            1
                        } else {
                            0
                        },
                    }
                },
                other => other,
            },
            SummarizeIntent::Hide => SummarizeDialogState::Hidden,
        }
    }
}

} // verus!
