use diskmap::protocol::{
    classify_errno, classify_event, repl_step, signal_action, EventSource, IoDisposition,
    ReplAction, SignalAction,
};

#[test]
fn quit_and_exit_close_without_reply() {
    assert_eq!(repl_step("quit"), ReplAction::Close);
    assert_eq!(repl_step("exit"), ReplAction::Close);
    assert_eq!(repl_step("  quit \r\n"), ReplAction::Close);
}

#[test]
fn blank_line_prompts_again() {
    assert_eq!(repl_step(""), ReplAction::Prompt);
    assert_eq!(repl_step("   \t"), ReplAction::Prompt);
}

#[test]
fn anything_else_is_dispatched() {
    assert_eq!(repl_step("get a"), ReplAction::Dispatch);
    assert_eq!(repl_step("frobnicate"), ReplAction::Dispatch);
    assert_eq!(repl_step("quit now"), ReplAction::Dispatch);
}

#[test]
fn events_go_to_their_descriptor() {
    assert_eq!(classify_event(3, 3, 4), EventSource::Signal);
    assert_eq!(classify_event(4, 3, 4), EventSource::Listener);
    assert_eq!(classify_event(9, 3, 4), EventSource::Unknown);
    // the signal descriptor wins a tie, as in the event loop
    assert_eq!(classify_event(5, 5, 5), EventSource::Signal);
}

#[test]
fn signals_map_to_actions() {
    assert_eq!(signal_action(2, 2, 10), SignalAction::Terminate);
    assert_eq!(signal_action(10, 2, 10), SignalAction::Compact);
    assert_eq!(signal_action(15, 2, 10), SignalAction::Ignore);
}

#[test]
fn transient_errors_retry() {
    assert_eq!(classify_errno(4, 4, 11), IoDisposition::Retry);
    assert_eq!(classify_errno(11, 4, 11), IoDisposition::Retry);
    assert_eq!(classify_errno(13, 4, 11), IoDisposition::Fatal);
}
