use hive::hive_core::{HiveCommand, HiveResponse};
use hive::tui::{
    activity_lines, centered_percents, flatten_lines, handle_key, key_action, scroll_selection, Action,
    KeyChord,
    KeyPress, Tui, TuiState, CONTROL, SHIFT,
};

fn key(k: KeyPress, modifiers: u8) -> KeyChord {
    KeyChord { key: k, modifiers }
}

#[test]
fn key_bindings() {
    assert!(matches!(handle_key(key(KeyPress::Char('p'), CONTROL)), Some(HiveCommand::Ping)));
    assert!(matches!(handle_key(key(KeyPress::Char('s'), CONTROL)), Some(HiveCommand::SpawnPod(_))));
    match handle_key(key(KeyPress::Enter, SHIFT)) {
        Some(HiveCommand::Submit(s)) => assert_eq!(s, ""),
        _ => panic!("enter should submit"),
    }
    assert!(handle_key(key(KeyPress::Char('p'), 0)).is_none());
    assert!(handle_key(key(KeyPress::Char('p'), CONTROL | SHIFT)).is_none());
    assert!(handle_key(key(KeyPress::Backspace, 0)).is_none());
}

#[test]
fn typing_and_submitting() {
    let mut tui = Tui::new();
    for c in "hey".chars() {
        assert!(tui.on_key(key(KeyPress::Char(c), 0)).is_none());
    }
    assert!(tui.on_key(key(KeyPress::Backspace, 0)).is_none());
    assert_eq!(tui.bar_input, "he");
    match tui.on_key(key(KeyPress::Enter, 0)) {
        Some(HiveCommand::Submit(s)) => assert_eq!(s, "he"),
        _ => panic!("enter should submit the bar"),
    }
    assert!(tui.on_key(key(KeyPress::Backspace, 0)).is_none());
    assert!(tui.on_key(key(KeyPress::Backspace, 0)).is_none());
    assert!(tui.on_key(key(KeyPress::Backspace, 0)).is_none());
    assert_eq!(tui.bar_input, "");
}

#[test]
fn spawn_key_opens_spawn_screen() {
    let mut tui = Tui::new();
    assert_eq!(tui.state, TuiState::Home);
    assert!(tui.on_key(key(KeyPress::Char('s'), CONTROL)).is_none());
    assert_eq!(tui.state, TuiState::Spawn);
    assert!(matches!(tui.on_key(key(KeyPress::Char('p'), CONTROL)), Some(HiveCommand::Ping)));
}

#[test]
fn layout_helpers() {
    assert_eq!(centered_percents(50), (25, 50, 25));
    assert_eq!(centered_percents(40), (30, 40, 30));
    assert_eq!(centered_percents(100), (0, 100, 0));
    assert_eq!(scroll_selection(0), None);
    assert_eq!(scroll_selection(4), Some(3));
}

#[test]
fn activity_is_wrapped_inside_the_border() {
    let activity = vec![
        HiveResponse { text: "Memory safety without garbage collection.".to_string() },
        HiveResponse { text: "short".to_string() },
    ];
    let lines = activity_lines(&activity, 17);
    assert_eq!(
        lines,
        vec!["Memory safety", "without garbage", "collection.", "short"]
    );
}

#[test]
fn flatten_keeps_order() {
    let chunks = vec![
        vec!["a".to_string(), "b".to_string()],
        vec![],
        vec!["c".to_string()],
    ];
    assert_eq!(flatten_lines(&chunks), vec!["a", "b", "c"]);
}

#[test]
fn control_c_quits() {
    assert_eq!(key_action(key(KeyPress::Char('c'), CONTROL)), Some(Action::Quit));
    assert_eq!(key_action(key(KeyPress::Enter, 0)), Some(Action::Submit));
    assert_eq!(key_action(key(KeyPress::Char('s'), CONTROL)), Some(Action::SpawnPod));
    assert_eq!(key_action(key(KeyPress::Char('c'), 0)), None);
    assert_eq!(key_action(key(KeyPress::Char('q'), CONTROL)), None);
    assert_eq!(key_action(key(KeyPress::Other, CONTROL)), None);
}
