use kimi_bg_tool::persist::{save_step, SaveAction, SaveState, SAVE_DEBOUNCE_MS};

fn fresh(saved: &str) -> SaveState {
    SaveState { saved: saved.to_string(), pending: None, due_ms: None }
}

#[test]
fn unchanged_settings_do_nothing() {
    let mut st = fresh("a=1\n");
    assert_eq!(save_step(&mut st, "a=1\n".to_string(), 0), SaveAction::Idle);
    assert_eq!(st, fresh("a=1\n"));
}

#[test]
fn change_is_saved_after_debounce() {
    let mut st = fresh("a=1\n");
    assert_eq!(save_step(&mut st, "a=2\n".to_string(), 1000), SaveAction::WaitUntil(1000 + SAVE_DEBOUNCE_MS));
    assert_eq!(st.pending.as_deref(), Some("a=2\n"));
    // Still waiting.
    assert_eq!(save_step(&mut st, "a=2\n".to_string(), 1200), SaveAction::WaitUntil(1500));
    // Due: saved.
    assert_eq!(save_step(&mut st, "a=2\n".to_string(), 1500), SaveAction::Save("a=2\n".to_string()));
    assert_eq!(st, fresh("a=2\n"));
    // Settled.
    assert_eq!(save_step(&mut st, "a=2\n".to_string(), 9999), SaveAction::Idle);
}

#[test]
fn further_change_restarts_wait() {
    let mut st = fresh("a=1\n");
    save_step(&mut st, "a=2\n".to_string(), 0);
    assert_eq!(save_step(&mut st, "a=3\n".to_string(), 400), SaveAction::WaitUntil(900));
    assert_eq!(save_step(&mut st, "a=3\n".to_string(), 500), SaveAction::WaitUntil(900));
    assert_eq!(save_step(&mut st, "a=3\n".to_string(), 900), SaveAction::Save("a=3\n".to_string()));
}

#[test]
fn change_back_still_saves_pending_text() {
    // Going back to the saved text while a change waits is itself a change.
    let mut st = fresh("a=1\n");
    save_step(&mut st, "a=2\n".to_string(), 0);
    assert_eq!(save_step(&mut st, "a=1\n".to_string(), 100), SaveAction::WaitUntil(600));
    assert_eq!(save_step(&mut st, "a=1\n".to_string(), 600), SaveAction::Save("a=1\n".to_string()));
}

#[test]
fn due_time_saturates() {
    let mut st = fresh("");
    assert_eq!(save_step(&mut st, "x".to_string(), u64::MAX - 1), SaveAction::WaitUntil(u64::MAX));
}
