//! Saving the settings a moment after they last changed, so that dragging a
//! slider writes the settings file once and not on every frame. The caller
//! runs the loop: each frame it hands over the settings text and the time, and
//! performs the action it gets back.
use vstd::prelude::*;

verus! {

/// How long the settings must stay unchanged before they are saved, in
/// milliseconds.
pub const SAVE_DEBOUNCE_MS: u64 = 500;

/// What the saver remembers between frames.
#[derive(Clone, Debug, PartialEq, Eq)]
pub struct SaveState {
    /// The settings text last saved (or loaded at start).
    pub saved: String,
    /// A changed settings text waiting to be saved.
    pub pending: Option<String>,
    /// When the waiting text is due, in milliseconds of a monotonic clock.
    pub due_ms: Option<u64>,
}

/// What the caller does after a frame.
#[derive(Clone, Debug, PartialEq, Eq)]
pub enum SaveAction {
    /// Nothing to do.
    Idle,
    /// Look again at the given time (a repaint is requested for then).
    WaitUntil(u64),
    /// Write this text to the settings file now.
    Save(String),
}

/// An optional text, viewed.
pub open spec fn opt_text(s: Option<String>) -> Option<Seq<char>> {
    match s {
        Some(x) => Some(x@),
        None => None,
    }
}

/// The settings differ from the text waiting to be saved, or, with none
/// waiting, from the text last saved.
pub open spec fn is_dirty(pending: Option<Seq<char>>, saved: Seq<char>, current: Seq<char>) -> bool {
    match pending {
        Some(p) => p != current,
        None => current != saved,
    }
}

/// `a + b`, or the largest 64-bit number when that overflows.
pub open spec fn sat_add(a: u64, b: u64) -> u64 {
    if a + b > u64::MAX {
        u64::MAX
    } else {
        (a + b) as u64
    }
}

/// One frame of the saver: from the state, the current settings text and the
/// time, the next state and the action. A change (re)starts the wait; once the
/// wait is over, the waiting text is saved and counts as saved whether or not
/// the write succeeds.
pub open spec fn save_step_spec(
    saved: Seq<char>,
    pending: Option<Seq<char>>,
    due: Option<u64>,
    current: Seq<char>,
    now: u64,
) -> (Seq<char>, Option<Seq<char>>, Option<u64>, SaveActionView) {
    let dirty = is_dirty(pending, saved, current);
    let p1 = if dirty {
        Some(current)
    } else {
        pending
    };
    let d1 = if dirty {
        Some(sat_add(now, SAVE_DEBOUNCE_MS))
    } else {
        due
    };
    match d1 {
        None => (saved, p1, d1, SaveActionView::Idle),
        Some(d) => if now < d {
            (saved, p1, d1, SaveActionView::WaitUntil(d))
        } else {
            match p1 {
                Some(c) => (c, None, None, SaveActionView::Save(c)),
                None => (saved, None, d1, SaveActionView::Idle),
            }
        },
    }
}

/// The mathematical form of an action.
pub enum SaveActionView {
    Idle,
    WaitUntil(u64),
    Save(Seq<char>),
}

/// An action, viewed.
pub open spec fn action_view(a: SaveAction) -> SaveActionView {
    match a {
        SaveAction::Idle => SaveActionView::Idle,
        SaveAction::WaitUntil(t) => SaveActionView::WaitUntil(t),
        SaveAction::Save(s) => SaveActionView::Save(s@),
    }
}

/// The state after a frame, and the action (see [`save_step_spec`]).
pub fn save_step(st: &mut SaveState, current: String, now_ms: u64) -> (a: SaveAction)
    ensures
        save_step_spec(old(st).saved@, opt_text(old(st).pending), old(st).due_ms, current@, now_ms) == (
            final(st).saved@,
            opt_text(final(st).pending),
            final(st).due_ms,
            action_view(a),
        ),
{
    let dirty = match &st.pending {
        Some(p) => *p != current,
        None => current != st.saved,
    };
    if dirty {
        st.pending = Some(current);
        st.due_ms = Some(now_ms.saturating_add(SAVE_DEBOUNCE_MS));
    }
    let due = match st.due_ms {
        Some(d) => d,
        None => {
            return SaveAction::Idle;
        },
    };
    if now_ms < due {
        return SaveAction::WaitUntil(due);
    }
    match st.pending.take() {
        Some(content) => {
            st.due_ms = None;
            st.saved = content.clone();
            SaveAction::Save(content)
        },
        None => SaveAction::Idle,
    }
}

/// Settings that were just saved are not saved again while they stay the same:
/// the next frame with the same text does nothing and changes nothing.
pub proof fn law_saved_settles(saved: Seq<char>, now: u64)
    ensures
        save_step_spec(saved, None, None, saved, now) == (
            saved,
            None::<Seq<char>>,
            None::<u64>,
            SaveActionView::Idle,
        ),
{
}

/// A change is never lost: after a frame, the current text is saved, being
/// saved now, or waiting to be saved.
pub proof fn law_change_kept(
    saved: Seq<char>,
    pending: Option<Seq<char>>,
    due: Option<u64>,
    current: Seq<char>,
    now: u64,
)
    ensures
        ({
            let (s1, p1, d1, a) = save_step_spec(saved, pending, due, current, now);
            ||| s1 == current
            ||| p1 == Some(current)
        }),
{
}

/// Nothing is written before the settings have stayed unchanged for the
/// debounce time: a frame that sees a change never saves.
pub proof fn law_no_save_on_change(
    saved: Seq<char>,
    pending: Option<Seq<char>>,
    due: Option<u64>,
    current: Seq<char>,
    now: u64,
)
    requires
        is_dirty(pending, saved, current),
        now < u64::MAX - SAVE_DEBOUNCE_MS,
    ensures
        save_step_spec(saved, pending, due, current, now).3 == SaveActionView::WaitUntil(
            (now + SAVE_DEBOUNCE_MS) as u64,
        ),
{
}

} // verus!
