//! Keyboard shortcuts of the editor: which action a key press asks for.
//!
//! Two rules keep shortcuts from fighting the text input: anything with the
//! platform or control modifier is an editor command (undo, redo), and bare
//! keys belong to the editor only while the annotation composer is not
//! focused, so typing a note never jumps around or deletes things.
use vstd::prelude::*;

verus! {

/// The modifier keys held during a key press.
#[derive(Debug, Clone, Copy, PartialEq, Eq, Structural)]
pub struct Modifiers {
    pub shift: bool,
    pub control: bool,
    pub alt: bool,
    /// The platform key (command on macOS, super elsewhere).
    pub platform: bool,
    pub function: bool,
}

/// What a key press asks the editor to do.
#[derive(Debug, Clone, Copy, PartialEq, Eq, Structural)]
pub enum KeyAction {
    Undo,
    Redo,
    /// Play when paused, pause when playing.
    TogglePlay,
    Stop,
    ToggleLoop,
    ToggleMute,
    SeekStart,
    SeekEnd,
    /// Move the playhead a little (or, with shift, a second) back or forward.
    Nudge { forward: bool, long: bool },
    ZoomIn,
    ZoomOut,
    NextAnnotation,
    PreviousAnnotation,
    Annotate,
    Export,
    DeleteAtSelection,
    /// Not a shortcut: leave the key alone.
    Ignore,
}

/// The action for `key` (the key's name, such as `space` or `a`) pressed with
/// `m`, while the composer is focused or not.
pub open spec fn action_for(key: Seq<char>, m: Modifiers, composer_focused: bool) -> KeyAction {
    if (m.platform || m.control) && key == "z"@ {
        if m.shift { KeyAction::Redo } else { KeyAction::Undo }
    } else if m.control || m.alt || m.platform || m.function || composer_focused {
        KeyAction::Ignore
    } else if key == "space"@ {
        KeyAction::TogglePlay
    } else if key == "escape"@ {
        KeyAction::Stop
    } else if key == "l"@ {
        KeyAction::ToggleLoop
    } else if key == "m"@ {
        KeyAction::ToggleMute
    } else if key == "home"@ {
        KeyAction::SeekStart
    } else if key == "end"@ {
        KeyAction::SeekEnd
    } else if key == "left"@ {
        KeyAction::Nudge { forward: false, long: m.shift }
    } else if key == "right"@ {
        KeyAction::Nudge { forward: true, long: m.shift }
    } else if key == "+"@ || key == "="@ {
        KeyAction::ZoomIn
    } else if key == "-"@ {
        KeyAction::ZoomOut
    } else if key == "j"@ {
        KeyAction::NextAnnotation
    } else if key == "k"@ {
        KeyAction::PreviousAnnotation
    } else if key == "a"@ {
        KeyAction::Annotate
    } else if key == "e"@ {
        KeyAction::Export
    } else if key == "delete"@ || key == "backspace"@ {
        KeyAction::DeleteAtSelection
    } else {
        KeyAction::Ignore
    }
}

fn is_key(key: &String, name: &str) -> (r: bool)
    ensures
        r == (key@ == name@),
{
    key.eq(&name.to_owned())
}

/// The action a key press asks for.
pub fn key_action(key: &str, m: Modifiers, composer_focused: bool) -> (a: KeyAction)
    ensures
        a == action_for(key@, m, composer_focused),
{
    let k = key.to_owned();
    if (m.platform || m.control) && is_key(&k, "z") {
        return if m.shift { KeyAction::Redo } else { KeyAction::Undo };
    }
    if m.control || m.alt || m.platform || m.function || composer_focused {
        return KeyAction::Ignore;
    }
    if is_key(&k, "space") {
        KeyAction::TogglePlay
    } else if is_key(&k, "escape") {
        KeyAction::Stop
    } else if is_key(&k, "l") {
        KeyAction::ToggleLoop
    } else if is_key(&k, "m") {
        KeyAction::ToggleMute
    } else if is_key(&k, "home") {
        KeyAction::SeekStart
    } else if is_key(&k, "end") {
        KeyAction::SeekEnd
    } else if is_key(&k, "left") {
        KeyAction::Nudge { forward: false, long: m.shift }
    } else if is_key(&k, "right") {
        KeyAction::Nudge { forward: true, long: m.shift }
    } else if is_key(&k, "+") || is_key(&k, "=") {
        KeyAction::ZoomIn
    } else if is_key(&k, "-") {
        KeyAction::ZoomOut
    } else if is_key(&k, "j") {
        KeyAction::NextAnnotation
    } else if is_key(&k, "k") {
        KeyAction::PreviousAnnotation
    } else if is_key(&k, "a") {
        KeyAction::Annotate
    } else if is_key(&k, "e") {
        KeyAction::Export
    } else if is_key(&k, "delete") || is_key(&k, "backspace") {
        KeyAction::DeleteAtSelection
    } else {
        KeyAction::Ignore
    }
}


/// Typing a note never triggers a shortcut: while the composer is focused,
/// only undo and redo (platform or control with `z`) act.
pub proof fn lemma_composer_keeps_its_keys(key: Seq<char>, m: Modifiers)
    ensures
        action_for(key, m, true) == KeyAction::Ignore
            || action_for(key, m, true) == KeyAction::Undo
            || action_for(key, m, true) == KeyAction::Redo,
        (action_for(key, m, true) == KeyAction::Undo || action_for(key, m, true) == KeyAction::Redo)
            ==> (m.platform || m.control) && key == "z"@,
{
}

/// Undo and redo answer to the same keys whether or not the composer is
/// focused.
pub proof fn lemma_undo_keys_always_act(key: Seq<char>, m: Modifiers, focused: bool)
    requires
        (m.platform || m.control) && key == "z"@,
    ensures
        action_for(key, m, focused) == (if m.shift { KeyAction::Redo } else { KeyAction::Undo }),
{
}

/// The arrow keys nudge the playhead: left goes back, right goes forward,
/// and holding shift makes the step long. This holds whenever no command
/// modifier is held and the composer is not focused.
pub proof fn lemma_arrows_nudge(key: Seq<char>, m: Modifiers)
    requires
        key == "left"@ || key == "right"@,
        !m.control && !m.alt && !m.platform && !m.function,
    ensures
        action_for(key, m, false) == (KeyAction::Nudge { forward: key == "right"@, long: m.shift }),
{
    reveal_strlit("left");
    reveal_strlit("right");
    reveal_strlit("z");
    reveal_strlit("space");
    reveal_strlit("escape");
    reveal_strlit("l");
    reveal_strlit("m");
    reveal_strlit("home");
    reveal_strlit("end");
    assert("left"@.len() == 4 && "right"@.len() == 5 && "z"@.len() == 1 && "space"@.len() == 5);
    assert("escape"@.len() == 6 && "l"@.len() == 1 && "m"@.len() == 1 && "home"@.len() == 4);
    assert("end"@.len() == 3);
    assert("left"@[0] == 'l' && "home"@[0] == 'h' && "right"@[0] == 'r' && "space"@[0] == 's');
    if key == "left"@ {
        assert(key != "z"@ && key != "space"@ && key != "escape"@ && key != "l"@ && key != "m"@);
        assert(key != "home"@ && key != "end"@ && key != "right"@);
    } else {
        assert(key != "z"@ && key != "space"@ && key != "escape"@ && key != "l"@ && key != "m"@);
        assert(key != "home"@ && key != "end"@ && key != "left"@);
    }
}

} // verus!
