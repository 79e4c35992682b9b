use wavemark::keys::{key_action, KeyAction, Modifiers};

fn none() -> Modifiers {
    Modifiers { shift: false, control: false, alt: false, platform: false, function: false }
}

#[test]
fn bare_keys_when_the_composer_is_not_focused() {
    let m = none();
    assert_eq!(key_action("space", m, false), KeyAction::TogglePlay);
    assert_eq!(key_action("escape", m, false), KeyAction::Stop);
    assert_eq!(key_action("l", m, false), KeyAction::ToggleLoop);
    assert_eq!(key_action("m", m, false), KeyAction::ToggleMute);
    assert_eq!(key_action("home", m, false), KeyAction::SeekStart);
    assert_eq!(key_action("end", m, false), KeyAction::SeekEnd);
    assert_eq!(key_action("left", m, false), KeyAction::Nudge { forward: false, long: false });
    assert_eq!(key_action("+", m, false), KeyAction::ZoomIn);
    assert_eq!(key_action("=", m, false), KeyAction::ZoomIn);
    assert_eq!(key_action("-", m, false), KeyAction::ZoomOut);
    assert_eq!(key_action("j", m, false), KeyAction::NextAnnotation);
    assert_eq!(key_action("k", m, false), KeyAction::PreviousAnnotation);
    assert_eq!(key_action("a", m, false), KeyAction::Annotate);
    assert_eq!(key_action("e", m, false), KeyAction::Export);
    assert_eq!(key_action("delete", m, false), KeyAction::DeleteAtSelection);
    assert_eq!(key_action("backspace", m, false), KeyAction::DeleteAtSelection);
    assert_eq!(key_action("q", m, false), KeyAction::Ignore);
}

#[test]
fn shift_makes_nudges_long() {
    let m = Modifiers { shift: true, ..none() };
    assert_eq!(key_action("right", m, false), KeyAction::Nudge { forward: true, long: true });
}

#[test]
fn composer_keeps_its_keys() {
    for k in ["space", "a", "delete", "j", "left"] {
        assert_eq!(key_action(k, none(), true), KeyAction::Ignore, "{k}");
    }
}

#[test]
fn undo_and_redo_always_act() {
    let ctrl = Modifiers { control: true, ..none() };
    let cmd_shift = Modifiers { platform: true, shift: true, ..none() };
    assert_eq!(key_action("z", ctrl, true), KeyAction::Undo);
    assert_eq!(key_action("z", cmd_shift, false), KeyAction::Redo);
    assert_eq!(key_action("space", ctrl, false), KeyAction::Ignore);
    assert_eq!(key_action("z", none(), false), KeyAction::Ignore);
}
