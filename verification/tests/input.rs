use tui_game::action::Action;
use tui_game::app::Screen;
use tui_game::input;
use tui_game::input::{Key, KeyCode, KeyEvent, KeyEventKind, to_key};

fn press(code: KeyCode) -> KeyEvent {
    KeyEvent::new(code)
}

fn key(code: KeyCode) -> Key {
    to_key(press(code)).expect("a key the game uses")
}

#[test]
fn quit_works_from_every_screen() {
    for screen in [Screen::MapScreen, Screen::Combat, Screen::Event, Screen::GameOver] {
        assert_eq!(
            input::map(key(KeyCode::Char('q')), screen, false),
            Some(Action::Quit)
        );
    }
}

#[test]
fn number_keys_select_spell_slots_zero_indexed() {
    assert_eq!(
        input::map(key(KeyCode::Char('1')), Screen::Combat, false),
        Some(Action::AddComponent(0))
    );
    assert_eq!(
        input::map(key(KeyCode::Char('5')), Screen::Combat, false),
        Some(Action::AddComponent(4))
    );
    // There is no sixth slot.
    assert_eq!(input::map(key(KeyCode::Char('6')), Screen::Combat, false), None);
}

#[test]
fn the_same_key_means_different_things_per_screen() {
    assert_eq!(
        input::map(key(KeyCode::Enter), Screen::Combat, false),
        Some(Action::Cast)
    );
    assert_eq!(
        input::map(key(KeyCode::Enter), Screen::MapScreen, false),
        Some(Action::MapEnter)
    );
}

#[test]
fn input_key_releases_are_ignored() {
    let mut event = press(KeyCode::Enter);
    event.kind = KeyEventKind::Release;
    assert_eq!(to_key(event).and_then(|k| input::map(k, Screen::Combat, false)), None);
}

#[test]
fn a_pending_result_swallows_everything_except_dismiss_and_quit() {
    assert_eq!(
        input::map(key(KeyCode::Char('1')), Screen::Combat, true),
        None,
        "must not act on the fight while a result is on screen"
    );
    assert_eq!(
        input::map(key(KeyCode::Enter), Screen::Combat, true),
        Some(Action::Continue)
    );
    assert_eq!(
        input::map(key(KeyCode::Char('q')), Screen::Combat, true),
        Some(Action::Quit)
    );
}

#[test]
fn restart_is_only_offered_once_the_run_is_over() {
    assert_eq!(
        input::map(key(KeyCode::Char('r')), Screen::GameOver, false),
        Some(Action::Restart)
    );
    assert_ne!(
        input::map(key(KeyCode::Char('r')), Screen::Combat, false),
        Some(Action::Restart)
    );
}

#[test]
fn native_key_releases_are_ignored() {
    // Terminals report press and release; acting on both would double
    // every keystroke.
    let mut event = KeyEvent::new(KeyCode::Enter);
    assert_eq!(to_key(event), Some(Key::Enter));

    event.kind = KeyEventKind::Release;
    assert_eq!(to_key(event), None);
}

#[test]
fn unmapped_keys_are_dropped() {
    assert_eq!(to_key(KeyEvent::new(KeyCode::F(5))), None);
}

#[test]
fn each_screen_binds_its_own_keys() {
    assert_eq!(input::map(Key::Left, Screen::MapScreen, false), Some(Action::MapPrev));
    assert_eq!(input::map(Key::Char('l'), Screen::MapScreen, false), Some(Action::MapNext));
    assert_eq!(input::map(Key::Backspace, Screen::Combat, false), Some(Action::Undo));
    assert_eq!(input::map(Key::Char('c'), Screen::Combat, false), Some(Action::Clear));
    assert_eq!(input::map(Key::Tab, Screen::Combat, false), Some(Action::EndTurn));
    assert_eq!(input::map(Key::Up, Screen::Event, false), Some(Action::ChoicePrev));
    assert_eq!(input::map(Key::Char(' '), Screen::Event, false), Some(Action::ChoiceSelect));
    assert_eq!(input::map(Key::Enter, Screen::GameOver, false), None);
    assert_eq!(input::map(Key::Esc, Screen::GameOver, false), Some(Action::Quit));
}
