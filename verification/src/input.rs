//! Key mapping. Which action a key produces depends on the active screen, so
//! the same arrow keys can mean different things without any ambiguity.
//!
//! A terminal's key events are first reduced to a platform-neutral [`Key`]
//! (see [`to_key`]); the mapping itself only ever sees that.

use vstd::prelude::*;

use crate::action::Action;
use crate::app::Screen;

verus! {

/// A key, as the mapping understands it.
#[derive(Debug, Clone, Copy, PartialEq, Eq, Structural)]
pub enum Key {
    Char(char),
    Left,
    Right,
    Up,
    Down,
    Enter,
    Backspace,
    Delete,
    Tab,
    Esc,
}

/// The key of a key event as a terminal reports it.
#[derive(Debug, Clone, Copy, PartialEq, Eq, Structural)]
pub enum KeyCode {
    Backspace,
    Enter,
    Left,
    Right,
    Up,
    Down,
    Tab,
    Delete,
    Esc,
    Char(char),
    F(u8),
    /// Any other key, none of which the game uses.
    Other,
}

/// Whether a key event is a press, a repeat or a release.
#[derive(Debug, Clone, Copy, PartialEq, Eq, Structural)]
pub enum KeyEventKind {
    Press,
    Repeat,
    Release,
}

/// A key event as a terminal reports it, as far as the game reads it: the
/// key and the kind of event. Modifier keys are never read.
#[derive(Debug, Clone, Copy, PartialEq, Eq, Structural)]
pub struct KeyEvent {
    pub code: KeyCode,
    pub kind: KeyEventKind,
}

impl KeyEvent {
    /// A press of `code`.
    pub fn new(code: KeyCode) -> (r: KeyEvent)
        ensures
            r == (KeyEvent { code, kind: KeyEventKind::Press }),
    {
        KeyEvent { code, kind: KeyEventKind::Press }
    }
}

/// The key a terminal event stands for: presses only, since terminals
/// report press and release and acting on both would double every
/// keystroke; keys the game never uses are dropped.
pub open spec fn key_of(event: KeyEvent) -> Option<Key> {
    if event.kind != KeyEventKind::Press {
        None
    } else {
        match event.code {
            KeyCode::Char(c) => Some(Key::Char(c)),
            KeyCode::Left => Some(Key::Left),
            KeyCode::Right => Some(Key::Right),
            KeyCode::Up => Some(Key::Up),
            KeyCode::Down => Some(Key::Down),
            KeyCode::Enter => Some(Key::Enter),
            KeyCode::Backspace => Some(Key::Backspace),
            KeyCode::Delete => Some(Key::Delete),
            KeyCode::Tab => Some(Key::Tab),
            KeyCode::Esc => Some(Key::Esc),
            KeyCode::F(_) | KeyCode::Other => None,
        }
    }
}

/// Translate a terminal key event into the platform-neutral [`Key`].
pub fn to_key(event: KeyEvent) -> (r: Option<Key>)
    ensures
        r == key_of(event),
{
    // Only act on presses; ignore releases and repeats.
    if event.kind != KeyEventKind::Press {
        return None;
    }
    match event.code {
        KeyCode::Char(c) => Some(Key::Char(c)),
        KeyCode::Left => Some(Key::Left),
        KeyCode::Right => Some(Key::Right),
        KeyCode::Up => Some(Key::Up),
        KeyCode::Down => Some(Key::Down),
        KeyCode::Enter => Some(Key::Enter),
        KeyCode::Backspace => Some(Key::Backspace),
        KeyCode::Delete => Some(Key::Delete),
        KeyCode::Tab => Some(Key::Tab),
        KeyCode::Esc => Some(Key::Esc),
        KeyCode::F(_) | KeyCode::Other => None,
    }
}

/// The spell slot a digit key selects: `1` to `5` pick slots 0 to 4.
pub open spec fn slot_of(c: char) -> Option<usize> {
    if c == '1' {
        Some(0usize)
    } else if c == '2' {
        Some(1usize)
    } else if c == '3' {
        Some(2usize)
    } else if c == '4' {
        Some(3usize)
    } else if c == '5' {
        Some(4usize)
    } else {
        None
    }
}

/// The table of key bindings: `q` and Esc quit anywhere, `r` restarts once
/// the run is over, a pending result only takes a dismissal, and otherwise
/// each screen binds its own keys.
pub open spec fn binding(key: Key, screen: Screen, awaiting_dismiss: bool) -> Option<Action> {
    if key == Key::Char('q') || key == Key::Esc {
        Some(Action::Quit)
    } else if key == Key::Char('r') && screen == Screen::GameOver {
        Some(Action::Restart)
    } else if awaiting_dismiss {
        if key == Key::Enter || key == Key::Char(' ') {
            Some(Action::Continue)
        } else {
            None
        }
    } else {
        match screen {
            Screen::MapScreen => match key {
                Key::Left | Key::Up | Key::Char('h') => Some(Action::MapPrev),
                Key::Right | Key::Down | Key::Char('l') => Some(Action::MapNext),
                Key::Enter | Key::Char(' ') => Some(Action::MapEnter),
                _ => None,
            },
            Screen::Combat => match key {
                Key::Char(c) => if c == 'c' {
                    Some(Action::Clear)
                } else if c == 'e' {
                    Some(Action::EndTurn)
                } else {
                    match slot_of(c) {
                        Some(slot) => Some(Action::AddComponent(slot)),
                        None => None,
                    }
                },
                Key::Backspace => Some(Action::Undo),
                Key::Delete => Some(Action::Clear),
                Key::Up | Key::Left => Some(Action::TargetPrev),
                Key::Down | Key::Right => Some(Action::TargetNext),
                Key::Enter => Some(Action::Cast),
                Key::Tab => Some(Action::EndTurn),
                _ => None,
            },
            Screen::Event => match key {
                Key::Up | Key::Left => Some(Action::ChoicePrev),
                Key::Down | Key::Right => Some(Action::ChoiceNext),
                Key::Enter | Key::Char(' ') => Some(Action::ChoiceSelect),
                _ => None,
            },
            Screen::GameOver => None,
        }
    }
}

/// Delete is another name for `c`, and Tab for `e`: on every screen, with or
/// without a result pending, each pair maps to the same action; in a fight
/// with nothing pending that is clearing the whole build, and ending the
/// turn, never undoing a single component.
pub proof fn lemma_key_aliases(screen: Screen, awaiting_dismiss: bool)
    ensures
        binding(Key::Delete, screen, awaiting_dismiss) == binding(Key::Char('c'), screen, awaiting_dismiss),
        binding(Key::Tab, screen, awaiting_dismiss) == binding(Key::Char('e'), screen, awaiting_dismiss),
        screen == Screen::Combat && !awaiting_dismiss ==> binding(Key::Delete, screen, awaiting_dismiss) == Some(
            Action::Clear,
        ) && binding(Key::Tab, screen, awaiting_dismiss) == Some(Action::EndTurn) && binding(
            Key::Backspace,
            screen,
            awaiting_dismiss,
        ) == Some(Action::Undo),
{
}

fn digit_slot(c: char) -> (r: Option<usize>)
    ensures
        r == slot_of(c),
{
    if c == '1' {
        Some(0)
    } else if c == '2' {
        Some(1)
    } else if c == '3' {
        Some(2)
    } else if c == '4' {
        Some(3)
    } else if c == '5' {
        Some(4)
    } else {
        None
    }
}

pub fn map(key: Key, screen: Screen, awaiting_dismiss: bool) -> (r: Option<Action>)
    ensures
        r == binding(key, screen, awaiting_dismiss),
{
    // Global keys work everywhere.
    match key {
        Key::Char('q') | Key::Esc => return Some(Action::Quit),
        Key::Char('r') => {
            if screen == Screen::GameOver {
                return Some(Action::Restart);
            }
        },
        _ => {},
    }
    if awaiting_dismiss {
        return match key {
            Key::Enter | Key::Char(' ') => Some(Action::Continue),
            _ => None,
        };
    }
    match screen {
        Screen::MapScreen => match key {
            Key::Left | Key::Up | Key::Char('h') => Some(Action::MapPrev),
            Key::Right | Key::Down | Key::Char('l') => Some(Action::MapNext),
            Key::Enter | Key::Char(' ') => Some(Action::MapEnter),
            _ => None,
        },
        Screen::Combat => match key {
            Key::Char('c') => Some(Action::Clear),
            Key::Char('e') => Some(Action::EndTurn),
            Key::Char(c) => match digit_slot(c) {
                Some(slot) => Some(Action::AddComponent(slot)),
                None => None,
            },
            Key::Backspace => Some(Action::Undo),
            Key::Delete => Some(Action::Clear),
            Key::Up | Key::Left => Some(Action::TargetPrev),
            Key::Down | Key::Right => Some(Action::TargetNext),
            Key::Enter => Some(Action::Cast),
            Key::Tab => Some(Action::EndTurn),
            _ => None,
        },
        Screen::Event => match key {
            Key::Up | Key::Left => Some(Action::ChoicePrev),
            Key::Down | Key::Right => Some(Action::ChoiceNext),
            Key::Enter | Key::Char(' ') => Some(Action::ChoiceSelect),
            _ => None,
        },
        Screen::GameOver => None,
    }
}

/// Quit works from every screen, whatever else is going on.
pub proof fn lemma_quit_works_everywhere(screen: Screen, awaiting_dismiss: bool)
    ensures
        binding(Key::Char('q'), screen, awaiting_dismiss) == Some(Action::Quit),
        binding(Key::Esc, screen, awaiting_dismiss) == Some(Action::Quit),
{
}

/// Restart is only ever offered once the run is over.
pub proof fn lemma_restart_only_when_over(key: Key, screen: Screen, awaiting_dismiss: bool)
    ensures
        binding(key, screen, awaiting_dismiss) == Some(Action::Restart) ==> screen == Screen::GameOver,
{
}

/// While a result is pending, nothing but dismissing it or quitting gets
/// through.
pub proof fn lemma_pending_result_swallows_keys(key: Key, screen: Screen)
    ensures
        binding(key, screen, true) is None || binding(key, screen, true) == Some(Action::Continue) || binding(
            key,
            screen,
            true,
        ) == Some(Action::Quit) || binding(key, screen, true) == Some(Action::Restart),
{
}

/// Key releases and repeats never reach the mapping.
pub proof fn lemma_only_presses_count(event: KeyEvent)
    ensures
        event.kind != KeyEventKind::Press ==> key_of(event) is None,
{
}

} // verus!
