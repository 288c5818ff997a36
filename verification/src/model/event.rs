use vstd::prelude::*;

use crate::input::{KeyCode, KeyEvent, KeyEventKind};
use crate::model::Spell;

verus! {

#[derive(Clone)]
pub enum GameEvent {
    PlaySpell(Spell),
}

#[derive(Clone, Copy, PartialEq, Eq, Structural)]
pub enum InputEvent {
    Key(char),
    UpArrow,
    DownArrow,
    RightArrow,
    LeftArrow,
    Enter,
    Esc,
}

/// The input a key event stands for: presses of the arrows, Enter, Esc and
/// character keys; anything else, and any release or repeat, is nothing.
pub open spec fn input_of(event: KeyEvent) -> Option<InputEvent> {
    if event.kind != KeyEventKind::Press {
        None
    } else {
        match event.code {
            KeyCode::Enter => Some(InputEvent::Enter),
            KeyCode::Left => Some(InputEvent::LeftArrow),
            KeyCode::Right => Some(InputEvent::RightArrow),
            KeyCode::Up => Some(InputEvent::UpArrow),
            KeyCode::Down => Some(InputEvent::DownArrow),
            KeyCode::Char(c) => Some(InputEvent::Key(c)),
            KeyCode::Esc => Some(InputEvent::Esc),
            _ => None,
        }
    }
}

/// Translate a key event read from the terminal.
pub fn input_event(event: KeyEvent) -> (r: Option<InputEvent>)
    ensures
        r == input_of(event),
{
    match event.kind {
        KeyEventKind::Press => match event.code {
            KeyCode::Enter => Some(InputEvent::Enter),
            KeyCode::Left => Some(InputEvent::LeftArrow),
            KeyCode::Right => Some(InputEvent::RightArrow),
            KeyCode::Up => Some(InputEvent::UpArrow),
            KeyCode::Down => Some(InputEvent::DownArrow),
            KeyCode::Char(c) => Some(InputEvent::Key(c)),
            KeyCode::Esc => Some(InputEvent::Esc),
            _ => None,
        },
        _ => None,
    }
}

} // verus!
