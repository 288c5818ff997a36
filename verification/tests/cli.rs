use tui_game::cli::operation::Opperation;
use tui_game::cli::parser::{ParseError, parse_create_opperation, parse_delete_opperation, parse_opperation};
use tui_game::input::{KeyCode, KeyEvent, KeyEventKind};
use tui_game::model::{Fight, FightManager, InputEvent, Player, TurnType, input_event};

#[test]
fn an_operation_is_a_leading_word_and_the_rest_is_left_over() {
    assert_eq!(parse_opperation("create thing"), Ok((" thing", Opperation::Create)));
    assert_eq!(parse_opperation("delete"), Ok(("", Opperation::Delete {})));
    assert_eq!(parse_opperation("remove"), Err(ParseError { input: "remove" }));
    assert_eq!(parse_opperation("creat"), Err(ParseError { input: "creat" }));
}

#[test]
fn each_word_parses_only_itself() {
    assert_eq!(parse_create_opperation("createdelete"), Ok(("delete", Opperation::Create)));
    assert!(parse_create_opperation("delete").is_err());
    assert_eq!(parse_delete_opperation("delete é"), Ok((" é", Opperation::Delete {})));
    assert!(parse_delete_opperation(" delete").is_err());
}

#[test]
fn a_simple_fight_starts_on_the_players_turn() {
    let fight = Fight::new(vec![]);
    assert_eq!(fight.turn, TurnType::Player);
    assert_eq!(fight.turn_count, 0);
    let manager = FightManager::new(Player::new(), fight);
    assert!(manager.fight.enemies.is_empty());
}

#[test]
fn simple_model_input_reads_presses_only() {
    assert!(matches!(input_event(KeyEvent::new(KeyCode::Char('x'))), Some(InputEvent::Key('x'))));
    assert!(matches!(input_event(KeyEvent::new(KeyCode::Up)), Some(InputEvent::UpArrow)));
    assert!(input_event(KeyEvent::new(KeyCode::Tab)).is_none());
    let mut release = KeyEvent::new(KeyCode::Enter);
    release.kind = KeyEventKind::Release;
    assert!(input_event(release).is_none());
}
