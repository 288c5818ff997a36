use tui_game::game::options::{Cycle, Difficulty, LogSpeed, MapLength, OptionField, Options};

#[test]
fn cycling_forwards_then_back_returns_to_the_start() {
    for value in MapLength::ALL {
        assert_eq!(value.next().prev(), *value);
    }
    for value in Difficulty::ALL {
        assert_eq!(value.next().prev(), *value);
    }
    for value in LogSpeed::ALL {
        assert_eq!(value.next().prev(), *value);
    }
}

#[test]
fn cycling_through_every_value_wraps_to_where_it_began() {
    let mut value = Difficulty::Calm;
    for _ in 0..Difficulty::ALL.len() {
        value = value.next();
    }
    assert_eq!(value, Difficulty::Calm);
}

#[test]
fn every_value_has_a_label_and_a_stable_index() {
    for (i, value) in MapLength::ALL.iter().enumerate() {
        assert!(!value.label().is_empty());
        assert_eq!(value.index(), i);
    }
}

#[test]
fn adjusting_a_field_changes_only_that_field() {
    let mut options = Options::default();
    let before = options;
    options.adjust(OptionField::Difficulty, true);
    assert_ne!(options.difficulty, before.difficulty);
    assert_eq!(options.map_length, before.map_length);
    assert_eq!(options.log_speed, before.log_speed);
}

#[test]
fn map_lengths_are_ordered_and_all_playable() {
    assert!(MapLength::Short.rows() < MapLength::Standard.rows());
    assert!(MapLength::Standard.rows() < MapLength::Long.rows());
    // Generation needs at least a start row and a boss row.
    for value in MapLength::ALL {
        assert!(value.rows() >= 2);
    }
}

#[test]
fn adjusting_backwards_wraps_and_labels_follow_the_value() {
    let mut options = Options::default();
    options.adjust(OptionField::LogSpeed, false);
    assert_eq!(options.log_speed, LogSpeed::Instant);
    options.adjust(OptionField::LogSpeed, false);
    assert_eq!(options.log_speed, LogSpeed::Slow);
    assert_eq!(options.value_label(OptionField::LogSpeed), "Slow");
    assert_eq!(options.value_label(OptionField::MapLength), "Standard (5 rows)");
    assert_eq!(LogSpeed::Slow.ticks_per_entry(), 3);
    assert_eq!(LogSpeed::Instant.ticks_per_entry(), 0);
    assert_eq!(OptionField::Difficulty.label(), "Difficulty");
    assert_eq!(OptionField::LogSpeed.next(), OptionField::MapLength);
}
