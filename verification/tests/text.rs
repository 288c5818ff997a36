use tui_game::text::{decimal, meter_bar};

#[test]
fn a_meter_fills_from_the_left() {
    assert_eq!(meter_bar(2, 5), "██░░░");
}

#[test]
fn a_full_bar_and_an_empty_bar() {
    assert_eq!(meter_bar(4, 4), "████");
    assert_eq!(meter_bar(0, 4), "░░░░");
}

#[test]
fn an_overfull_meter_stays_its_width() {
    assert_eq!(meter_bar(9, 3), "███");
    for filled in 0..=10 {
        assert_eq!(meter_bar(filled, 6).chars().count(), 6);
    }
}

#[test]
fn a_zero_width_meter_is_empty() {
    assert_eq!(meter_bar(3, 0), "");
}

#[test]
fn decimals_have_no_leading_zeros() {
    assert_eq!(decimal(0), "0");
    assert_eq!(decimal(407), "407");
}
