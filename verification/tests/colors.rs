use mastermind::colors::Colors;

#[test]
fn converting_number_to_color() {
    let all = Colors::iter();
    for i in 0..all.len() {
        assert!(all[i] == Colors::from(i as u8));
    }
}

#[test]
fn converting_out_of_bounds_number_produces_back() {
    assert!(Colors::last() == Colors::from(Colors::len()));
}

#[test]
fn last_color_is_last() {
    let all = Colors::iter();
    assert!(Colors::last() == all[all.len() - 1]);
}

#[test]
fn display_displays_color() {
    assert_eq!("\u{1b}[30m\u{2589}\u{1b}[0m", Colors::Black.to_display_string());
    assert_eq!("\u{1b}[31m\u{2589}\u{1b}[0m", Colors::Red.to_display_string());
    assert_eq!("\u{1b}[32m\u{2589}\u{1b}[0m", Colors::Green.to_display_string());
    assert_eq!("\u{1b}[33m\u{2589}\u{1b}[0m", Colors::Yellow.to_display_string());
    assert_eq!("\u{1b}[34m\u{2589}\u{1b}[0m", Colors::Blue.to_display_string());
    assert_eq!("\u{1b}[37m\u{2589}\u{1b}[0m", Colors::White.to_display_string());
}
