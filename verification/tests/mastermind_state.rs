use mastermind::colors::Colors;
use mastermind::evaluation::Evaluation;
use mastermind::mastermind_state::get_guess_from_string;
use mastermind::mastermind_state::MastermindState;
use mastermind::mastermind_state::NUM_ELEMENTS;

#[test]
fn create_mastermind_state() {
    let state = MastermindState::new_random_state([861, 4, 99, 12007]);
    println!("{}", state.to_display_string());
}

#[test]
fn diff_with_solution() {
    let colors = [Colors::Black, Colors::Blue, Colors::Green, Colors::Red];
    let mms = MastermindState::new(colors, Evaluation::new(0, 0));
    let diff = mms.diff(&colors);
    assert_eq!(Evaluation::new(4, 0), diff);
}

#[test]
fn diff_correct_colors() {
    let colors = [Colors::Black, Colors::Blue, Colors::Green, Colors::Red];
    let mms = MastermindState::new(colors, Evaluation::new(0, 0));
    let diff = mms.diff(&[Colors::Blue, Colors::Green, Colors::Red, Colors::Black]);
    assert_eq!(Evaluation::new(0, 4), diff);
}

#[test]
fn diff_two_colors_correct() {
    let colors = [Colors::Black, Colors::Blue, Colors::Green, Colors::Red];
    let mms = MastermindState::new(colors, Evaluation::new(0, 0));
    let diff = mms.diff(&[Colors::Yellow, Colors::Yellow, Colors::Red, Colors::Black]);
    assert_eq!(Evaluation::new(0, 2), diff);
}

#[test]
fn diff_no_color_correct() {
    let colors = [Colors::Black, Colors::Blue, Colors::Green, Colors::Red];
    let mms = MastermindState::new(colors, Evaluation::new(0, 0));
    let diff = mms.diff(&[
        Colors::Yellow,
        Colors::Yellow,
        Colors::Yellow,
        Colors::Yellow,
    ]);
    assert_eq!(Evaluation::new(0, 0), diff);
}

#[test]
fn diff_duplicate_color0() {
    let colors = [Colors::Black, Colors::Black, Colors::Green, Colors::Red];
    let mms = MastermindState::new(colors, Evaluation::new(0, 0));
    let diff = mms.diff(&[
        Colors::Black,
        Colors::Yellow,
        Colors::Yellow,
        Colors::Yellow,
    ]);
    assert_eq!(Evaluation::new(1, 0), diff);
}

#[test]
fn diff_duplicate_color1() {
    let colors = [Colors::Black, Colors::Black, Colors::Green, Colors::Red];
    let mms = MastermindState::new(colors, Evaluation::new(0, 0));
    let diff = mms.diff(&[
        Colors::Yellow,
        Colors::Black,
        Colors::Yellow,
        Colors::Yellow,
    ]);
    assert_eq!(Evaluation::new(1, 0), diff);
}

#[test]
fn diff_duplicate_color2() {
    let colors = [Colors::Black, Colors::Black, Colors::Green, Colors::Red];
    let mms = MastermindState::new(colors, Evaluation::new(0, 0));
    let diff = mms.diff(&[Colors::Black, Colors::Black, Colors::Yellow, Colors::Yellow]);
    assert_eq!(Evaluation::new(2, 0), diff);
}

#[test]
fn diff_duplicate_color3() {
    let colors = [Colors::Black, Colors::Black, Colors::Green, Colors::Red];
    let mms = MastermindState::new(colors, Evaluation::new(0, 0));
    let diff = mms.diff(&[Colors::Yellow, Colors::Yellow, Colors::Black, Colors::Black]);
    assert_eq!(Evaluation::new(0, 2), diff);
}

#[test]
fn diff_only_one_color() {
    let colors = [Colors::Black; NUM_ELEMENTS];
    let mms = MastermindState::new(colors, Evaluation::new(0, 0));
    let diff = mms.diff(&[Colors::Yellow, Colors::Yellow, Colors::Black, Colors::Black]);
    assert_eq!(Evaluation::new(2, 0), diff);
}

#[test]
fn diff_only_one_color_except_one() {
    let colors = [Colors::Black, Colors::Black, Colors::Black, Colors::Blue];
    let mms = MastermindState::new(colors, Evaluation::new(0, 0));
    let diff = mms.diff(&[Colors::Yellow, Colors::Yellow, Colors::Black, Colors::Black]);
    assert_eq!(Evaluation::new(1, 1), diff);
}

#[test]
fn diff_only_one_color_except_one_with_color_fit() {
    let colors = [Colors::Black, Colors::Black, Colors::Black, Colors::Blue];
    let mms = MastermindState::new(colors, Evaluation::new(0, 0));
    let diff = mms.diff(&[
        Colors::Yellow,
        Colors::Yellow,
        Colors::Yellow,
        Colors::Black,
    ]);
    assert_eq!(Evaluation::new(0, 1), diff);
}

#[test]
fn diff_only_one_color_except_one_bla() {
    let colors = [Colors::Black, Colors::Black, Colors::Black, Colors::Blue];
    let mms = MastermindState::new(colors, Evaluation::new(0, 0));
    let diff = mms.diff(&[Colors::Black, Colors::Yellow, Colors::Yellow, Colors::Black]);
    assert_eq!(Evaluation::new(1, 1), diff);
}

#[test]
fn diff_two_colors() {
    let colors = [Colors::Black, Colors::Black, Colors::Blue, Colors::Blue];
    let mms = MastermindState::new(colors, Evaluation::new(0, 0));
    let diff = mms.diff(&[Colors::Blue, Colors::Blue, Colors::Black, Colors::Black]);
    assert_eq!(Evaluation::new(0, 4), diff);
}

#[test]
fn get_guess_from_empty_string_returns_blue_colors() {
    let values = get_guess_from_string(String::from(""));
    assert_eq!(values, [Colors::Blue; 4]);
}

#[test]
fn get_guess_from_string_returns_result() {
    let values = get_guess_from_string(String::from("3214"));
    assert_eq!(
        values,
        [Colors::Yellow, Colors::Blue, Colors::Green, Colors::White]
    );
}

#[test]
fn get_guess_from_too_big_string_considers_first_characters() {
    let values = get_guess_from_string(String::from("0123456"));
    assert_eq!(
        values,
        [Colors::Red, Colors::Green, Colors::Blue, Colors::Yellow]
    );
}

#[test]
fn get_guess_from_invalid_numbers_returns_blue_colors() {
    let values = get_guess_from_string(String::from("888888"));
    assert_eq!(values, [Colors::Blue; 4]);
}

#[test]
fn get_guess_from_invalid_number_is_ignored_and_padded_with_blue_colors() {
    let values = get_guess_from_string(String::from("3393"));
    assert_eq!(
        values,
        [Colors::Yellow, Colors::Yellow, Colors::Yellow, Colors::Blue]
    );
}

#[test]
fn get_guess_from_invalid_character_is_ignored_and_padded_with_blue_colors() {
    let values = get_guess_from_string(String::from("3l33"));
    assert_eq!(
        values,
        [Colors::Yellow, Colors::Yellow, Colors::Yellow, Colors::Blue]
    );
}

#[test]
fn get_guess_ignores_invalid_character_and_number_of_too_big_string_and_pads_with_blue() {
    let values = get_guess_from_string(String::from("3l95180r4"));
    assert_eq!(
        values,
        [Colors::Yellow, Colors::Black, Colors::Blue, Colors::Blue]
    );
}
