use mastermind::evaluation::Evaluation;
use mastermind::mastermind::GuessStatus;
use mastermind::mastermind::Mastermind;
use mastermind::mastermind_state::MastermindState;

#[test]
fn guess_status_display() {
    assert_eq!("Success", GuessStatus::Success.to_display_string());
    assert_eq!(
        "Incorrect(Evaluation { correct_match: 2, color_present: 1 })",
        GuessStatus::Incorrect(Evaluation::new(2, 1)).to_display_string()
    );
}

#[test]
fn mastermind_new() {
    let mm = Mastermind::new([92, 17, 45, 3]);
    assert_eq!(0, mm.get_guesses().len());
    let initial = mm.get_initial();
    assert_eq!(0, initial.get_evaluation().get_color_present());
    assert_eq!(0, initial.get_evaluation().get_correct_match());
}

#[test]
fn mastermind_display() {
    let buffer = Mastermind::new([92, 17, 45, 3]).to_display_string();
    assert_eq!(64, buffer.len());
}

#[test]
fn guess_with_success() {
    let mut mm = Mastermind::new([31, 64, 2, 55]);
    assert_eq!(GuessStatus::Success, mm.guess(mm.get_initial().get_values()));
}

#[test]
fn guess_with_incorrect() {
    let mut mm = Mastermind::new([0, 1, 2, 3]);
    let mut state = MastermindState::new_random_state([4, 5, 0, 1]);
    while state == mm.get_initial() {
        state = MastermindState::new_random_state([5, 4, 3, 2]);
    }
    let status = mm.guess(state.get_values());
    let diff = mm.get_initial().new_diff_state(state.get_values());
    assert_eq!(GuessStatus::Incorrect(diff.get_evaluation()), status);
}

#[test]
fn guess_status_display_with_large_counts() {
    assert_eq!(
        "Incorrect(Evaluation { correct_match: 250, color_present: 13 })",
        GuessStatus::Incorrect(Evaluation::new(250, 13)).to_display_string()
    );
}
