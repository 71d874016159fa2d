use mastermind::colors::Colors;
use mastermind::evaluation::Evaluation;
use mastermind::mastermind::Mastermind;
use mastermind::mastermind_state::{get_guess_from_string, MastermindState, Values};
use mastermind::multi_digit_solver;
use mastermind::single_digit_solver;
use mastermind::state_of_the_art_solver;

fn feedback(secret: Values, guess: Values) -> Evaluation {
    MastermindState::new_initial(secret).diff(&guess)
}

#[test]
fn feedback_scenarios() {
    let secret = [Colors::Black, Colors::Blue, Colors::Green, Colors::Red];
    assert_eq!(Evaluation::new(4, 0), feedback(secret, secret));
    assert_eq!(
        Evaluation::new(0, 4),
        feedback(secret, [Colors::Blue, Colors::Green, Colors::Red, Colors::Black])
    );
    assert_eq!(
        Evaluation::new(0, 2),
        feedback(secret, [Colors::Yellow, Colors::Yellow, Colors::Red, Colors::Black])
    );
    let doubled = [Colors::Black, Colors::Black, Colors::Green, Colors::Red];
    assert_eq!(
        Evaluation::new(1, 0),
        feedback(doubled, [Colors::Black, Colors::Yellow, Colors::Yellow, Colors::Yellow])
    );
    let uniform = [Colors::Black; 4];
    assert_eq!(
        Evaluation::new(2, 0),
        feedback(uniform, [Colors::Yellow, Colors::Yellow, Colors::Black, Colors::Black])
    );
}

#[test]
fn feedback_counts_are_bounded() {
    let secrets = [
        [Colors::Red; 4],
        [Colors::Red, Colors::Red, Colors::Green, Colors::Green],
        [Colors::Black, Colors::Blue, Colors::Green, Colors::Red],
        [Colors::White, Colors::White, Colors::Yellow, Colors::Black],
    ];
    for secret in secrets.iter() {
        for guess in secrets.iter() {
            let eval = feedback(*secret, *guess);
            assert!(eval.get_correct_match() + eval.get_color_present() <= 4);
        }
    }
}

#[test]
fn swapping_mismatched_guess_positions_keeps_the_total() {
    let secret = [Colors::Red, Colors::Green, Colors::Blue, Colors::Yellow];
    // both swapped positions disagree with the secret
    let guess = [Colors::Green, Colors::Red, Colors::Blue, Colors::Yellow];
    let swapped = [Colors::Red, Colors::Green, Colors::Blue, Colors::Yellow];
    let e1 = feedback(secret, guess);
    let e2 = feedback(secret, swapped);
    assert_eq!(
        e1.get_correct_match() + e1.get_color_present(),
        e2.get_correct_match() + e2.get_color_present()
    );
    let guess2 = [Colors::Black, Colors::White, Colors::White, Colors::Black];
    let swapped2 = [Colors::White, Colors::Black, Colors::White, Colors::Black];
    let e3 = feedback(secret, guess2);
    let e4 = feedback(secret, swapped2);
    assert_eq!(
        e3.get_correct_match() + e3.get_color_present(),
        e4.get_correct_match() + e4.get_color_present()
    );
}

#[test]
fn parser_round_trips_a_rank_string() {
    let values = [Colors::Red, Colors::Green, Colors::Blue, Colors::Yellow];
    assert_eq!(values, get_guess_from_string(String::from("0123")));
    let repeated = [Colors::Black, Colors::Black, Colors::White, Colors::Red];
    assert_eq!(repeated, get_guess_from_string(String::from("5540")));
}

#[test]
fn entropy_words_reduce_to_palette_ranks() {
    let state = MastermindState::new_random_state([6, 7, 8, 9]);
    assert_eq!(
        state.get_values(),
        [Colors::Red, Colors::Green, Colors::Blue, Colors::Yellow]
    );
}

fn assert_no_replay(mm: &Mastermind) {
    let rounds = mm.get_guesses();
    for a in 0..rounds.len() {
        for b in (a + 1)..rounds.len() {
            assert!(rounds[a].get_values() != rounds[b].get_values());
        }
    }
}

#[test]
fn no_strategy_replays_a_guess() {
    let secrets = [
        [Colors::Red; 4],
        [Colors::Black; 4],
        [Colors::Red, Colors::Black, Colors::Black, Colors::Red],
        [Colors::Green, Colors::Yellow, Colors::Green, Colors::Yellow],
        [Colors::White, Colors::Blue, Colors::Green, Colors::Red],
        [Colors::Black, Colors::White, Colors::Yellow, Colors::Blue],
    ];
    for secret in secrets.iter() {
        let mut mm = Mastermind::new_with_state(*secret);
        single_digit_solver::solve(&mut mm);
        assert_no_replay(&mm);
        assert!(mm.get_guesses().len() <= 21);

        let mut mm = Mastermind::new_with_state(*secret);
        multi_digit_solver::solve(&mut mm);
        assert_no_replay(&mm);
        assert!(mm.get_guesses().len() <= 85);

        let mut mm = Mastermind::new_with_state(*secret);
        state_of_the_art_solver::solve(&mut mm);
        assert_no_replay(&mm);
        assert!(mm.get_guesses().len() <= 1296);
    }
}

#[test]
fn exhaustive_strategy_solves_every_kind_of_secret() {
    let secrets = [
        [Colors::Blue; 4],
        [Colors::Red, Colors::Red, Colors::Green, Colors::Green],
        [Colors::Black, Colors::Blue, Colors::Green, Colors::Red],
        [Colors::Yellow, Colors::White, Colors::White, Colors::Yellow],
    ];
    for secret in secrets.iter() {
        let mut mm = Mastermind::new_with_state(*secret);
        let solution = state_of_the_art_solver::solve(&mut mm);
        assert!(mm.get_initial().are_values_equal(&solution));
    }
}

#[test]
fn displayed_round_shows_squares_and_feedback() {
    let state = MastermindState::new(
        [Colors::Red, Colors::Green, Colors::Blue, Colors::Yellow],
        Evaluation::new(1, 2),
    );
    assert_eq!(
        "\u{1b}[31m\u{2589}\u{1b}[0m\u{1b}[32m\u{2589}\u{1b}[0m\u{1b}[34m\u{2589}\u{1b}[0m\u{1b}[33m\u{2589}\u{1b}[0m  \u{1b}[30m\u{2589}\u{1b}[37m\u{2589}\u{2589}\u{1b}[0m",
        state.to_display_string()
    );
}

#[test]
fn census_strategy_stays_disciplined_on_a_spread_of_secrets() {
    // a deterministic spread across the whole candidate space; the census
    // strategy is a heuristic, so what is checked here is its discipline:
    // no guess is ever repeated, the turn budget holds, and the answer is
    // always a rearrangement of the secret's symbols
    let all = mastermind::colors::Colors::iter();
    let mut idx: usize = 0;
    while idx < 1296 {
        let secret = [
            all[idx / 216],
            all[(idx / 36) % 6],
            all[(idx / 6) % 6],
            all[idx % 6],
        ];
        let mut mm = Mastermind::new_with_state(secret);
        let solution = multi_digit_solver::solve(&mut mm);
        assert_no_replay(&mm);
        assert!(mm.get_guesses().len() <= 85);
        for c in all.iter() {
            assert_eq!(
                secret.iter().filter(|x| *x == c).count(),
                solution.iter().filter(|x| *x == c).count()
            );
        }
        idx += 13;
    }
}
