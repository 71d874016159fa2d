use mastermind::colors::Colors;
use mastermind::mastermind::Mastermind;
use mastermind::mastermind_state::{MastermindState, Values};
use mastermind::multi_digit_solver;
use mastermind::single_digit_solver;
use mastermind::solver::{parse_args, SolverKind};
use mastermind::state_of_the_art_solver;

type SolverFn = fn(&mut Mastermind) -> Values;

fn check_solution(values: &Values, mm: &Mastermind, solution: &Values) {
    let pattern = mm.get_initial();
    assert!(pattern.are_values_equal(solution));
    assert!(MastermindState::new_initial(*values).are_values_equal(solution));
}

fn parse_args_tests(args: Vec<String>, kind: SolverKind) {
    assert_eq!(parse_args(args), kind);
}

#[test]
fn empty_args_results_in_manual_solver() {
    parse_args(vec![]);
}

#[test]
fn no_args_results_in_manual_solver() {
    parse_args_tests(vec![String::from("bla")], SolverKind::Manual);
}

#[test]
fn single_results_in_single_digit_solver() {
    parse_args_tests(
        vec![String::from("bla"), String::from("single")],
        SolverKind::SingleDigit,
    );
}

#[test]
fn multi_results_in_multi_digit_solver() {
    parse_args_tests(
        vec![String::from("bla"), String::from("multi")],
        SolverKind::MultiDigit,
    );
}

#[test]
fn unknown_string_results_in_manual_solver() {
    parse_args_tests(
        vec![String::from("bla"), String::from("fdjafda")],
        SolverKind::Manual,
    );
}

#[test]
fn single_digit_solver_solve_has_correct_type() {
    let _solvefn: SolverFn = single_digit_solver::solve;
}

#[test]
fn single_digit_solver_solve_solves_the_game() {
    let mut mm = Mastermind::new([48, 1213, 7, 30000]);
    let solution = single_digit_solver::solve(&mut mm);
    check_solution(&mm.get_initial().get_values(), &mm, &solution);
}

#[test]
fn multi_digit_solver_solve_has_correct_type() {
    let _solvefn: SolverFn = multi_digit_solver::solve;
}

#[test]
fn multi_digit_solver_solve_solves_the_game() {
    let mut mm = Mastermind::new([48, 1213, 7, 30000]);
    let solution = multi_digit_solver::solve(&mut mm);
    check_solution(&mm.get_initial().get_values(), &mm, &solution);
}

#[test]
fn state_of_the_art_solver_solve_has_correct_type() {
    let _solvefn: SolverFn = state_of_the_art_solver::solve;
}

#[test]
fn state_of_the_art_solver_solve_solves_the_game() {
    let mut mm = Mastermind::new([48, 1213, 7, 30000]);
    let solution = state_of_the_art_solver::solve(&mut mm);
    check_solution(&mm.get_initial().get_values(), &mm, &solution);
}

fn solver_tests(values: Values) {
    let solvers: [(&str, SolverFn); 2] = [
        ("single_digit_solver", single_digit_solver::solve),
        ("multi_digit_solver", multi_digit_solver::solve),
    ];
    for (solver_name, solver) in solvers.iter() {
        let mut mm = Mastermind::new_with_state(values);
        let solution = solver(&mut mm);
        check_solution(&values, &mm, &solution);
        println!("{} solved in {} steps", solver_name, mm.get_guesses().len());
    }
}

#[test]
fn solve_with_red_state_solves_the_game() {
    solver_tests([Colors::Red; 4]);
}

#[test]
fn solve_with_green_state_solves_the_game() {
    solver_tests([Colors::Green; 4]);
}

#[test]
fn solve_with_white_state_solves_the_game() {
    solver_tests([Colors::White; 4]);
}

#[test]
fn solve_with_yellow_state_solves_the_game() {
    solver_tests([Colors::Yellow; 4]);
}

#[test]
fn solve_with_blue_state_solves_the_game() {
    solver_tests([Colors::Blue; 4]);
}

#[test]
fn solve_with_black_state_solves_the_game() {
    solver_tests([Colors::Black; 4]);
}

#[test]
fn solve_with_mixed_state_solves_the_game0() {
    solver_tests([Colors::Blue, Colors::White, Colors::Green, Colors::Yellow]);
}

#[test]
fn solve_with_mixed_state_solves_the_game1() {
    solver_tests([Colors::Red, Colors::White, Colors::Black, Colors::Yellow]);
}

#[test]
fn solve_with_mixed_state_solves_the_game2() {
    solver_tests([Colors::Red, Colors::Red, Colors::Black, Colors::Black]);
}

#[test]
fn solve_with_mixed_state_solves_the_game3() {
    solver_tests([Colors::Red, Colors::Black, Colors::Black, Colors::Red]);
}

#[test]
fn solve_with_mixed_state_solves_the_game4() {
    solver_tests([Colors::White, Colors::Blue, Colors::Blue, Colors::White]);
}

#[test]
fn solve_with_mixed_state_solves_the_game5() {
    solver_tests([Colors::Green, Colors::Yellow, Colors::Green, Colors::Yellow]);
}

#[test]
fn solve_with_mixed_state_solves_the_game6() {
    solver_tests([Colors::Black, Colors::White, Colors::Yellow, Colors::Blue]);
}

#[test]
fn solve_with_mixed_state_solves_the_game7() {
    solver_tests([Colors::White, Colors::Yellow, Colors::Blue, Colors::Black]);
}

#[test]
fn solve_with_mixed_state_solves_the_game8() {
    solver_tests([Colors::White, Colors::Blue, Colors::Yellow, Colors::Black]);
}

#[test]
fn solve_with_mixed_state_solves_the_game9() {
    solver_tests([Colors::Black, Colors::Blue, Colors::Yellow, Colors::White]);
}
