use mastermind::evaluation::Evaluation;

#[test]
fn evaluation_new() {
    let x = 4;
    let y = 5;
    let eval = Evaluation::new(x, y);
    assert_eq!(x, eval.get_correct_match());
    assert_eq!(y, eval.get_color_present());
}

#[test]
fn evaluation_display() {
    assert_eq!(
        "\u{1b}[30m\u{2589}\u{2589}\u{2589}\u{1b}[37m\u{2589}\u{2589}\u{2589}\u{2589}\u{1b}[0m",
        Evaluation::new(3, 4).to_display_string()
    );
}
