use five_lines::evaluate::{eval_tally, eval_total, EvalRow};

fn row(question: &str, expected: bool, correct: bool, raised: bool) -> EvalRow {
    EvalRow { question: question.to_string(), expected, correct, raised }
}

#[test]
fn judgments_are_tallied_per_question_in_order() {
    let rows = [
        row("r9", false, true, false),
        row("r2", true, true, true),
        row("r9", false, false, true),
        row("r2", true, false, false),
        row("r2", false, true, false),
        row("r7", true, true, true),
    ];
    let tally: Vec<(String, usize, usize, usize, usize, usize)> = eval_tally(&rows)
        .into_iter()
        .map(|t| (t.question, t.n, t.correct, t.raised, t.false_alarms, t.missed))
        .collect();
    assert_eq!(
        tally,
        [
            ("r2".to_string(), 3, 2, 1, 0, 1),
            ("r7".to_string(), 1, 1, 1, 0, 0),
            ("r9".to_string(), 2, 1, 1, 1, 0),
        ]
    );
    let total = eval_total(&rows);
    assert_eq!(
        (total.question.as_str(), total.n, total.correct, total.raised, total.false_alarms, total.missed),
        ("all", 6, 4, 3, 1, 1)
    );
}

#[test]
fn no_judgments_tally_to_nothing() {
    assert!(eval_tally(&[]).is_empty());
    let total = eval_total(&[]);
    assert_eq!((total.n, total.correct, total.raised, total.false_alarms, total.missed), (0, 0, 0, 0, 0));
}
