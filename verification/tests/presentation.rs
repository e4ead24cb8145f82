use harper_core::linting::lint::{lints_for_range, Lint, LintKind, Severity, Suggestion};
use harper_core::position::{
    index_to_position, position_to_index, range_to_span, span_to_range, Position,
};
use harper_core::span::Span;

fn chars(text: &str) -> Vec<char> {
    text.chars().collect()
}

fn place(line: usize, column: usize) -> Position {
    Position { line, column }
}

fn lint(start: usize, end: usize, priority: u8) -> Lint {
    Lint {
        span: Span { start, end },
        lint_kind: LintKind::Spelling,
        suggestions: Vec::new(),
        message: String::new(),
        priority,
    }
}

#[test]
fn replacement_is_put_in_place_of_the_span() {
    let source = chars("say helo world");
    let put = Suggestion::ReplaceWith(chars("hello"));
    assert_eq!(put.apply(Span::new(4, 8), &source), chars("say hello world"));
    assert_eq!(put.apply(Span::new(0, 0), &source), chars("hellosay helo world"));
    assert_eq!(put.apply(Span::new(14, 14), &source), chars("say helo worldhello"));
    assert_eq!(put.apply(Span::new(0, 14), &source), chars("hello"));
    assert_eq!(Suggestion::Remove.apply(Span::new(3, 8), &source), chars("say world"));
    assert_eq!(Suggestion::ReplaceWith(Vec::new()).apply(Span::new(0, 4), &source), chars("helo world"));
}

#[test]
fn kinds_have_their_severity() {
    assert_eq!(LintKind::Spelling.severity(), Severity::Information);
    assert_eq!(LintKind::Capitalization.severity(), Severity::Information);
    assert_eq!(LintKind::Readability.severity(), Severity::Hint);
    assert_eq!(LintKind::Formatting.severity(), Severity::Warning);
    assert_eq!(LintKind::Repetition.severity(), Severity::Warning);
    assert_eq!(LintKind::Miscellaneous.severity(), Severity::Warning);
}

#[test]
fn lints_that_touch_the_range_are_picked() {
    let lints = vec![lint(0, 4, 63), lint(5, 9, 63), lint(10, 14, 63), lint(4, 5, 63)];
    assert_eq!(lints_for_range(&lints, Span::new(4, 6)), vec![0, 3, 1]);
    assert_eq!(lints_for_range(&lints, Span::new(0, 14)), vec![0, 3, 1, 2]);
    assert_eq!(lints_for_range(&lints, Span::new(2, 3)), vec![0]);
    assert_eq!(lints_for_range(&lints, Span::new(14, 20)), vec![2]);
    // A cursor between two lints touches both.
    assert_eq!(lints_for_range(&lints, Span::new(4, 4)), vec![0, 3]);
    assert_eq!(lints_for_range(&lints, Span::new(7, 7)), vec![1]);
    assert!(lints_for_range(&lints, Span::new(15, 20)).is_empty());
    assert!(lints_for_range(&[], Span::new(0, 9)).is_empty());
}

#[test]
fn picked_lints_stand_in_the_order_in_which_they_are_shown() {
    let lints = vec![
        lint(8, 9, 63),
        lint(0, 4, 127),
        lint(2, 3, 63),
        lint(2, 6, 63),
        lint(5, 9, 31),
        lint(0, 1, 127),
    ];
    // By priority, then by start, then as reported.
    assert_eq!(lints_for_range(&lints, Span::new(0, 9)), vec![4, 2, 3, 0, 1, 5]);
    assert_eq!(lints_for_range(&lints, Span::new(0, 3)), vec![2, 3, 1, 5]);
}

#[test]
fn index_is_turned_into_line_and_column() {
    let source = chars("ab\ncde\n\nf");
    let places = [(0, 0), (0, 1), (0, 2), (1, 0), (1, 1), (1, 2), (1, 3), (2, 0), (3, 0), (3, 1)];
    for (index, (line, column)) in places.iter().enumerate() {
        assert_eq!(index_to_position(&source, index), place(*line, *column));
    }
    assert_eq!(index_to_position(&[], 0), place(0, 0));
}

#[test]
fn line_and_column_are_turned_into_the_index() {
    let source = chars("ab\ncde\n\nf");
    for index in 0..=source.len() {
        assert_eq!(position_to_index(&source, index_to_position(&source, index)), index);
    }
    // A column beyond the end of its line names the end of the line.
    assert_eq!(position_to_index(&source, place(0, 7)), 2);
    assert_eq!(position_to_index(&source, place(1, 4)), 6);
    assert_eq!(position_to_index(&source, place(2, 3)), 7);
    // A place beyond the text names its end.
    assert_eq!(position_to_index(&source, place(3, 9)), 9);
    assert_eq!(position_to_index(&source, place(8, 0)), 9);
    assert_eq!(position_to_index(&[], place(2, 2)), 0);
}

#[test]
fn spans_and_ranges_are_turned_into_each_other() {
    let source = chars("ab\ncde\n\nf");
    assert_eq!(span_to_range(&source, Span::new(1, 5)), (place(0, 1), place(1, 2)));
    assert_eq!(span_to_range(&source, Span::new(9, 9)), (place(3, 1), place(3, 1)));
    assert_eq!(range_to_span(&source, place(0, 1), place(1, 2)), Span { start: 1, end: 5 });
    assert_eq!(range_to_span(&source, place(1, 0), place(1, 9)), Span { start: 3, end: 6 });
    assert_eq!(range_to_span(&source, place(0, 0), place(9, 9)), Span { start: 0, end: 9 });
    // The second place before the first: an empty span at the first.
    assert_eq!(range_to_span(&source, place(1, 2), place(0, 1)), Span { start: 5, end: 5 });
}
