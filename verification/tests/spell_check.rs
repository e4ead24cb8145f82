use std::sync::Arc;

use harper_core::dictionary::{Dictionary, FullDictionary};
use harper_core::document::Document;
use harper_core::linting::lint::{Lint, LintKind, Suggestion};
use harper_core::linting::spell_check::{
    create_linter, message_for, misspelled_span, potentially_combine_unlintable_markdown_tokens,
    shape_suggestions, SpellCheck,
};
use harper_core::linting::Linter;
use harper_core::span::Span;
use harper_core::token::{Punctuation, Token, TokenKind};

fn chars(text: &str) -> Vec<char> {
    text.chars().collect()
}

fn dictionary(words: &[&str]) -> FullDictionary {
    FullDictionary::from_words(words.iter().map(|w| chars(w)).collect())
}

fn token(start: usize, end: usize, kind: TokenKind) -> Token {
    Token::new(Span { start, end }, kind)
}

fn replacement(suggestion: &Suggestion) -> String {
    match suggestion {
        Suggestion::ReplaceWith(chars) => chars.iter().collect(),
        Suggestion::Remove => String::new(),
    }
}

fn offered(lint: &Lint) -> Vec<String> {
    lint.suggestions.iter().map(replacement).collect()
}

fn plain(text: &str) -> Document {
    Document::new_plain_english(chars(text))
}

fn bracketed_link() -> Document {
    Document::new(
        chars("[link]target"),
        vec![
            token(0, 1, TokenKind::Punctuation(Punctuation::OpenSquare)),
            token(1, 5, TokenKind::Unlintable),
            token(5, 6, TokenKind::Punctuation(Punctuation::CloseSquare)),
            token(6, 12, TokenKind::Word),
        ],
    )
}

#[test]
fn simple_misspelling_is_reported_with_the_nearest_word_first() {
    let mut checker = SpellCheck::new(dictionary(&["hello", "world"]));
    let document = Document::new(
        chars("helo world"),
        vec![
            token(0, 4, TokenKind::Word),
            token(4, 5, TokenKind::Whitespace),
            token(5, 10, TokenKind::Word),
        ],
    );
    let lints = checker.lint(&document);
    assert_eq!(lints.len(), 1);
    assert_eq!(lints[0].span, Span { start: 0, end: 4 });
    assert_eq!(lints[0].lint_kind, LintKind::Spelling);
    assert_eq!(lints[0].priority, 63);
    assert_eq!(offered(&lints[0])[0], "hello");
    assert_eq!(lints[0].message, "Did you mean to spell “helo” this way?");
}

#[test]
fn simple_misspelling_is_found_in_parsed_text() {
    let mut checker = SpellCheck::new(dictionary(&["hello", "world"]));
    let lints = checker.lint(&plain("helo world"));
    assert_eq!(lints.len(), 1);
    assert_eq!(lints[0].span, Span { start: 0, end: 4 });
    assert_eq!(offered(&lints[0]), vec!["hello".to_string()]);
}

#[test]
fn capitalized_word_gets_capitalized_suggestions() {
    let mut checker = SpellCheck::new(dictionary(&["hello"]));
    let lints = checker.lint(&plain("Helo"));
    assert_eq!(lints.len(), 1);
    assert_eq!(offered(&lints[0]), vec!["Hello".to_string()]);
}

#[test]
fn lowercase_word_keeps_suggestions_as_the_dictionary_has_them() {
    let mut checker = SpellCheck::new(dictionary(&["Hello"]));
    let lints = checker.lint(&plain("helo"));
    assert_eq!(lints.len(), 1);
    assert_eq!(offered(&lints[0]), vec!["Hello".to_string()]);
}

#[test]
fn capitalization_keeps_only_the_first_character_of_a_longer_mapping() {
    let shaped = shape_suggestions(&vec![chars("ßa"), chars(""), chars("1st")], &chars("Sa"));
    let shown: Vec<String> = shaped.iter().map(replacement).collect();
    assert_eq!(shown, vec!["Sa".to_string(), "".to_string(), "1st".to_string()]);
}

#[test]
fn shaping_keeps_the_first_three() {
    let found = vec![chars("one"), chars("two"), chars("three"), chars("four")];
    let shaped = shape_suggestions(&found, &chars("on"));
    let shown: Vec<String> = shaped.iter().map(replacement).collect();
    assert_eq!(shown, vec!["one".to_string(), "two".to_string(), "three".to_string()]);
    assert!(shape_suggestions(&Vec::new(), &chars("on")).is_empty());
}

#[test]
fn bracketed_known_compound_is_not_reported() {
    let mut checker = SpellCheck::new(dictionary(&["[link]target", "link]target"]));
    let lints = checker.lint(&bracketed_link());
    assert_eq!(lints.len(), 0);
}

#[test]
fn bracketed_group_is_looked_up_by_its_probe_word() {
    // The probe word is the unlintable stretch with the bracket behind it and
    // the word: the opening bracket is no part of it.
    let mut checker = SpellCheck::new(dictionary(&["link]target"]));
    assert_eq!(checker.lint(&bracketed_link()).len(), 0);

    let mut checker = SpellCheck::new(dictionary(&["linktarget", "ink]target"]));
    assert_eq!(checker.lint(&bracketed_link()).len(), 1);
}

#[test]
fn bracketed_unknown_compound_is_reported_under_the_whole_group() {
    let mut checker = SpellCheck::new(dictionary(&["hello"]));
    let lints = checker.lint(&bracketed_link());
    assert_eq!(lints.len(), 1);
    assert_eq!(lints[0].span, Span { start: 0, end: 12 });
    assert_eq!(lints[0].message, "Did you mean to spell “target” this way?");
}

#[test]
fn known_word_behind_a_bracket_group_is_not_reported() {
    let mut checker = SpellCheck::new(dictionary(&["target"]));
    assert_eq!(checker.lint(&bracketed_link()).len(), 0);
}

#[test]
fn back_off_reaches_a_word_at_distance_two() {
    let mut checker = SpellCheck::new(dictionary(&["approximately"]));
    let lints = checker.lint(&plain("aproximatly"));
    assert_eq!(lints.len(), 1);
    assert!(offered(&lints[0]).len() <= 3);
    assert!(offered(&lints[0]).contains(&"approximately".to_string()));
}

#[test]
fn back_off_goes_on_to_distance_four_and_no_farther() {
    let mut checker = SpellCheck::new(dictionary(&["abcdefgh"]));
    // Distance three and four are reached after nothing was found nearer.
    assert_eq!(checker.cached_suggest_correct_spelling(&chars("abcde")), vec![chars("abcdefgh")]);
    assert_eq!(checker.cached_suggest_correct_spelling(&chars("abcd")), vec![chars("abcdefgh")]);
    // Distance five is out of reach.
    assert!(checker.cached_suggest_correct_spelling(&chars("abc")).is_empty());
}

#[test]
fn back_off_stops_at_the_first_distance_that_finds_something() {
    let mut checker = SpellCheck::new(dictionary(&["abcdefg", "abcdef", "abcde"]));
    // "abc" is at distance 2 from "abcde", 3 from "abcdef", 4 from "abcdefg".
    assert_eq!(checker.cached_suggest_correct_spelling(&chars("abc")), vec![chars("abcde")]);
}

#[test]
fn hopeless_word_is_reported_without_suggestions() {
    let mut checker = SpellCheck::new(dictionary(&["hello"]));
    let lints = checker.lint(&plain("qqqqqqqqqqqq"));
    assert_eq!(lints.len(), 1);
    assert!(lints[0].suggestions.is_empty());
    assert_eq!(lints[0].message, "Did you mean to spell “qqqqqqqqqqqq” this way?");
    assert_eq!(lints[0].span, Span { start: 0, end: 12 });
}

#[test]
fn message_names_the_word() {
    assert_eq!(message_for(&chars("wrod")), "Did you mean to spell “wrod” this way?");
    assert_eq!(message_for(&chars("")), "Did you mean to spell “” this way?");
}

#[test]
fn every_lint_lies_within_the_text_and_has_at_most_three_suggestions() {
    let mut checker =
        SpellCheck::new(dictionary(&["cat", "bat", "hat", "mat", "rat", "sat", "the", "on"]));
    let document = plain("Teh zat sat on teh qat.");
    let lints = checker.lint(&document);
    assert_eq!(lints.len(), 4);
    for lint in &lints {
        assert!(lint.span.start <= lint.span.end);
        assert!(lint.span.end <= document.get_full_content().len());
        assert!(lint.suggestions.len() <= 3);
        assert_eq!(lint.priority, 63);
        assert_eq!(lint.lint_kind, LintKind::Spelling);
    }
    // Of the six words one letter away, the first three in dictionary order.
    assert_eq!(offered(&lints[1]), vec!["cat", "bat", "hat"]);
}

#[test]
fn text_under_a_lint_is_no_word_of_the_dictionary() {
    let known = dictionary(&["the", "quick", "brown", "fox"]);
    let mut checker = SpellCheck::new(known.clone());
    let document = plain("the quikc brown fxo");
    let lints = checker.lint(&document);
    assert_eq!(lints.len(), 2);
    for lint in &lints {
        assert!(!known.contains_word(document.get_span_content(lint.span)));
    }
    assert_eq!(lints[0].span, Span { start: 4, end: 9 });
    assert_eq!(lints[1].span, Span { start: 16, end: 19 });
}

#[test]
fn applied_suggestion_leaves_a_word_of_the_dictionary() {
    let known = dictionary(&["hello", "world", "help"]);
    let mut checker = SpellCheck::new(known.clone());
    let document = plain("say helo world");
    let lints = checker.lint(&document);
    assert_eq!(lints.len(), 2);
    let lint = &lints[1];
    assert_eq!(lint.span, Span { start: 4, end: 8 });
    assert_eq!(offered(lint), vec!["hello", "help"]);
    for suggestion in &lint.suggestions {
        let changed = suggestion.apply(lint.span, document.get_full_content());
        let put = match suggestion {
            Suggestion::ReplaceWith(chars) => chars.clone(),
            Suggestion::Remove => Vec::new(),
        };
        let now = &changed[lint.span.start..lint.span.start + put.len()];
        assert!(known.contains_word(now));
    }
    let first = lint.suggestions[0].apply(lint.span, document.get_full_content());
    assert_eq!(first.iter().collect::<String>(), "say hello world");
}

#[test]
fn document_of_known_words_gives_no_lint() {
    let mut checker = SpellCheck::new(dictionary(&["hello", "world"]));
    assert!(checker.lint(&plain("hello world, hello!\nworld hello")).is_empty());
    assert!(checker.lint(&plain("")).is_empty());
    assert_eq!(checker.cached_words(), 0);
}

#[test]
fn second_run_reports_the_same() {
    let mut checker = SpellCheck::new(dictionary(&["hello", "world", "word"]));
    let document = plain("helo wrld Helo\nwrod helo");
    let first = checker.lint(&document);
    let remembered = checker.cached_words();
    let second = checker.lint(&document);
    assert_eq!(first, second);
    assert_eq!(first.len(), 5);
    assert_eq!(checker.cached_words(), remembered);

    let mut fresh = SpellCheck::new(dictionary(&["hello", "world", "word"]));
    assert_eq!(fresh.lint(&document), first);
}

#[test]
fn memory_holds_one_entry_for_each_misspelled_form() {
    let mut checker = SpellCheck::new(dictionary(&["hello", "world"]));
    assert_eq!(checker.cached_words(), 0);
    // Three forms: "helo", "Helo" and "wrld"; "helo" stands twice.
    let document = plain("helo Helo wrld helo hello world");
    let lints = checker.lint(&document);
    assert_eq!(lints.len(), 4);
    assert_eq!(checker.cached_words(), 3);
    checker.lint(&document);
    assert_eq!(checker.cached_words(), 3);
}

#[test]
fn remembered_suggestions_are_handed_out_unchanged() {
    let mut checker = SpellCheck::new(dictionary(&["hello", "help", "hell"]));
    let first = checker.cached_suggest_correct_spelling(&chars("helo"));
    assert_eq!(first, vec![chars("hello"), chars("help"), chars("hell")]);
    assert_eq!(checker.cached_words(), 1);
    let second = checker.cached_suggest_correct_spelling(&chars("helo"));
    assert_eq!(second, first);
    assert_eq!(checker.cached_words(), 1);
    let other = checker.cached_suggest_correct_spelling(&chars("Helo"));
    assert_eq!(other, vec![chars("hello"), chars("help"), chars("hell")]);
    assert_eq!(checker.cached_words(), 2);
    assert!(checker.cached_suggest_correct_spelling(&chars("zzzzzzzzzz")).is_empty());
    assert_eq!(checker.cached_words(), 3);
}

#[test]
fn memory_is_keyed_by_the_exact_word() {
    let mut checker = SpellCheck::new(dictionary(&["hello"]));
    let lints = checker.lint(&plain("helo Helo"));
    assert_eq!(offered(&lints[0]), vec!["hello"]);
    assert_eq!(offered(&lints[1]), vec!["Hello"]);
    assert_eq!(checker.cached_words(), 2);
}

#[test]
fn another_dictionary_empties_the_memory() {
    let mut checker = SpellCheck::new(dictionary(&["hello"]));
    assert_eq!(offered(&checker.lint(&plain("helo"))[0]), vec!["hello"]);
    assert_eq!(checker.cached_words(), 1);
    checker.replace_dictionary(dictionary(&["help"]));
    assert_eq!(checker.cached_words(), 0);
    assert_eq!(offered(&checker.lint(&plain("helo"))[0]), vec!["help"]);
}

#[test]
fn bracket_group_is_found_only_behind_three_fitting_tokens() {
    let document = bracketed_link();
    let combined = potentially_combine_unlintable_markdown_tokens(&document, 3);
    assert_eq!(
        combined,
        Some((token(0, 12, TokenKind::Word), Span { start: 1, end: 5 }))
    );
    assert_eq!(potentially_combine_unlintable_markdown_tokens(&document, 2), None);
    assert_eq!(potentially_combine_unlintable_markdown_tokens(&document, 0), None);
    assert_eq!(potentially_combine_unlintable_markdown_tokens(&document, 4), None);

    let round = Document::new(
        chars("(link)target"),
        vec![
            token(0, 1, TokenKind::Punctuation(Punctuation::Other)),
            token(1, 5, TokenKind::Unlintable),
            token(5, 6, TokenKind::Punctuation(Punctuation::Other)),
            token(6, 12, TokenKind::Word),
        ],
    );
    assert_eq!(potentially_combine_unlintable_markdown_tokens(&round, 3), None);

    let linted = Document::new(
        chars("[link]target"),
        vec![
            token(0, 1, TokenKind::Punctuation(Punctuation::OpenSquare)),
            token(1, 5, TokenKind::Word),
            token(5, 6, TokenKind::Punctuation(Punctuation::CloseSquare)),
            token(6, 12, TokenKind::Word),
        ],
    );
    assert_eq!(potentially_combine_unlintable_markdown_tokens(&linted, 3), None);
}

#[test]
fn word_near_the_start_is_reported_under_its_own_span() {
    let document = Document::new(
        chars("]wrod"),
        vec![
            token(0, 1, TokenKind::Punctuation(Punctuation::CloseSquare)),
            token(1, 5, TokenKind::Word),
        ],
    );
    let known = dictionary(&["word"]);
    assert_eq!(misspelled_span(&document, 1, &known), Some(Span { start: 1, end: 5 }));
    assert_eq!(misspelled_span(&document, 0, &known), None);
    assert_eq!(misspelled_span(&document, 2, &known), None);
}

#[test]
fn token_with_an_unusable_span_is_passed_over() {
    let known = dictionary(&["hello"]);
    let document = Document::new(
        chars("helo"),
        vec![
            token(0, 9, TokenKind::Word),
            token(3, 1, TokenKind::Word),
            token(0, 4, TokenKind::Word),
        ],
    );
    assert_eq!(misspelled_span(&document, 0, &known), None);
    assert_eq!(misspelled_span(&document, 1, &known), None);
    assert_eq!(misspelled_span(&document, 2, &known), Some(Span { start: 0, end: 4 }));
    let mut checker = SpellCheck::new(known);
    let lints = checker.lint(&document);
    assert_eq!(lints.len(), 1);
    assert_eq!(lints[0].span, Span { start: 0, end: 4 });
}

#[test]
fn bracket_group_with_unusable_spans_is_passed_over() {
    let known = dictionary(&["hello"]);
    // The unlintable stretch reaches to the end of the text: there is no
    // character behind it to take in.
    let reaching = Document::new(
        chars("[link]target"),
        vec![
            token(0, 1, TokenKind::Punctuation(Punctuation::OpenSquare)),
            token(1, 12, TokenKind::Unlintable),
            token(5, 6, TokenKind::Punctuation(Punctuation::CloseSquare)),
            token(6, 12, TokenKind::Word),
        ],
    );
    assert_eq!(misspelled_span(&reaching, 3, &known), None);
    // The group starts behind the end of the word.
    let inverted = Document::new(
        chars("[link]target"),
        vec![
            token(13, 14, TokenKind::Punctuation(Punctuation::OpenSquare)),
            token(1, 5, TokenKind::Unlintable),
            token(5, 6, TokenKind::Punctuation(Punctuation::CloseSquare)),
            token(6, 12, TokenKind::Word),
        ],
    );
    assert_eq!(misspelled_span(&inverted, 3, &known), None);
    let mut checker = SpellCheck::new(known);
    assert!(checker.lint(&reaching).is_empty());
    assert!(checker.lint(&inverted).is_empty());
}

#[test]
fn linter_for_a_file_knows_the_global_words_and_the_identifiers() {
    let global = Arc::new(dictionary(&["hello", "world"]));
    let identifiers = Arc::new(dictionary(&["strlen"]));
    let document = plain("hello strlen wrld");

    let mut without = create_linter(global.clone(), None);
    let lints = without.lint(&document);
    assert_eq!(lints.len(), 2);
    assert_eq!(lints[0].span, Span { start: 6, end: 12 });

    let mut with = create_linter(global, Some(identifiers));
    let lints = with.lint(&document);
    assert_eq!(lints.len(), 1);
    assert_eq!(lints[0].span, Span { start: 13, end: 17 });
    assert_eq!(offered(&lints[0]), vec!["world"]);
}
