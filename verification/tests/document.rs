use harper_core::chars::{push_chars, string_from_chars};
use harper_core::document::Document;
use harper_core::parsers::{classify, Parser, PlainEnglish};
use harper_core::span::Span;
use harper_core::token::{Punctuation, Token, TokenKind};

fn chars(text: &str) -> Vec<char> {
    text.chars().collect()
}

fn token(start: usize, end: usize, kind: TokenKind) -> Token {
    Token::new(Span { start, end }, kind)
}

#[test]
fn span_knows_its_length_and_what_it_touches() {
    let span = Span::new(2, 5);
    assert_eq!((span.start, span.end), (2, 5));
    assert_eq!(span.len(), 3);
    assert!(!span.is_empty());
    assert!(Span::new(4, 4).is_empty());
    assert_eq!(Span::new(4, 4).len(), 0);
    assert_eq!(Span { start: 5, end: 2 }.len(), 0);
    assert!(span.overlaps_with(Span::new(4, 9)));
    assert!(span.overlaps_with(Span::new(0, 3)));
    assert!(span.overlaps_with(Span::new(3, 4)));
    assert!(span.overlaps_with(Span::new(3, 3)));
    assert!(span.overlaps_with(Span::new(5, 9)));
    assert!(span.overlaps_with(Span::new(0, 2)));
    assert!(!span.overlaps_with(Span::new(6, 9)));
    assert!(!span.overlaps_with(Span::new(0, 1)));
    assert!(!span.overlaps_with(Span { start: 4, end: 3 }));
    assert!(!Span { start: 4, end: 3 }.overlaps_with(span));
    assert!(span.fits(5));
    assert!(!span.fits(4));
    assert!(!Span { start: 5, end: 2 }.fits(9));
}

#[test]
fn token_kinds_tell_themselves_apart() {
    assert!(TokenKind::Word.is_word());
    assert!(!TokenKind::Unlintable.is_word());
    assert!(TokenKind::Unlintable.is_unlintable());
    assert!(!TokenKind::Whitespace.is_unlintable());
    assert!(TokenKind::Punctuation(Punctuation::OpenSquare).is_open_square());
    assert!(!TokenKind::Punctuation(Punctuation::CloseSquare).is_open_square());
    assert!(TokenKind::Punctuation(Punctuation::CloseSquare).is_close_square());
    assert!(!TokenKind::Punctuation(Punctuation::Other).is_close_square());
    assert!(TokenKind::Punctuation(Punctuation::Other).is_punctuation());
    assert!(!TokenKind::Newline.is_punctuation());
}

#[test]
fn document_hands_out_its_tokens_and_its_text() {
    let document = Document::new(
        chars("helo world"),
        vec![
            token(0, 4, TokenKind::Word),
            token(4, 5, TokenKind::Whitespace),
            token(5, 10, TokenKind::Word),
        ],
    );
    assert_eq!(document.token_count(), 3);
    assert_eq!(document.get_token(1), Some(token(4, 5, TokenKind::Whitespace)));
    assert_eq!(document.get_token(3), None);
    assert_eq!(document.get_tokens().len(), 3);
    assert_eq!(document.get_tokens()[2], token(5, 10, TokenKind::Word));
    assert_eq!(document.get_full_content(), &chars("helo world")[..]);
    assert_eq!(document.get_span_content(Span::new(5, 10)), &chars("world")[..]);
    assert_eq!(document.get_span_content(Span::new(3, 3)), &chars("")[..]);
    assert_eq!(document.get_span_content_str(Span::new(0, 4)), "helo");
    assert_eq!(document.try_span_content(Span::new(0, 10)), Some(&chars("helo world")[..]));
    assert_eq!(document.try_span_content(Span::new(0, 11)), None);
    assert_eq!(document.try_span_content(Span { start: 4, end: 2 }), None);
    assert!(document.is_well_formed());
}

#[test]
fn tokens_that_do_not_cover_the_text_are_told() {
    let text = || chars("ab cd");
    let covering = vec![
        token(0, 2, TokenKind::Word),
        token(2, 3, TokenKind::Whitespace),
        token(3, 5, TokenKind::Word),
    ];
    assert!(Document::new(text(), covering).is_well_formed());
    let gap = vec![token(0, 2, TokenKind::Word), token(3, 5, TokenKind::Word)];
    assert!(!Document::new(text(), gap).is_well_formed());
    let overlap = vec![token(0, 3, TokenKind::Word), token(2, 5, TokenKind::Word)];
    assert!(!Document::new(text(), overlap).is_well_formed());
    let short = vec![token(0, 2, TokenKind::Word), token(2, 4, TokenKind::Word)];
    assert!(!Document::new(text(), short).is_well_formed());
    let late = vec![token(1, 5, TokenKind::Word)];
    assert!(!Document::new(text(), late).is_well_formed());
    let inverted = vec![
        token(0, 4, TokenKind::Word),
        Token::new(Span { start: 4, end: 2 }, TokenKind::Word),
        token(2, 5, TokenKind::Word),
    ];
    assert!(!Document::new(text(), inverted).is_well_formed());
    assert!(!Document::new(text(), Vec::new()).is_well_formed());
    assert!(Document::new(Vec::new(), Vec::new()).is_well_formed());
    let empty_token = vec![token(0, 0, TokenKind::Word)];
    assert!(Document::new(Vec::new(), empty_token).is_well_formed());
}

#[test]
fn characters_are_sorted_into_kinds() {
    assert_eq!(classify('a'), TokenKind::Word);
    assert_eq!(classify('Z'), TokenKind::Word);
    assert_eq!(classify('7'), TokenKind::Word);
    assert_eq!(classify('é'), TokenKind::Word);
    assert_eq!(classify('\''), TokenKind::Word);
    assert_eq!(classify(' '), TokenKind::Whitespace);
    assert_eq!(classify('\t'), TokenKind::Whitespace);
    assert_eq!(classify('\r'), TokenKind::Whitespace);
    assert_eq!(classify('\n'), TokenKind::Newline);
    assert_eq!(classify('['), TokenKind::Punctuation(Punctuation::OpenSquare));
    assert_eq!(classify(']'), TokenKind::Punctuation(Punctuation::CloseSquare));
    for mark in "!\"#$%&()*+,-./:;<=>?@\\^_`{|}~".chars() {
        assert_eq!(classify(mark), TokenKind::Punctuation(Punctuation::Other));
    }
}

#[test]
fn plain_text_is_cut_into_runs_and_single_marks() {
    let tokens = PlainEnglish.parse(&chars("Hi  there,\n[x]!!"));
    assert_eq!(
        tokens,
        vec![
            token(0, 2, TokenKind::Word),
            token(2, 4, TokenKind::Whitespace),
            token(4, 9, TokenKind::Word),
            token(9, 10, TokenKind::Punctuation(Punctuation::Other)),
            token(10, 11, TokenKind::Newline),
            token(11, 12, TokenKind::Punctuation(Punctuation::OpenSquare)),
            token(12, 13, TokenKind::Word),
            token(13, 14, TokenKind::Punctuation(Punctuation::CloseSquare)),
            token(14, 15, TokenKind::Punctuation(Punctuation::Other)),
            token(15, 16, TokenKind::Punctuation(Punctuation::Other)),
        ]
    );
    assert!(PlainEnglish.parse(&[]).is_empty());
    assert_eq!(PlainEnglish.parse(&chars("\n\n")).len(), 2);
    assert_eq!(PlainEnglish.parse(&chars("don't")), vec![token(0, 5, TokenKind::Word)]);
    assert!(PlainEnglish.create_ident_dict(&chars("let x = 1;")).is_none());
}

#[test]
fn parsed_document_is_well_formed() {
    for text in ["", "a", "helo world", " \n\t x[y](z) 'q' ", "end.\n"] {
        let document = Document::parse(chars(text), &PlainEnglish);
        assert!(document.is_well_formed());
        assert_eq!(document.get_full_content(), &chars(text)[..]);
        let plain = Document::new_plain_english(chars(text));
        assert_eq!(plain.get_tokens(), document.get_tokens());
    }
}

#[test]
fn characters_are_put_behind_a_string() {
    let mut text = String::from("ab");
    push_chars(&mut text, &chars("cdé"));
    assert_eq!(text, "abcdé");
    push_chars(&mut text, &[]);
    assert_eq!(text, "abcdé");
    assert_eq!(string_from_chars(&chars("“x”")), "“x”");
    assert_eq!(string_from_chars(&[]), "");
}
