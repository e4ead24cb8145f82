//! What the spell checker reports: which tokens count as misspelled, under
//! which span each is reported, and what the lint for it holds.

use vstd::prelude::*;

use crate::chars::{unicode_uppercase, uppercase_first};
use crate::document::DocumentView;
use crate::linting::lint::{LintKind, LintView, SuggestionView};
use crate::span::Span;
use crate::spell::{lemma_suggestions_sound, suggestions};
use crate::token::Token;

verus! {

/// How many candidates one search of the dictionary may return.
pub const SEARCH_LIMIT: usize = 100;

/// The distance at which the search for suggestions starts.
pub const FIRST_DISTANCE: u8 = 2;

/// The distance at which the search for suggestions gives up.
pub const END_DISTANCE: u8 = 5;

/// How many suggestions a lint carries at most.
pub const MAX_SUGGESTIONS: usize = 3;

/// The priority of a spelling lint.
pub const SPELLING_PRIORITY: u8 = 63;

/// Whether the three tokens before token `idx` are an opening square
/// bracket, an unlintable stretch and a closing square bracket.
pub open spec fn bracket_group(tokens: Seq<Token>, idx: int) -> bool {
    &&& 3 <= idx < tokens.len()
    &&& tokens[idx - 3].kind.is_open_square()
    &&& tokens[idx - 2].kind.is_unlintable()
    &&& tokens[idx - 1].kind.is_close_square()
}

/// Where a bracket group stands before token `idx`: a token of the same kind
/// that reaches from the opening bracket to the end of token `idx`, and the
/// span of the unlintable stretch.
pub open spec fn combined_token(tokens: Seq<Token>, idx: int) -> Option<(Token, Span)> {
    if bracket_group(tokens, idx) {
        Some(
            (
                Token {
                    span: Span { start: tokens[idx - 3].span.start, end: tokens[idx].span.end },
                    kind: tokens[idx].kind,
                },
                tokens[idx - 2].span,
            ),
        )
    } else {
        None
    }
}

/// The word that is looked up for a bracket group as a whole: the unlintable
/// stretch, the one character behind it, and the word.
pub open spec fn probe_word(doc: DocumentView, unlintable: Span, word: Span) -> Seq<char> {
    doc.content.subrange(unlintable.start as int, unlintable.end + 1) + doc.content_of(word)
}

/// The span under which token `idx` is reported, if it is reported.
///
/// A token is passed over when it is no word, when its span does not lie
/// within the text, or when the dictionary holds it. A word behind a bracket
/// group is passed over when the dictionary holds its probe word, or when
/// the spans of the group cannot be used; else it is reported under the span
/// of the whole group. Any other word is reported under its own span.
pub open spec fn reported_span(doc: DocumentView, words: Seq<Seq<char>>, idx: int) -> Option<Span> {
    if !(0 <= idx < doc.tokens.len()) {
        None
    } else {
        let token = doc.tokens[idx];
        if !token.kind.is_word() || !token.span.within(doc.content.len()) || words.contains(
            doc.content_of(token.span),
        ) {
            None
        } else {
            match combined_token(doc.tokens, idx) {
                None => Some(token.span),
                Some((fused, unlintable)) => {
                    if !(unlintable.start <= unlintable.end < doc.content.len())
                        || !fused.span.wf() {
                        None
                    } else if words.contains(probe_word(doc, unlintable, token.span)) {
                        None
                    } else {
                        Some(fused.span)
                    }
                },
            }
        }
    }
}

/// The suggestions for a word: what a search within distance 2 finds; if
/// that is nothing, what a search within distance 3 finds; if that is
/// nothing too, what a search within distance 4 finds.
pub open spec fn back_off_suggestions(words: Seq<Seq<char>>, word: Seq<char>) -> Seq<Seq<char>> {
    if suggestions(words, word, 100, 2).len() > 0 {
        suggestions(words, word, 100, 2)
    } else if suggestions(words, word, 100, 3).len() > 0 {
        suggestions(words, word, 100, 3)
    } else {
        suggestions(words, word, 100, 4)
    }
}

/// How many searches of the dictionary it takes to find the suggestions for
/// a word.
pub open spec fn back_off_searches(words: Seq<Seq<char>>, word: Seq<char>) -> nat {
    if suggestions(words, word, 100, 2).len() > 0 {
        1
    } else if suggestions(words, word, 100, 3).len() > 0 {
        2
    } else {
        3
    }
}

/// What a lookup answers: the remembered suggestions where the word is
/// remembered, else what a search of the dictionary finds.
pub open spec fn remembered_or_searched(
    cache: Map<Seq<char>, Seq<Seq<char>>>,
    words: Seq<Seq<char>>,
    word: Seq<char>,
) -> Seq<Seq<char>> {
    if cache.contains_key(word) {
        cache[word]
    } else {
        back_off_suggestions(words, word)
    }
}

/// Whether every entry of a cache is what a search of the dictionary would
/// find for its word.
pub open spec fn cache_agrees(cache: Map<Seq<char>, Seq<Seq<char>>>, words: Seq<Seq<char>>) -> bool {
    forall|word: Seq<char>| #[trigger]
        cache.contains_key(word) ==> cache[word] == back_off_suggestions(words, word)
}

/// Whether a word begins with an uppercase character.
pub open spec fn starts_uppercase(word: Seq<char>) -> bool {
    word.len() > 0 && unicode_uppercase(word[0])
}

/// A word with its first character put in uppercase.
pub open spec fn capitalized(word: Seq<char>) -> Seq<char> {
    if word.len() == 0 {
        word
    } else {
        word.update(0, uppercase_first(word[0]))
    }
}

/// The suggestions a lint carries: the first three of those found, each
/// capitalized where the misspelled word is.
pub open spec fn shaped_suggestions(found: Seq<Seq<char>>, word: Seq<char>) -> Seq<SuggestionView> {
    Seq::new(
        if found.len() <= 3 {
            found.len()
        } else {
            3
        },
        |i: int|
            SuggestionView::ReplaceWith(
                if starts_uppercase(word) {
                    capitalized(found[i])
                } else {
                    found[i]
                },
            ),
    )
}

/// What a spelling lint tells the user about a word.
pub open spec fn spelling_message(word: Seq<char>) -> Seq<char> {
    "Did you mean to spell “"@ + word + "” this way?"@
}

/// The lint for token `idx`, reported under `span`.
pub open spec fn spelling_lint(
    doc: DocumentView,
    words: Seq<Seq<char>>,
    idx: int,
    span: Span,
) -> LintView {
    let word = doc.content_of(doc.tokens[idx].span);
    LintView {
        span,
        lint_kind: LintKind::Spelling,
        suggestions: shaped_suggestions(back_off_suggestions(words, word), word),
        message: spelling_message(word),
        priority: 63,
    }
}

/// The lints for the first `count` tokens, in source order.
pub open spec fn lints_before(doc: DocumentView, words: Seq<Seq<char>>, count: nat) -> Seq<
    LintView,
>
    decreases count,
{
    if count == 0 {
        Seq::empty()
    } else {
        let earlier = lints_before(doc, words, (count - 1) as nat);
        match reported_span(doc, words, count - 1) {
            Some(span) => earlier.push(spelling_lint(doc, words, count - 1, span)),
            None => earlier,
        }
    }
}

/// The lints of a document under a dictionary.
pub open spec fn spelling_lints(doc: DocumentView, words: Seq<Seq<char>>) -> Seq<LintView> {
    lints_before(doc, words, doc.tokens.len())
}

/// The words that are reported among the first `count` tokens.
pub open spec fn flagged_before(doc: DocumentView, words: Seq<Seq<char>>, count: nat) -> Set<
    Seq<char>,
> {
    Set::new(
        |word: Seq<char>|
            exists|i: int|
                0 <= i < count && (#[trigger] reported_span(doc, words, i)) is Some
                    && doc.content_of(doc.tokens[i].span) == word,
    )
}

/// The words of a document that are reported, each form once.
pub open spec fn flagged_words(doc: DocumentView, words: Seq<Seq<char>>) -> Set<Seq<char>> {
    flagged_before(doc, words, doc.tokens.len())
}

/// Every lint stems from a token: the one whose index is returned was
/// reported, and the lint is the one made for it.
pub proof fn lemma_lint_origin(doc: DocumentView, words: Seq<Seq<char>>, count: nat, i: int) -> (idx:
    int)
    requires
        0 <= i < lints_before(doc, words, count).len(),
    ensures
        0 <= idx < count,
        reported_span(doc, words, idx) is Some,
        lints_before(doc, words, count)[i] == spelling_lint(
            doc,
            words,
            idx,
            reported_span(doc, words, idx)->0,
        ),
    decreases count,
{
    let earlier = lints_before(doc, words, (count - 1) as nat);
    if i < earlier.len() {
        lemma_lint_origin(doc, words, (count - 1) as nat, i)
    } else {
        count - 1
    }
}

/// A token that is reported is a word that the dictionary does not hold, and
/// the span under which it is reported lies within the text. A word without
/// a bracket group before it is reported under its own span, so that the
/// text under the lint is no word of the dictionary. Behind a bracket group
/// the lint covers the group, and the dictionary does not hold the probe
/// word.
pub proof fn lemma_reported_word_unknown(doc: DocumentView, words: Seq<Seq<char>>, idx: int)
    requires
        reported_span(doc, words, idx) is Some,
    ensures
        0 <= idx < doc.tokens.len(),
        doc.tokens[idx].kind.is_word(),
        !words.contains(doc.content_of(doc.tokens[idx].span)),
        reported_span(doc, words, idx)->0.within(doc.content.len()),
        reported_span(doc, words, idx)->0.end == doc.tokens[idx].span.end,
        !bracket_group(doc.tokens, idx) ==> !words.contains(
            doc.content_of(reported_span(doc, words, idx)->0),
        ),
        bracket_group(doc.tokens, idx) ==> !words.contains(
            probe_word(doc, doc.tokens[idx - 2].span, doc.tokens[idx].span),
        ) && reported_span(doc, words, idx)->0.start == doc.tokens[idx - 3].span.start,
{
}

/// The span of every lint lies within the text, and no lint carries more
/// than three suggestions.
pub proof fn lemma_lints_in_bounds(doc: DocumentView, words: Seq<Seq<char>>, i: int)
    requires
        0 <= i < spelling_lints(doc, words).len(),
    ensures
        spelling_lints(doc, words)[i].span.within(doc.content.len()),
        spelling_lints(doc, words)[i].suggestions.len() <= 3,
        spelling_lints(doc, words)[i].lint_kind == LintKind::Spelling,
        spelling_lints(doc, words)[i].priority == 63,
{
    let idx = lemma_lint_origin(doc, words, doc.tokens.len(), i);
    lemma_reported_word_unknown(doc, words, idx);
}

/// The text under a lint is no word of the dictionary, unless the lint
/// covers a bracket group: the group as a whole is never looked up.
pub proof fn lemma_lint_text_unknown(doc: DocumentView, words: Seq<Seq<char>>, i: int) -> (idx: int)
    requires
        0 <= i < spelling_lints(doc, words).len(),
    ensures
        0 <= idx < doc.tokens.len(),
        reported_span(doc, words, idx) == Some(spelling_lints(doc, words)[i].span),
        !bracket_group(doc.tokens, idx) ==> !words.contains(
            doc.content_of(spelling_lints(doc, words)[i].span),
        ),
{
    let idx = lemma_lint_origin(doc, words, doc.tokens.len(), i);
    lemma_reported_word_unknown(doc, words, idx);
    idx
}

/// A document whose every word the dictionary holds gives no lint.
pub proof fn lemma_known_words_no_lints(doc: DocumentView, words: Seq<Seq<char>>)
    requires
        forall|idx: int|
            0 <= idx < doc.tokens.len() && (#[trigger] doc.tokens[idx]).kind.is_word()
                && doc.tokens[idx].span.within(doc.content.len()) ==> words.contains(
                doc.content_of(doc.tokens[idx].span),
            ),
    ensures
        spelling_lints(doc, words).len() == 0,
{
    if spelling_lints(doc, words).len() > 0 {
        let idx = lemma_lint_origin(doc, words, doc.tokens.len(), 0);
        lemma_reported_word_unknown(doc, words, idx);
        assert(doc.tokens[idx].kind.is_word());
    }
}

/// Where the misspelled word is capitalized, a suggestion that is not empty
/// begins with the uppercase form of the character that the dictionary's
/// word begins with. Where that form is an uppercase character, the
/// suggestion begins with an uppercase character.
pub proof fn lemma_suggestions_capitalized(found: Seq<Seq<char>>, word: Seq<char>, k: int)
    requires
        starts_uppercase(word),
        0 <= k < shaped_suggestions(found, word).len(),
        shaped_suggestions(found, word)[k].replacement().len() > 0,
    ensures
        found[k].len() > 0,
        shaped_suggestions(found, word)[k].replacement()[0] == uppercase_first(found[k][0]),
        unicode_uppercase(uppercase_first(found[k][0])) ==> unicode_uppercase(
            shaped_suggestions(found, word)[k].replacement()[0],
        ),
{
}

/// A search for suggestions takes one, two or three searches of the
/// dictionary.
pub proof fn lemma_back_off_bounded(words: Seq<Seq<char>>, word: Seq<char>)
    ensures
        1 <= back_off_searches(words, word) <= 3,
{
}

/// Every suggestion that a search with back-off finds is a word of the
/// dictionary, and there are at most a hundred of them.
pub proof fn lemma_back_off_sound(words: Seq<Seq<char>>, word: Seq<char>, k: int)
    requires
        0 <= k < back_off_suggestions(words, word).len(),
    ensures
        words.contains(back_off_suggestions(words, word)[k]),
        back_off_suggestions(words, word).len() <= 100,
{
    if suggestions(words, word, 100, 2).len() > 0 {
        lemma_suggestions_sound(words, word, 100, 2, k);
    } else if suggestions(words, word, 100, 3).len() > 0 {
        lemma_suggestions_sound(words, word, 100, 3, k);
    } else {
        lemma_suggestions_sound(words, word, 100, 4, k);
    }
}

/// A remembered entry that agrees with the dictionary is what a search
/// would find: looking a word up in such a memory changes no answer.
pub proof fn lemma_memory_changes_nothing(
    cache: Map<Seq<char>, Seq<Seq<char>>>,
    words: Seq<Seq<char>>,
    word: Seq<char>,
)
    requires
        cache_agrees(cache, words),
    ensures
        remembered_or_searched(cache, words, word) == back_off_suggestions(words, word),
        cache_agrees(cache.insert(word, back_off_suggestions(words, word)), words),
{
}

/// Put in place of the text under a span, a suggestion of a lint stands
/// there afterwards, and it is a word of the dictionary. This needs that
/// the misspelled word is not capitalized, or that the dictionary holds the
/// capitalized suggestion as well.
pub proof fn lemma_replacement_is_word(
    words: Seq<Seq<char>>,
    word: Seq<char>,
    k: int,
    source: Seq<char>,
    span: Span,
)
    requires
        0 <= k < shaped_suggestions(back_off_suggestions(words, word), word).len(),
        !starts_uppercase(word) || words.contains(
            capitalized(back_off_suggestions(words, word)[k]),
        ),
        span.within(source.len()),
    ensures
        words.contains(
            shaped_suggestions(back_off_suggestions(words, word), word)[k].replacement(),
        ),
        shaped_suggestions(back_off_suggestions(words, word), word)[k].applied(
            source,
            span,
        ).subrange(
            span.start as int,
            span.start + shaped_suggestions(
                back_off_suggestions(words, word),
                word,
            )[k].replacement().len(),
        ) == shaped_suggestions(back_off_suggestions(words, word), word)[k].replacement(),
{
    lemma_back_off_sound(words, word, k);
    let put = shaped_suggestions(back_off_suggestions(words, word), word)[k];
    assert(put.applied(source, span).subrange(
        span.start as int,
        span.start + put.replacement().len(),
    ) =~= put.replacement());
}

} // verus!
