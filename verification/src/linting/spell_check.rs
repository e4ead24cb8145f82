//! The spell checker: a dictionary, a memory of suggestions, and the walk
//! over a document's tokens.

use std::sync::Arc;
use vstd::prelude::*;
use vstd::slice::slice_to_vec;

use crate::chars::{push_chars, to_uppercase_first};
use crate::dictionary::{slices_view, words_view, Dictionary, FullDictionary, MergedDictionary};
use crate::document::{Document, DocumentView};
use crate::linting::lint::{lints_view, suggestions_view, Lint, LintKind, LintView, Suggestion};
use crate::linting::spelling::{
    back_off_searches, back_off_suggestions, cache_agrees, combined_token, flagged_before,
    flagged_words, lints_before, remembered_or_searched, reported_span, shaped_suggestions,
    spelling_lint, spelling_lints, spelling_message, starts_uppercase, END_DISTANCE,
    FIRST_DISTANCE, MAX_SUGGESTIONS, SEARCH_LIMIT, SPELLING_PRIORITY,
};
use crate::linting::word_cache::{
    cache_entries, cache_get, cache_insert, cache_len, cache_new, WordCache,
};
use crate::linting::Linter;
use crate::span::Span;
use crate::spell::{suggest_correct_spelling, suggestions};
use crate::token::Token;

verus! {

/// Looks for a bracket group before token `idx` and fuses it with the token.
///
/// Gives the fused token and the span of the unlintable stretch, or nothing
/// where there is no token `idx` or no such group before it.
pub fn potentially_combine_unlintable_markdown_tokens(document: &Document, idx: usize) -> (combined:
    Option<(Token, Span)>)
    ensures
        combined == combined_token(document@.tokens, idx as int),
{
    let missing_token = match document.get_token(idx) {
        Some(token) => token,
        None => {
            return None;
        },
    };
    if idx < 3 {
        return None;
    }
    let tokens = document.get_tokens();
    let punct_1 = tokens[idx - 3];
    let unlintable = tokens[idx - 2];
    let punct_2 = tokens[idx - 1];
    // The unlintable token has to be surrounded by square brackets.
    if !(punct_1.kind.is_open_square() && punct_2.kind.is_close_square()) {
        return None;
    }
    if !unlintable.kind.is_unlintable() {
        return None;
    }
    let new_token = Token {
        span: Span { start: punct_1.span.start, end: missing_token.span.end },
        kind: missing_token.kind,
    };
    Some((new_token, unlintable.span))
}

/// Two stretches of characters, one behind the other.
fn concat_chars(a: &[char], b: &[char]) -> (joined: Vec<char>)
    ensures
        joined@ == a@ + b@,
{
    let mut joined: Vec<char> = slice_to_vec(a);
    let mut i: usize = 0;
    while i < b.len()
        invariant
            i <= b.len(),
            joined@ == a@ + b@.take(i as int),
        decreases b.len() - i,
    {
        joined.push(b[i]);
        i += 1;
        assert(b@.take(i as int) == b@.take(i - 1).push(b@[i - 1]));
    }
    assert(b@.take(i as int) == b@);
    joined
}

/// Decides whether token `idx` is a misspelled word, and under which span it
/// is to be reported.
pub fn misspelled_span<D: Dictionary>(document: &Document, idx: usize, dictionary: &D) -> (reported:
    Option<Span>)
    ensures
        reported == reported_span(document@, dictionary.words(), idx as int),
{
    let word = match document.get_token(idx) {
        Some(token) => token,
        None => {
            return None;
        },
    };
    if !word.kind.is_word() {
        return None;
    }
    let word_chars = match document.try_span_content(word.span) {
        Some(chars) => chars,
        None => {
            return None;
        },
    };
    if dictionary.contains_word(word_chars) {
        return None;
    }
    match potentially_combine_unlintable_markdown_tokens(document, idx) {
        None => Some(word.span),
        Some((new_token, unlintable_span)) => {
            let source_len = document.get_full_content().len();
            if !unlintable_span.fits(source_len) || unlintable_span.end >= source_len
                || !new_token.span.fits(source_len) {
                return None;
            }
            // The probe takes in the character behind the unlintable span,
            // which is the closing bracket where the span ends with the
            // stretch. Open question: do parsers end the span one character
            // early, so that this only makes up for it? To be looked at
            // again once the spans of the parsers are settled.
            let extended = Span { start: unlintable_span.start, end: unlintable_span.end + 1 };
            let extra_content = document.get_span_content(extended);
            let check_word = concat_chars(extra_content, word_chars);
            if dictionary.contains_word(check_word.as_slice()) {
                None
            } else {
                Some(new_token.span)
            }
        },
    }
}

/// Shapes what was found for a word into the suggestions of its lint: keeps
/// the first three, capitalizes them where the word is capitalized, and
/// makes each a replacement.
pub fn shape_suggestions(found: &Vec<Vec<char>>, word: &[char]) -> (shaped: Vec<Suggestion>)
    ensures
        suggestions_view(shaped@) == shaped_suggestions(words_view(found@), word@),
{
    let capitalize = word.len() > 0 && word[0].is_uppercase();
    let count = if found.len() <= MAX_SUGGESTIONS {
        found.len()
    } else {
        MAX_SUGGESTIONS
    };
    let mut shaped: Vec<Suggestion> = Vec::new();
    let mut i: usize = 0;
    while i < count
        invariant
            i <= count <= found.len(),
            count <= 3,
            capitalize == starts_uppercase(word@),
            shaped@.len() == i,
            forall|k: int|
                0 <= k < i ==> (#[trigger] shaped@[k])@ == shaped_suggestions(
                    words_view(found@),
                    word@,
                )[k],
        decreases count - i,
    {
        let mut chars = slice_to_vec(found[i].as_slice());
        if capitalize && chars.len() > 0 {
            let upper = to_uppercase_first(chars[0]);
            chars.set(0, upper);
        }
        assert(words_view(found@)[i as int] == found@[i as int]@);
        shaped.push(Suggestion::ReplaceWith(chars));
        i += 1;
    }
    assert(suggestions_view(shaped@) =~= shaped_suggestions(words_view(found@), word@));
    shaped
}

/// The text of a spelling lint for a word.
pub fn message_for(word: &[char]) -> (message: String)
    ensures
        message@ == spelling_message(word@),
{
    let mut message = String::from_str("Did you mean to spell “");
    push_chars(&mut message, word);
    message.append("” this way?");
    message
}

/// Copies borrowed words into words of their own.
fn to_owned_words(words: &Vec<&[char]>) -> (owned: Vec<Vec<char>>)
    ensures
        words_view(owned@) == slices_view(words@),
{
    let mut owned: Vec<Vec<char>> = Vec::new();
    let mut i: usize = 0;
    while i < words.len()
        invariant
            i <= words.len(),
            owned@.len() == i,
            words_view(owned@) == slices_view(words@).take(i as int),
        decreases words.len() - i,
    {
        let word = slice_to_vec(words[i]);
        owned.push(word);
        i += 1;
        proof {
            assert(words_view(owned@)[i - 1] == words@[i - 1]@);
            assert(words_view(owned@) =~= slices_view(words@).take(i as int));
        }
    }
    assert(slices_view(words@).take(i as int) == slices_view(words@));
    owned
}

/// A spell checker: a dictionary and a memory of the suggestions found so
/// far.
pub struct SpellCheck<T: Dictionary> {
    dictionary: T,
    word_cache: WordCache,
    searches: Ghost<nat>,
}

impl<T: Dictionary> SpellCheck<T> {
    /// The words of the dictionary, in its order.
    pub closed spec fn words(&self) -> Seq<Seq<char>> {
        self.dictionary.words()
    }

    /// The suggestions remembered, by word.
    pub closed spec fn cache(&self) -> Map<Seq<char>, Seq<Seq<char>>> {
        cache_entries(self.word_cache)
    }

    /// How many times the dictionary has been searched for suggestions since
    /// the checker was made.
    pub closed spec fn searches(&self) -> nat {
        self.searches@
    }

    /// The memory holds for each word what a search would find for it.
    pub open spec fn wf(&self) -> bool {
        cache_agrees(self.cache(), self.words())
    }

    /// What one run over a document does: `self` is the checker before the
    /// run, `after` the checker behind it, `lints` what the run reported.
    ///
    /// The run reports the lints of the document under the dictionary. It
    /// leaves the dictionary alone and remembers the reported words beside
    /// those it knew. It searches the dictionary at most three times for
    /// each lint, and not at all where every reported word was remembered
    /// before: then the memory stays as it was.
    pub open spec fn linted(self, after: Self, doc: DocumentView, lints: Seq<LintView>) -> bool {
        &&& after.wf()
        &&& after.words() == self.words()
        &&& lints == spelling_lints(doc, self.words())
        &&& after.cache().dom() == self.cache().dom().union(flagged_words(doc, self.words()))
        &&& self.searches() <= after.searches() <= self.searches() + 3 * lints.len()
        &&& flagged_words(doc, self.words()).subset_of(self.cache().dom()) ==> after.searches()
            == self.searches() && after.cache() == self.cache()
    }

    /// A second run over the same document reports what the first reported,
    /// without searching the dictionary once, and leaves the memory as the
    /// first run left it. After a first run that began with nothing
    /// remembered, the words remembered are the words reported.
    pub proof fn lemma_second_run_same(
        before: Self,
        between: Self,
        after: Self,
        doc: DocumentView,
        first: Seq<LintView>,
        second: Seq<LintView>,
    )
        requires
            before.linted(between, doc, first),
            between.linted(after, doc, second),
        ensures
            second == first,
            after.searches() == between.searches(),
            after.cache() == between.cache(),
            before.cache().dom() == Set::<Seq<char>>::empty() ==> between.cache().dom()
                == flagged_words(doc, before.words()),
    {
        assert(flagged_words(doc, between.words()).subset_of(between.cache().dom()));
        if before.cache().dom() == Set::<Seq<char>>::empty() {
            assert(between.cache().dom() =~= flagged_words(doc, before.words()));
        }
    }

    /// A spell checker for a dictionary, with nothing remembered yet.
    pub fn new(dictionary: T) -> (checker: Self)
        ensures
            checker.wf(),
            checker.words() == dictionary.words(),
            checker.cache().dom() == Set::<Seq<char>>::empty(),
            checker.searches() == 0,
    {
        SpellCheck { dictionary, word_cache: cache_new(), searches: Ghost(0) }
    }

    /// Gives the checker another dictionary. What was remembered under the
    /// old one is forgotten.
    pub fn replace_dictionary(&mut self, dictionary: T)
        ensures
            final(self).wf(),
            final(self).words() == dictionary.words(),
            final(self).cache().dom() == Set::<Seq<char>>::empty(),
            final(self).searches() == old(self).searches(),
    {
        self.dictionary = dictionary;
        self.word_cache = cache_new();
    }

    /// The number of words for which suggestions are remembered.
    pub fn cached_words(&self) -> (n: usize)
        ensures
            n == self.cache().dom().len(),
    {
        cache_len(&self.word_cache)
    }

    /// The suggestions for a word that the dictionary does not hold: from
    /// memory where the word was seen before, else by searching the
    /// dictionary at distance 2, then 3, then 4, until something is found.
    /// What is found, be it nothing, is remembered.
    pub fn cached_suggest_correct_spelling(&mut self, word: &[char]) -> (found: Vec<Vec<char>>)
        requires
            old(self).wf(),
        ensures
            final(self).wf(),
            final(self).words() == old(self).words(),
            words_view(found@) == remembered_or_searched(
                old(self).cache(),
                old(self).words(),
                word@,
            ),
            words_view(found@) == back_off_suggestions(old(self).words(), word@),
            final(self).cache() == old(self).cache().insert(word@, words_view(found@)),
            old(self).cache().contains_key(word@) ==> final(self).cache() == old(self).cache(),
            final(self).searches() <= old(self).searches() + 3,
            final(self).searches() == old(self).searches() + if old(self).cache().contains_key(
                word@,
            ) {
                0
            } else {
                back_off_searches(old(self).words(), word@)
            },
    {
        match cache_get(&self.word_cache, word) {
            Some(remembered) => {
                assert(self.cache() =~= old(self).cache().insert(word@, words_view(remembered@)));
                remembered
            },
            None => {
                let ghost words = self.dictionary.words();
                let mut nearest: Vec<&[char]> = Vec::new();
                let mut distance: u8 = FIRST_DISTANCE;
                while nearest.len() == 0 && distance < END_DISTANCE
                    invariant
                        FIRST_DISTANCE <= distance <= END_DISTANCE,
                        words == self.dictionary.words(),
                        self.word_cache == old(self).word_cache,
                        self.searches@ == old(self).searches@ + (distance - FIRST_DISTANCE),
                        nearest@.len() == slices_view(nearest@).len(),
                        distance == FIRST_DISTANCE ==> nearest@.len() == 0,
                        forall|d: nat|
                            FIRST_DISTANCE <= d < distance - 1 ==> (#[trigger] suggestions(
                                words,
                                word@,
                                100,
                                d,
                            )).len() == 0,
                        distance > FIRST_DISTANCE ==> slices_view(nearest@) == suggestions(
                            words,
                            word@,
                            100,
                            (distance - 1) as nat,
                        ),
                    decreases END_DISTANCE - distance,
                {
                    nearest = suggest_correct_spelling(word, SEARCH_LIMIT, distance, &self.dictionary);
                    distance += 1;
                    proof {
                        self.searches@ = self.searches@ + 1;
                    }
                }
                let found = to_owned_words(&nearest);
                cache_insert(&mut self.word_cache, word, &found);
                found
            },
        }
    }
}

/// Makes the spell checker for a file: it knows the words of the global
/// dictionary and behind them, where the file has any, its identifiers.
pub fn create_linter(
    global_dictionary: Arc<FullDictionary>,
    ident_dict: Option<Arc<FullDictionary>>,
) -> (linter: SpellCheck<MergedDictionary<FullDictionary>>)
    ensures
        linter.wf(),
        linter.cache().dom() == Set::<Seq<char>>::empty(),
        linter.searches() == 0,
        linter.words() == match ident_dict {
            Some(identifiers) => global_dictionary.words() + identifiers.words(),
            None => global_dictionary.words(),
        },
{
    let mut dictionary = MergedDictionary::new();
    dictionary.add_dictionary(global_dictionary);
    if let Some(identifiers) = ident_dict {
        dictionary.add_dictionary(identifiers);
    }
    SpellCheck::new(dictionary)
}

impl<T: Dictionary> Linter for SpellCheck<T> {
    open spec fn ready(&self) -> bool {
        self.wf()
    }

    /// Reports the misspelled words of a document.
    ///
    /// Every word token whose text the dictionary does not hold gives one
    /// lint, in source order, with up to three suggestions. What is reported
    /// depends on the document and the dictionary alone, not on what the
    /// checker remembers. Words looked up are remembered; the dictionary is
    /// searched for no word that is remembered already.
    fn lint(&mut self, document: &Document) -> (lints: Vec<Lint>)
        ensures
            old(self).linted(*final(self), document@, lints_view(lints@)),
            forall|i: int|
                0 <= i < lints@.len() ==> (#[trigger] lints@[i]).span.within(
                    document@.content.len(),
                ),
            forall|i: int| 0 <= i < lints@.len() ==> (#[trigger] lints@[i]).suggestions@.len() <= 3,
    {
        let mut lints: Vec<Lint> = Vec::new();
        let count = document.token_count();
        let ghost doc = document@;
        let ghost words = self.words();
        let mut idx: usize = 0;
        assert(self.cache().dom() =~= old(self).cache().dom().union(flagged_before(doc, words, 0)));
        while idx < count
            invariant
                idx <= count,
                count == doc.tokens.len(),
                doc == document@,
                self.wf(),
                words == self.words(),
                words == old(self).words(),
                lints_view(lints@) == lints_before(doc, words, idx as nat),
                forall|i: int|
                    0 <= i < lints@.len() ==> (#[trigger] lints@[i]).span.within(doc.content.len()),
                forall|i: int|
                    0 <= i < lints@.len() ==> (#[trigger] lints@[i]).suggestions@.len() <= 3,
                self.cache().dom() == old(self).cache().dom().union(
                    flagged_before(doc, words, idx as nat),
                ),
                old(self).searches() <= self.searches() <= old(self).searches() + 3 * lints@.len(),
                flagged_before(doc, words, idx as nat).subset_of(old(self).cache().dom())
                    ==> self.searches() == old(self).searches() && self.cache() == old(
                    self,
                ).cache(),
            decreases count - idx,
        {
            let ghost flagged = flagged_before(doc, words, idx as nat);
            let ghost flagged_next = flagged_before(doc, words, (idx + 1) as nat);
            match misspelled_span(document, idx, &self.dictionary) {
                None => {
                    assert(flagged_next =~= flagged);
                },
                Some(span) => {
                    let word = document.get_tokens()[idx];
                    let word_chars = document.get_span_content(word.span);
                    let ghost before_cache = self.cache();
                    let possibilities = self.cached_suggest_correct_spelling(word_chars);
                    let suggestions = shape_suggestions(&possibilities, word_chars);
                    assert(suggestions@.len() == suggestions_view(suggestions@).len());
                    let ghost earlier = lints@;
                    let lint = Lint {
                        span,
                        lint_kind: LintKind::Spelling,
                        suggestions,
                        message: message_for(word_chars),
                        priority: SPELLING_PRIORITY,
                    };
                    assert(lint@ == spelling_lint(doc, words, idx as int, span));
                    lints.push(lint);
                    proof {
                        assert(lints_view(lints@) =~= lints_view(earlier).push(lint@));
                        assert(flagged_next =~= flagged.insert(word_chars@)) by {
                            assert(reported_span(doc, words, idx as int) is Some);
                        }
                        assert(self.cache().dom() =~= old(self).cache().dom().union(flagged_next));
                        if flagged_next.subset_of(old(self).cache().dom()) {
                            assert(flagged.subset_of(old(self).cache().dom()));
                            assert(flagged_next.contains(word_chars@));
                            assert(before_cache.contains_key(word_chars@));
                            assert(self.cache() =~= before_cache);
                        }
                    }
                },
            }
            idx += 1;
        }
        assert(lints_view(lints@).len() == lints@.len());
        lints
    }
}

} // verus!
