use vstd::prelude::*;

use crate::span::Span;

verus! {

/// What a lint is about.
#[derive(Clone, Copy, Debug, PartialEq, Eq, Structural)]
pub enum LintKind {
    Spelling,
    Capitalization,
    Formatting,
    Repetition,
    Readability,
    Miscellaneous,
}

/// How grave a finding is to the user.
#[derive(Clone, Copy, Debug, PartialEq, Eq, Structural)]
pub enum Severity {
    Error,
    Warning,
    Information,
    Hint,
}

impl LintKind {
    /// How grave a finding of this kind is: a matter of style is a hint, a
    /// misspelled or miscapitalized word is for information, anything else
    /// is a warning.
    pub open spec fn spec_severity(&self) -> Severity {
        match self {
            LintKind::Spelling => Severity::Information,
            LintKind::Capitalization => Severity::Information,
            LintKind::Readability => Severity::Hint,
            LintKind::Formatting => Severity::Warning,
            LintKind::Repetition => Severity::Warning,
            LintKind::Miscellaneous => Severity::Warning,
        }
    }

    #[verifier::when_used_as_spec(spec_severity)]
    pub fn severity(&self) -> (severity: Severity)
        ensures
            severity == self.spec_severity(),
    {
        match self {
            LintKind::Spelling => Severity::Information,
            LintKind::Capitalization => Severity::Information,
            LintKind::Readability => Severity::Hint,
            LintKind::Formatting => Severity::Warning,
            LintKind::Repetition => Severity::Warning,
            LintKind::Miscellaneous => Severity::Warning,
        }
    }
}

/// A fix that can be applied to the text under a lint's span.
#[derive(Clone, Debug, PartialEq, Eq)]
pub enum Suggestion {
    /// Put these characters in place of the text under the span.
    ReplaceWith(Vec<char>),
    /// Take the text under the span away.
    Remove,
}

/// A suggestion as the contracts see it.
pub enum SuggestionView {
    ReplaceWith(Seq<char>),
    Remove,
}

impl View for Suggestion {
    type V = SuggestionView;

    open spec fn view(&self) -> SuggestionView {
        match self {
            Suggestion::ReplaceWith(chars) => SuggestionView::ReplaceWith(chars@),
            Suggestion::Remove => SuggestionView::Remove,
        }
    }
}

impl SuggestionView {
    /// The characters that stand under the span once the suggestion is
    /// applied.
    pub open spec fn replacement(self) -> Seq<char> {
        match self {
            SuggestionView::ReplaceWith(chars) => chars,
            SuggestionView::Remove => Seq::empty(),
        }
    }

    /// The text after the suggestion is applied at `span`.
    pub open spec fn applied(self, source: Seq<char>, span: Span) -> Seq<char> {
        source.subrange(0, span.start as int) + self.replacement() + source.subrange(
            span.end as int,
            source.len() as int,
        )
    }
}

impl Suggestion {
    /// Applies the suggestion to `source` at `span` and returns the new text.
    pub fn apply(&self, span: Span, source: &[char]) -> (changed: Vec<char>)
        requires
            span.within(source@.len()),
        ensures
            changed@ == self@.applied(source@, span),
    {
        let mut changed: Vec<char> = Vec::new();
        let mut i: usize = 0;
        while i < span.start
            invariant
                i <= span.start <= source@.len(),
                changed@ == source@.subrange(0, i as int),
            decreases span.start - i,
        {
            changed.push(source[i]);
            i += 1;
        }
        let ghost head = changed@;
        match self {
            Suggestion::ReplaceWith(chars) => {
                let mut k: usize = 0;
                while k < chars.len()
                    invariant
                        k <= chars@.len(),
                        changed@ == head + chars@.subrange(0, k as int),
                    decreases chars.len() - k,
                {
                    changed.push(chars[k]);
                    k += 1;
                }
                assert(chars@.subrange(0, k as int) == chars@);
            },
            Suggestion::Remove => {},
        }
        let ghost body = changed@;
        assert(body == head + self@.replacement());
        let mut j: usize = span.end;
        while j < source.len()
            invariant
                span.end <= j <= source@.len(),
                changed@ == body + source@.subrange(span.end as int, j as int),
            decreases source.len() - j,
        {
            changed.push(source[j]);
            j += 1;
        }
        changed
    }
}

/// The views of a list of suggestions.
pub open spec fn suggestions_view(suggestions: Seq<Suggestion>) -> Seq<SuggestionView> {
    suggestions.map_values(|s: Suggestion| s@)
}

/// A finding: where it is, what it is about, what to show the user and how to
/// fix it. A lower priority is more important.
#[derive(Clone, Debug, PartialEq, Eq)]
pub struct Lint {
    pub span: Span,
    pub lint_kind: LintKind,
    pub suggestions: Vec<Suggestion>,
    pub message: String,
    pub priority: u8,
}

/// A lint as the contracts see it.
pub struct LintView {
    pub span: Span,
    pub lint_kind: LintKind,
    pub suggestions: Seq<SuggestionView>,
    pub message: Seq<char>,
    pub priority: u8,
}

impl View for Lint {
    type V = LintView;

    open spec fn view(&self) -> LintView {
        LintView {
            span: self.span,
            lint_kind: self.lint_kind,
            suggestions: suggestions_view(self.suggestions@),
            message: self.message@,
            priority: self.priority,
        }
    }
}

/// The views of a list of lints.
pub open spec fn lints_view(lints: Seq<Lint>) -> Seq<LintView> {
    lints.map_values(|l: Lint| l@)
}

/// Whether lint `a` is shown before lint `b`: the lower priority first,
/// among equal priorities the earlier start first, and among lints equal in
/// both the one that was reported first.
pub open spec fn shown_before(lints: Seq<Lint>, a: int, b: int) -> bool {
    ||| lints[a].priority < lints[b].priority
    ||| lints[a].priority == lints[b].priority && lints[a].span.start < lints[b].span.start
    ||| lints[a].priority == lints[b].priority && lints[a].span.start == lints[b].span.start && a
        < b
}

/// Whether `order` lists the lints that touch `range`, each by its index,
/// in the order in which they are shown.
pub open spec fn shows_lints_in(order: Seq<usize>, lints: Seq<Lint>, range: Span) -> bool {
    &&& forall|k: int|
        0 <= k < order.len() ==> (#[trigger] order[k]) < lints.len()
            && lints[order[k] as int].span.overlaps_with(range)
    &&& forall|i: int|
        0 <= i < lints.len() && (#[trigger] lints[i]).span.overlaps_with(range)
            ==> order.contains(i as usize)
    &&& forall|j: int, k: int|
        0 <= j < k < order.len() ==> shown_before(lints, #[trigger] order[j] as int, #[trigger] order[k] as int)
}

/// Picks the lints that touch a range of the text and puts them in the
/// order in which they are shown. The answer names each lint by its index.
pub fn lints_for_range(lints: &[Lint], range: Span) -> (order: Vec<usize>)
    ensures
        shows_lints_in(order@, lints@, range),
{
    let mut order: Vec<usize> = Vec::new();
    let mut i: usize = 0;
    while i < lints.len()
        invariant
            i <= lints.len(),
            shows_lints_in(order@, lints@.take(i as int), range),
        decreases lints.len() - i,
    {
        let ghost seen = lints@.take(i as int);
        let ghost next = lints@.take(i + 1);
        let ghost before = order@;
        if lints[i].span.overlaps_with(range) {
            let priority = lints[i].priority;
            let start = lints[i].span.start;
            let mut at: usize = 0;
            while at < order.len() && (lints[order[at]].priority < priority || (
            lints[order[at]].priority == priority && lints[order[at]].span.start <= start))
                invariant
                    i < lints.len(),
                    at <= order.len(),
                    order@ == before,
                    seen == lints@.take(i as int),
                    shows_lints_in(before, seen, range),
                    priority == lints@[i as int].priority,
                    start == lints@[i as int].span.start,
                    forall|k: int|
                        0 <= k < at ==> shown_before(lints@, (#[trigger] before[k]) as int, i as int),
                decreases order.len() - at,
            {
                assert(seen[order@[at as int] as int] == lints@[order@[at as int] as int]);
                at += 1;
            }
            order.insert(at, i);
            proof {
                assert forall|j: int, k: int| 0 <= j < k < order@.len() implies shown_before(
                    next,
                    #[trigger] order@[j] as int,
                    #[trigger] order@[k] as int,
                ) by {
                    let a = order@[j] as int;
                    let b = order@[k] as int;
                    if j != at {
                        let was = if j < at { j } else { j - 1 };
                        assert(before[was] == order@[j]);
                        assert(seen[a] == lints@[a]);
                    }
                    if k != at {
                        let was = if k < at { k } else { k - 1 };
                        assert(before[was] == order@[k]);
                        assert(seen[b] == lints@[b]);
                    }
                    if j != at && k != at {
                        let was_j = if j < at { j } else { j - 1 };
                        let was_k = if k < at { k } else { k - 1 };
                        assert(shown_before(seen, before[was_j] as int, before[was_k] as int));
                    } else if j == at {
                        // Everything behind the place of insertion is shown
                        // behind what stood there, which is shown behind
                        // the new lint.
                        assert(at < before.len());
                        assert(seen[before[at as int] as int] == lints@[before[at as int] as int]);
                        if k - 1 > at {
                            assert(shown_before(seen, before[at as int] as int, before[k - 1] as int));
                        }
                    }
                }
                assert forall|k: int| 0 <= k < order@.len() implies (#[trigger] order@[k])
                    < next.len() && next[order@[k] as int].span.overlaps_with(range) by {
                    if k != at {
                        let was = if k < at { k } else { k - 1 };
                        assert(before[was] == order@[k]);
                        assert(seen[order@[k] as int] == next[order@[k] as int]);
                    }
                }
                assert forall|x: int|
                    0 <= x < next.len() && (#[trigger] next[x]).span.overlaps_with(
                        range,
                    ) implies order@.contains(x as usize) by {
                    if x < i {
                        assert(seen[x] == next[x]);
                        assert(before.contains(x as usize));
                        let was = choose|was: int| 0 <= was < before.len() && before[was] == x as usize;
                        let now = if was < at { was } else { was + 1 };
                        assert(order@[now] == x as usize);
                    } else {
                        assert(order@[at as int] == x as usize);
                    }
                }
            }
        } else {
            proof {
                assert forall|j: int, k: int| 0 <= j < k < order@.len() implies shown_before(
                    next,
                    #[trigger] order@[j] as int,
                    #[trigger] order@[k] as int,
                ) by {
                    assert(seen[order@[j] as int] == next[order@[j] as int]);
                    assert(seen[order@[k] as int] == next[order@[k] as int]);
                    assert(shown_before(seen, order@[j] as int, order@[k] as int));
                }
                assert forall|k: int| 0 <= k < order@.len() implies (#[trigger] order@[k])
                    < next.len() && next[order@[k] as int].span.overlaps_with(range) by {
                    assert(seen[order@[k] as int] == next[order@[k] as int]);
                }
                assert forall|x: int|
                    0 <= x < next.len() && (#[trigger] next[x]).span.overlaps_with(
                        range,
                    ) implies order@.contains(x as usize) by {
                    assert(seen[x] == next[x]);
                }
            }
        }
        i += 1;
    }
    assert(lints@.take(i as int) == lints@);
    order
}

} // verus!
