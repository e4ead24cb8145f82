use vstd::prelude::*;

use crate::span::Span;

verus! {

/// A place in a text as an editor counts it: the line, and the column within
/// the line, both from zero and both in characters.
#[derive(Clone, Copy, Debug, PartialEq, Eq, Structural)]
pub struct Position {
    pub line: usize,
    pub column: usize,
}

/// The number of line feeds before `index`.
pub open spec fn line_of(source: Seq<char>, index: int) -> int
    decreases index,
{
    if index <= 0 {
        0
    } else if source[index - 1] == '\n' {
        line_of(source, index - 1) + 1
    } else {
        line_of(source, index - 1)
    }
}

/// Where the line begins in which `index` lies: behind the last line feed
/// before `index`, or at the start of the text.
pub open spec fn line_start(source: Seq<char>, index: int) -> int
    decreases index,
{
    if index <= 0 {
        0
    } else if source[index - 1] == '\n' {
        index
    } else {
        line_start(source, index - 1)
    }
}

/// Whether a place of `line` and `column` comes before another or is the
/// same place.
pub open spec fn at_or_before(line: int, column: int, other: Position) -> bool {
    line < other.line || (line == other.line && column <= other.column)
}

/// Whether the place of `index` in the text comes before `position` or is
/// that place.
pub open spec fn reaches(source: Seq<char>, index: int, position: Position) -> bool {
    at_or_before(line_of(source, index), index - line_start(source, index), position)
}

/// A line begins at or before each of its characters, and no text has more
/// line feeds than characters.
pub proof fn lemma_line_bounds(source: Seq<char>, index: int)
    requires
        0 <= index,
    ensures
        0 <= line_start(source, index) <= index,
        0 <= line_of(source, index) <= index,
    decreases index,
{
    if index > 0 {
        lemma_line_bounds(source, index - 1);
    }
}

/// Places grow with the index: a later character lies on a later line, or on
/// the same line in a later column.
pub proof fn lemma_places_grow(source: Seq<char>, i: int, j: int)
    requires
        0 <= i < j,
    ensures
        line_of(source, i) < line_of(source, j) || (line_of(source, i) == line_of(source, j)
            && line_start(source, i) == line_start(source, j)),
    decreases j - i,
{
    lemma_line_bounds(source, i);
    if i + 1 < j {
        lemma_places_grow(source, i, j - 1);
        lemma_line_bounds(source, j - 1);
    }
}

/// The place of a character of the text.
pub fn index_to_position(source: &[char], index: usize) -> (position: Position)
    requires
        index <= source@.len(),
    ensures
        position.line == line_of(source@, index as int),
        position.column == index - line_start(source@, index as int),
{
    let mut line: usize = 0;
    let mut start: usize = 0;
    let mut i: usize = 0;
    while i < index
        invariant
            i <= index <= source@.len(),
            line == line_of(source@, i as int),
            start == line_start(source@, i as int),
            line <= i,
            start <= i,
        decreases index - i,
    {
        if source[i] == '\n' {
            line += 1;
            start = i + 1;
        }
        i += 1;
    }
    Position { line, column: index - start }
}

/// The character that a place names: the last one that lies at the place or
/// before it. A column beyond the end of its line names the end of the
/// line, and a line beyond the last names the end of the text.
pub fn position_to_index(source: &[char], position: Position) -> (index: usize)
    ensures
        index <= source@.len(),
        reaches(source@, index as int, position),
        forall|later: int| index < later <= source@.len() ==> !reaches(source@, later, position),
{
    let mut line: usize = 0;
    let mut start: usize = 0;
    let mut i: usize = 0;
    while i < source.len()
        invariant
            i <= source@.len(),
            line == line_of(source@, i as int),
            start == line_start(source@, i as int),
            line <= i,
            start <= i,
            reaches(source@, i as int, position),
        decreases source.len() - i,
    {
        let next_line = if source[i] == '\n' {
            line + 1
        } else {
            line
        };
        let next_start = if source[i] == '\n' {
            i + 1
        } else {
            start
        };
        let next_column = i + 1 - next_start;
        if next_line < position.line || (next_line == position.line && next_column
            <= position.column) {
            line = next_line;
            start = next_start;
            i += 1;
        } else {
            proof {
                assert(!reaches(source@, i + 1, position));
                assert forall|later: int| i < later <= source@.len() implies !reaches(
                    source@,
                    later,
                    position,
                ) by {
                    if i + 1 < later {
                        lemma_places_grow(source@, i + 1, later);
                        lemma_line_bounds(source@, i + 1);
                        lemma_line_bounds(source@, later);
                    }
                }
            }
            return i;
        }
    }
    i
}

/// The places at which a span begins and ends.
pub fn span_to_range(source: &[char], span: Span) -> (range: (Position, Position))
    requires
        span.within(source@.len()),
    ensures
        range.0.line == line_of(source@, span.start as int),
        range.0.column == span.start - line_start(source@, span.start as int),
        range.1.line == line_of(source@, span.end as int),
        range.1.column == span.end - line_start(source@, span.end as int),
{
    (index_to_position(source, span.start), index_to_position(source, span.end))
}

/// The span between two places. Where the second place lies before the
/// first, the span is empty and stands at the first.
pub fn range_to_span(source: &[char], start: Position, end: Position) -> (span: Span)
    ensures
        span.within(source@.len()),
        reaches(source@, span.start as int, start),
        forall|later: int| span.start < later <= source@.len() ==> !reaches(source@, later, start),
        at_or_before(start.line as int, start.column as int, end) ==> reaches(
            source@,
            span.end as int,
            end,
        ) && forall|later: int|
            span.end < later <= source@.len() ==> !reaches(source@, later, end),
        !at_or_before(start.line as int, start.column as int, end) ==> span.end == span.start,
{
    let first = position_to_index(source, start);
    let in_order = start.line < end.line || (start.line == end.line && start.column <= end.column);
    if !in_order {
        return Span { start: first, end: first };
    }
    let last = position_to_index(source, end);
    proof {
        if last < first {
            assert(reaches(source@, first as int, end));
        }
    }
    Span { start: first, end: last }
}

} // verus!
