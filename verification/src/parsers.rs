use vstd::prelude::*;

use crate::dictionary::FullDictionary;
use crate::document::{tokens_tile, Document};
use crate::span::Span;
use crate::token::{Punctuation, Token, TokenKind};

verus! {

/// Turns source text into tokens.
pub trait Parser {
    /// The tokens of the text: they cover it in order, without overlap or
    /// gap.
    fn parse(&self, source: &[char]) -> (tokens: Vec<Token>)
        ensures
            tokens_tile(tokens@, source@.len()),
    ;

    /// The identifiers found in the text, as a dictionary of their own, or
    /// nothing where the parser does not collect identifiers.
    fn create_ident_dict(&self, source: &[char]) -> (identifiers: Option<FullDictionary>);
}

/// Whether a character is one of the punctuation marks of ASCII.
pub open spec fn is_ascii_punctuation(c: char) -> bool {
    let code = c as u32;
    33 <= code <= 47 || 58 <= code <= 64 || 91 <= code <= 96 || 123 <= code <= 126
}

/// What kind of token a character belongs to in plain text.
///
/// A line feed is a newline; space, tab and carriage return are whitespace;
/// the square brackets are themselves; every other punctuation mark of ASCII
/// but the apostrophe is punctuation; the rest makes up words.
pub open spec fn kind_of(c: char) -> TokenKind {
    if c == '\n' {
        TokenKind::Newline
    } else if c == ' ' || c == '\t' || c == '\r' {
        TokenKind::Whitespace
    } else if c == '[' {
        TokenKind::Punctuation(Punctuation::OpenSquare)
    } else if c == ']' {
        TokenKind::Punctuation(Punctuation::CloseSquare)
    } else if c != '\'' && is_ascii_punctuation(c) {
        TokenKind::Punctuation(Punctuation::Other)
    } else {
        TokenKind::Word
    }
}

/// Whether neighbouring characters of this kind make one token. Characters
/// of the other kinds are tokens of their own.
pub open spec fn runs_together(kind: TokenKind) -> bool {
    kind == TokenKind::Word || kind == TokenKind::Whitespace
}

/// Whether token `i`, where it is of a kind that runs together, is followed
/// by a token of another kind.
pub open spec fn run_ends(tokens: Seq<Token>, i: int) -> bool {
    runs_together(tokens[i].kind) ==> tokens[i + 1].kind != tokens[i].kind
}

/// The tokens of plain text.
///
/// They cover the text, none is empty, each is of the kind of every one of
/// its characters, a token of a kind that does not run together is one
/// character long, and a run is never cut in two.
pub open spec fn plain_tokens(content: Seq<char>, tokens: Seq<Token>) -> bool {
    &&& tokens_tile(tokens, content.len())
    &&& forall|i: int|
        0 <= i < tokens.len() ==> (#[trigger] tokens[i]).span.start < tokens[i].span.end
    &&& forall|i: int, p: int|
        0 <= i < tokens.len() && tokens[i].span.start <= p < tokens[i].span.end ==> kind_of(
            #[trigger] content[p],
        ) == (#[trigger] tokens[i]).kind
    &&& forall|i: int|
        0 <= i < tokens.len() && !runs_together((#[trigger] tokens[i]).kind) ==> tokens[i].span.end
            == tokens[i].span.start + 1
    &&& forall|i: int| 0 <= i < tokens.len() - 1 ==> #[trigger] run_ends(tokens, i)
}

/// The kind of token that a character belongs to.
pub fn classify(c: char) -> (kind: TokenKind)
    ensures
        kind == kind_of(c),
{
    let code = c as u32;
    if c == '\n' {
        TokenKind::Newline
    } else if c == ' ' || c == '\t' || c == '\r' {
        TokenKind::Whitespace
    } else if c == '[' {
        TokenKind::Punctuation(Punctuation::OpenSquare)
    } else if c == ']' {
        TokenKind::Punctuation(Punctuation::CloseSquare)
    } else if c != '\'' && ((33 <= code && code <= 47) || (58 <= code && code <= 64) || (91 <= code
        && code <= 96) || (123 <= code && code <= 126)) {
        TokenKind::Punctuation(Punctuation::Other)
    } else {
        TokenKind::Word
    }
}

/// A parser for plain text: words, whitespace, newlines and punctuation,
/// with nothing left unlinted.
#[derive(Clone, Copy, Debug)]
pub struct PlainEnglish;

impl Parser for PlainEnglish {
    fn parse(&self, source: &[char]) -> (tokens: Vec<Token>)
        ensures
            plain_tokens(source@, tokens@),
    {
        let mut tokens: Vec<Token> = Vec::new();
        let len = source.len();
        let mut pos: usize = 0;
        while pos < len
            invariant
                pos <= len,
                len == source@.len(),
                plain_tokens(source@.take(pos as int), tokens@),
                tokens@.len() > 0 && pos < len && runs_together(tokens@.last().kind) ==> kind_of(
                    source@[pos as int],
                ) != tokens@.last().kind,
            decreases len - pos,
        {
            let start = pos;
            let kind = classify(source[start]);
            pos += 1;
            if matches!(kind, TokenKind::Word) || matches!(kind, TokenKind::Whitespace) {
                while pos < len && classify(source[pos]) == kind
                    invariant
                        start < pos <= len,
                        len == source@.len(),
                        forall|p: int| start <= p < pos ==> kind_of(#[trigger] source@[p]) == kind,
                    decreases len - pos,
                {
                    pos += 1;
                }
            }
            let ghost before = tokens@;
            let token = Token { span: Span { start, end: pos }, kind };
            tokens.push(token);
            proof {
                let text = source@.take(pos as int);
                let earlier = source@.take(start as int);
                assert forall|i: int, p: int|
                    0 <= i < tokens@.len() && tokens@[i].span.start <= p
                        < tokens@[i].span.end implies kind_of(#[trigger] text[p]) == (
                #[trigger] tokens@[i]).kind by {
                    if i < before.len() {
                        assert(before[i] == tokens@[i]);
                        assert(before[i].span.end <= start) by {
                            lemma_tiles_bounded(before, start as nat, i);
                        }
                        assert(text[p] == earlier[p]);
                    }
                }
                assert forall|i: int| 0 <= i < tokens@.len() - 1 implies crate::document::meets(
                    tokens@,
                    i,
                ) by {
                    if i < before.len() - 1 {
                        assert(crate::document::meets(before, i));
                    }
                }
                assert forall|i: int| 0 <= i < tokens@.len() - 1 implies #[trigger] run_ends(
                    tokens@,
                    i,
                ) by {
                    if i < before.len() - 1 {
                        assert(run_ends(before, i));
                    }
                }
            }
        }
        assert(source@.take(pos as int) == source@);
        tokens
    }

    fn create_ident_dict(&self, source: &[char]) -> (identifiers: Option<FullDictionary>)
        ensures
            identifiers is None,
    {
        None
    }
}

/// A text has one list of plain tokens: two lists that both are its plain
/// tokens are the same list.
pub proof fn lemma_plain_tokens_unique(content: Seq<char>, a: Seq<Token>, b: Seq<Token>)
    requires
        plain_tokens(content, a),
        plain_tokens(content, b),
    ensures
        a == b,
{
    if a.len() == 0 || b.len() == 0 {
        if a.len() > 0 {
            lemma_tiles_bounded(a, content.len(), 0);
        }
        if b.len() > 0 {
            lemma_tiles_bounded(b, content.len(), 0);
        }
        assert(a =~= b);
    } else {
        lemma_same_tokens_upto(content, a, b, a.len() - 1);
        lemma_same_tokens_upto(content, b, a, b.len() - 1);
        assert(a =~= b);
    }
}

/// Two lists of plain tokens of one text agree in token `i` and in all
/// before it, where the first list has a token `i`.
proof fn lemma_same_tokens_upto(content: Seq<char>, a: Seq<Token>, b: Seq<Token>, i: int)
    requires
        plain_tokens(content, a),
        plain_tokens(content, b),
        0 <= i < a.len(),
    ensures
        i < b.len(),
        forall|k: int| 0 <= k <= i ==> a[k] == b[k],
    decreases i,
{
    if i > 0 {
        lemma_same_tokens_upto(content, a, b, i - 1);
        assert(crate::document::meets(a, i - 1));
        lemma_tiles_bounded(a, content.len(), i);
        lemma_tiles_bounded(b, content.len(), i - 1);
        // Token `i` of the first list begins within the text, so the second
        // list cannot end with its token `i - 1`.
        assert(i < b.len());
        assert(crate::document::meets(b, i - 1));
    }
    lemma_tiles_bounded(a, content.len(), i);
    lemma_tiles_bounded(b, content.len(), i);
    let start = a[i].span.start as int;
    assert(b[i].span.start == start);
    assert(kind_of(content[start]) == a[i].kind);
    assert(kind_of(content[start]) == b[i].kind);
    lemma_run_ends_at(content, a, b, i);
    lemma_run_ends_at(content, b, a, i);
}

/// Where two lists of plain tokens have a token `i` of one kind that begins
/// at one place, the token of the first list does not end before that of the
/// second.
proof fn lemma_run_ends_at(content: Seq<char>, a: Seq<Token>, b: Seq<Token>, i: int)
    requires
        plain_tokens(content, a),
        plain_tokens(content, b),
        0 <= i < a.len(),
        i < b.len(),
        a[i].span.start == b[i].span.start,
        a[i].kind == b[i].kind,
    ensures
        a[i].span.end >= b[i].span.end,
{
    lemma_tiles_bounded(a, content.len(), i);
    lemma_tiles_bounded(b, content.len(), i);
    if a[i].span.end < b[i].span.end {
        let end = a[i].span.end as int;
        // The second list's token goes on behind `end`, so it is a run, and
        // the character at `end` is of its kind.
        assert(runs_together(b[i].kind));
        assert(kind_of(content[end]) == b[i].kind);
        // The first list must have a next token, which begins at `end` and
        // is of the kind of that character: the run was cut in two.
        assert(i < a.len() - 1);
        assert(crate::document::meets(a, i));
        assert(run_ends(a, i));
        lemma_tiles_bounded(a, content.len(), i + 1);
        assert(kind_of(content[end]) == a[i + 1].kind);
    }
}

/// In a list of tokens that covers a text, every token ends within the
/// text.
pub proof fn lemma_tiles_bounded(tokens: Seq<Token>, len: nat, i: int)
    requires
        tokens_tile(tokens, len),
        0 <= i < tokens.len(),
    ensures
        tokens[i].span.start <= tokens[i].span.end <= len,
    decreases tokens.len() - i,
{
    if i < tokens.len() - 1 {
        lemma_tiles_bounded(tokens, len, i + 1);
        assert(crate::document::meets(tokens, i));
    }
}

impl Document {
    /// Reads source text with a parser.
    pub fn parse<P: Parser>(source: Vec<char>, parser: &P) -> (document: Document)
        ensures
            document@.content == source@,
            document@.well_formed(),
    {
        let tokens = parser.parse(source.as_slice());
        Document::new(source, tokens)
    }

    /// Reads plain text.
    pub fn new_plain_english(source: Vec<char>) -> (document: Document)
        ensures
            document@.content == source@,
            plain_tokens(source@, document@.tokens),
    {
        let parser = PlainEnglish;
        let tokens = parser.parse(source.as_slice());
        Document::new(source, tokens)
    }
}

} // verus!
