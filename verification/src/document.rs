use vstd::prelude::*;
use vstd::slice::slice_subrange;

use crate::span::Span;
use crate::token::Token;

verus! {

/// Whether token `i` ends where the token after it starts.
pub open spec fn meets(tokens: Seq<Token>, i: int) -> bool {
    tokens[i].span.end == tokens[i + 1].span.start
}

/// Whether the tokens cover a text of `len` characters in source order,
/// without overlap and without gaps. No tokens cover the empty text only.
pub open spec fn tokens_tile(tokens: Seq<Token>, len: nat) -> bool {
    &&& forall|i: int| 0 <= i < tokens.len() ==> (#[trigger] tokens[i]).span.wf()
    &&& forall|i: int| 0 <= i < tokens.len() - 1 ==> #[trigger] meets(tokens, i)
    &&& if tokens.len() == 0 {
        len == 0
    } else {
        tokens[0].span.start == 0 && tokens.last().span.end == len
    }
}

/// What a document is to the contracts: its characters and its tokens.
pub struct DocumentView {
    pub content: Seq<char>,
    pub tokens: Seq<Token>,
}

impl DocumentView {
    /// The characters under a span. Meaningful when the span lies within the
    /// content.
    pub open spec fn content_of(self, span: Span) -> Seq<char> {
        self.content.subrange(span.start as int, span.end as int)
    }

    /// The tokens cover the content in source order, without overlap and
    /// without gaps. A document without tokens has no content.
    pub open spec fn well_formed(self) -> bool {
        tokens_tile(self.tokens, self.content.len())
    }
}

/// Source text together with the tokens a parser made of it.
///
/// The tokens come from outside and are taken as they are: nothing here
/// assumes that they are well formed.
#[derive(Clone, Debug)]
pub struct Document {
    source: Vec<char>,
    tokens: Vec<Token>,
}

impl View for Document {
    type V = DocumentView;

    closed spec fn view(&self) -> DocumentView {
        DocumentView { content: self.source@, tokens: self.tokens@ }
    }
}

impl Document {
    /// Puts together a document from text and the tokens of a parser.
    pub fn new(source: Vec<char>, tokens: Vec<Token>) -> (document: Document)
        ensures
            document@.content == source@,
            document@.tokens == tokens@,
    {
        Document { source, tokens }
    }

    /// The token at `index`, if there is one.
    pub fn get_token(&self, index: usize) -> (token: Option<Token>)
        ensures
            token == if index < self@.tokens.len() {
                Some(self@.tokens[index as int])
            } else {
                None
            },
    {
        if index < self.tokens.len() {
            Some(self.tokens[index])
        } else {
            None
        }
    }

    /// All tokens, in source order.
    pub fn get_tokens(&self) -> (tokens: &[Token])
        ensures
            tokens@ == self@.tokens,
    {
        self.tokens.as_slice()
    }

    pub fn token_count(&self) -> (n: usize)
        ensures
            n == self@.tokens.len(),
    {
        self.tokens.len()
    }

    /// The whole text.
    pub fn get_full_content(&self) -> (content: &[char])
        ensures
            content@ == self@.content,
    {
        self.source.as_slice()
    }

    /// The characters under `span`.
    pub fn get_span_content(&self, span: Span) -> (content: &[char])
        requires
            span.within(self@.content.len()),
        ensures
            content@ == self@.content_of(span),
    {
        slice_subrange(self.source.as_slice(), span.start, span.end)
    }

    /// The characters under `span`, or nothing where the span does not lie
    /// within the text.
    pub fn try_span_content(&self, span: Span) -> (content: Option<&[char]>)
        ensures
            content is Some == span.within(self@.content.len()),
            content is Some ==> content->0@ == self@.content_of(span),
    {
        if span.fits(self.source.len()) {
            Some(self.get_span_content(span))
        } else {
            None
        }
    }

    /// The characters under `span` as a string.
    pub fn get_span_content_str(&self, span: Span) -> (content: String)
        requires
            span.within(self@.content.len()),
        ensures
            content@ == self@.content_of(span),
    {
        crate::chars::string_from_chars(self.get_span_content(span))
    }

    /// Whether the tokens cover the text in order, without overlap or gap.
    pub fn is_well_formed(&self) -> (b: bool)
        ensures
            b == self@.well_formed(),
    {
        let n = self.tokens.len();
        if n == 0 {
            return self.source.len() == 0;
        }
        if self.tokens[0].span.start != 0 || self.tokens[n - 1].span.end != self.source.len() {
            return false;
        }
        let mut i: usize = 0;
        while i < n
            invariant
                n == self.tokens.len(),
                i <= n,
                forall|k: int| 0 <= k < i ==> (#[trigger] self.tokens@[k]).span.wf(),
                forall|k: int| 0 <= k < i && k < n - 1 ==> #[trigger] meets(self.tokens@, k),
            decreases n - i,
        {
            let token = self.tokens[i];
            if token.span.start > token.span.end {
                assert(!self@.tokens[i as int].span.wf());
                return false;
            }
            if i + 1 < n && token.span.end != self.tokens[i + 1].span.start {
                assert(!meets(self.tokens@, i as int));
                return false;
            }
            i += 1;
        }
        true
    }
}

} // verus!
