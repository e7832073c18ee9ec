//! Tokenizers that cut text with charabia: one gives normalized words
//! (for searching labels), the other plain segments (for stored bodies).
use vstd::prelude::*;
use vstd::string::*;
use crate::text::texts;
use charabia::{Segment, Tokenize};

verus! {

/// A token: a piece of text with its place in the original text.
#[derive(Clone, Debug)]
pub struct Token {
    /// Offset of the first byte of the piece in the original text.
    pub offset_from: usize,
    /// Offset one past the last byte of the piece in the original text.
    pub offset_to: usize,
    /// Position of the token in the token sequence.
    pub position: usize,
    /// The text of the token.
    pub text: String,
    /// Length of the token, as counted by the tokenizer.
    pub position_length: usize,
}

/// The fields of a token, as plain values.
pub open spec fn token_view(t: Token) -> (usize, usize, usize, Seq<char>, usize) {
    (t.offset_from, t.offset_to, t.position, t.text@, t.position_length)
}

impl Token {
    /// A copy of the token.
    pub fn copy(&self) -> (r: Token)
        ensures
            r == *self,
    {
        Token {
            offset_from: self.offset_from,
            offset_to: self.offset_to,
            position: self.position,
            text: self.text.clone(),
            position_length: self.position_length,
        }
    }
}

/// A sequence of tokens read one after the other.
pub struct CharabiaTokenStream {
    tokens: Vec<Token>,
    index: usize,
}

impl CharabiaTokenStream {
    /// The tokens of the stream.
    pub closed spec fn spec_tokens(&self) -> Seq<Token> {
        self.tokens@
    }

    /// How many tokens have been reached so far.
    pub closed spec fn spec_index(&self) -> nat {
        self.index as nat
    }

    /// The stream never reaches past its last token.
    pub closed spec fn wf(&self) -> bool {
        self.index <= self.tokens@.len()
    }

    /// A stream over `tokens`, before its first token.
    pub fn from_tokens(tokens: Vec<Token>) -> (r: CharabiaTokenStream)
        ensures
            r.wf(),
            r.spec_tokens() == tokens@,
            r.spec_index() == 0,
    {
        CharabiaTokenStream { tokens, index: 0 }
    }

    /// Moves to the next token; false when there is none left.
    pub fn advance(&mut self) -> (r: bool)
        requires
            old(self).wf(),
        ensures
            final(self).wf(),
            final(self).spec_tokens() == old(self).spec_tokens(),
            r == (old(self).spec_index() < old(self).spec_tokens().len()),
            final(self).spec_index() == if r {
                old(self).spec_index() + 1
            } else {
                old(self).spec_index()
            },
    {
        if self.index < self.tokens.len() {
            self.index = self.index + 1;
            true
        } else {
            false
        }
    }

    /// The current token (there is one once `advance` has returned true).
    pub fn token(&self) -> (r: &Token)
        requires
            self.wf(),
            self.spec_index() > 0,
        ensures
            *r == self.spec_tokens()[self.spec_index() - 1],
    {
        &self.tokens[self.index - 1]
    }

    /// The current token, to change it in place.
    pub fn token_mut(&mut self) -> (r: &mut Token)
        requires
            old(self).wf(),
            old(self).spec_index() > 0,
        ensures
            *r == old(self).spec_tokens()[old(self).spec_index() - 1],
            final(self).spec_index() == old(self).spec_index(),
            final(self).spec_tokens() == old(self).spec_tokens().update(
                old(self).spec_index() - 1,
                *final(r),
            ),
    {
        let i = self.index - 1;
        &mut self.tokens[i]
    }

    /// Moves to the next token and gives it, as `TokenStream::next` does.
    pub fn next(&mut self) -> (r: Option<Token>)
        requires
            old(self).wf(),
        ensures
            final(self).wf(),
            final(self).spec_tokens() == old(self).spec_tokens(),
            match r {
                Some(t) => old(self).spec_index() < old(self).spec_tokens().len()
                    && final(self).spec_index() == old(self).spec_index() + 1
                    && t == old(self).spec_tokens()[old(self).spec_index() as int],
                None => old(self).spec_index() == old(self).spec_tokens().len()
                    && final(self).spec_index() == old(self).spec_index(),
            },
    {
        if self.advance() {
            Some(self.token().copy())
        } else {
            None
        }
    }
}

/// A word as charabia's tokenizer gives it: where it lies in the original
/// text (in bytes) and its normalized form.
#[derive(Debug)]
pub struct Lexeme {
    pub byte_start: usize,
    pub byte_end: usize,
    pub lemma: String,
}

/// The fields of a lexeme, as plain values.
pub open spec fn lexeme_view(l: Lexeme) -> (usize, usize, Seq<char>) {
    (l.byte_start, l.byte_end, l.lemma@)
}

/// The words that charabia's default tokenizer (segmentation, then
/// normalization and classification) makes of a text.
pub uninterp spec fn charabia_lexemes(text: Seq<char>) -> Seq<(usize, usize, Seq<char>)>;

/// The segments that charabia's segmenter cuts a text into.
pub uninterp spec fn charabia_segments(text: Seq<char>) -> Seq<Seq<char>>;

/// Calls `charabia::Tokenize::tokenize` on `text` and keeps, of each token,
/// its byte range and its lemma. The contract names the result; it also
/// states that a range never ends before it starts, as charabia's segmenter
/// sets the end to the start plus the length of the piece.
#[verifier::external_body]
fn charabia_tokenize(text: &str) -> (r: Vec<Lexeme>)
    ensures
        r@.map_values(|l: Lexeme| lexeme_view(l)) == charabia_lexemes(text@),
        forall|i: int| 0 <= i < r@.len() ==> (#[trigger] r@[i]).byte_start <= r@[i].byte_end,
{
    text.tokenize().map(|t| Lexeme { byte_start: t.byte_start, byte_end: t.byte_end, lemma: t.lemma.to_string() }).collect()
}

/// Calls `charabia::Segment::segment_str` on `text`. The contract names the
/// segments, and states that they cut the text into consecutive pieces: their
/// lengths in bytes add up to the text's (each segmenter yields slices of the
/// text, one after the other, that cover it).
#[verifier::external_body]
fn charabia_segment(text: &str) -> (r: Vec<String>)
    ensures
        texts(r@) == charabia_segments(text@),
        segments_len(texts(r@), r@.len() as int) == byte_len(text@),
{
    text.segment_str().map(|s| s.to_string()).collect()
}

/// The token made of the `i`-th word of a tokenized text.
pub open spec fn lexeme_token(l: (usize, usize, Seq<char>), i: int) -> (usize, usize, usize, Seq<char>, usize) {
    (l.0, l.1, i as usize, l.2, (l.1 - l.0) as usize)
}

/// The tokens of a text tokenized into `lexemes`: each word keeps its byte
/// range and its lemma, and is numbered from zero.
pub fn tokens_from_lexemes(lexemes: Vec<Lexeme>) -> (r: CharabiaTokenStream)
    requires
        forall|i: int| 0 <= i < lexemes@.len() ==> (#[trigger] lexemes@[i]).byte_start <= lexemes@[i].byte_end,
    ensures
        r.wf(),
        r.spec_index() == 0,
        r.spec_tokens().len() == lexemes@.len(),
        forall|i: int|
            0 <= i < lexemes@.len() ==> token_view(#[trigger] r.spec_tokens()[i]) == lexeme_token(
                lexeme_view(lexemes@[i]),
                i,
            ),
{
    let mut tokens: Vec<Token> = Vec::new();
    let mut position: usize = 0;
    while position < lexemes.len()
        invariant
            position <= lexemes@.len(),
            forall|i: int| 0 <= i < lexemes@.len() ==> (#[trigger] lexemes@[i]).byte_start <= lexemes@[i].byte_end,
            tokens@.len() == position,
            forall|i: int|
                0 <= i < position ==> token_view(#[trigger] tokens@[i]) == lexeme_token(
                    lexeme_view(lexemes@[i]),
                    i,
                ),
        decreases lexemes@.len() - position,
    {
        let l = &lexemes[position];
        tokens.push(
            Token {
                offset_from: l.byte_start,
                offset_to: l.byte_end,
                position: position,
                text: l.lemma.clone(),
                position_length: l.byte_end - l.byte_start,
            },
        );
        position = position + 1;
    }
    CharabiaTokenStream::from_tokens(tokens)
}

/// The tokenizer that gives the normalized words of a text (`"Thé"` gives `"the"`).
#[derive(Clone, Copy, Debug)]
pub struct CharabiaTokenizer;

impl CharabiaTokenizer {
    /// The tokens of `text`, from charabia's words, numbered from zero.
    pub fn token_stream(&self, text: &str) -> (r: CharabiaTokenStream)
        ensures
            r.wf(),
            r.spec_index() == 0,
            r.spec_tokens().len() == charabia_lexemes(text@).len(),
            forall|i: int|
                0 <= i < charabia_lexemes(text@).len() ==> token_view(#[trigger] r.spec_tokens()[i])
                    == lexeme_token(charabia_lexemes(text@)[i], i),
            forall|i: int|
                0 <= i < charabia_lexemes(text@).len() ==> (#[trigger] charabia_lexemes(text@)[i]).0
                    <= charabia_lexemes(text@)[i].1,
            forall|i: int|
                0 <= i < charabia_lexemes(text@).len() ==> (#[trigger] r.spec_tokens()[i]).position_length
                    == r.spec_tokens()[i].offset_to - r.spec_tokens()[i].offset_from,
    {
        let lexemes = charabia_tokenize(text);
        proof {
            assert forall|i: int| 0 <= i < lexemes@.len() implies lexeme_view(lexemes@[i])
                == charabia_lexemes(text@)[i] by {
                assert(lexemes@.map_values(|l: Lexeme| lexeme_view(l))[i] == lexeme_view(lexemes@[i]));
            }
        }
        tokens_from_lexemes(lexemes)
    }
}

/// The length in bytes of the UTF-8 form of a text.
pub open spec fn byte_len(s: Seq<char>) -> nat {
    vstd::utf8::encode_utf8(s).len()
}

/// The total length in bytes of the first `k` segments.
pub open spec fn segments_len(segments: Seq<Seq<char>>, k: int) -> nat
    decreases k,
{
    if k <= 0 {
        0
    } else {
        segments_len(segments, k - 1) + byte_len(segments[k - 1])
    }
}

/// The token made of the `i`-th segment: it starts where the previous
/// segments end, counted in bytes, and is numbered by that same offset.
pub open spec fn segment_token(segments: Seq<Seq<char>>, i: int) -> (usize, usize, usize, Seq<char>, usize) {
    let start = segments_len(segments, i);
    (start as usize, (start + byte_len(segments[i])) as usize, start as usize, segments[i], byte_len(segments[i]) as usize)
}

proof fn lemma_segments_len_monotonic(segments: Seq<Seq<char>>, j: int, k: int)
    requires
        0 <= j <= k,
    ensures
        segments_len(segments, j) <= segments_len(segments, k),
    decreases k - j,
{
    if j < k {
        lemma_segments_len_monotonic(segments, j, k - 1);
    }
}

/// The tokens of a text cut into `segments` (whose total length in bytes
/// fits in `usize`): each segment is placed after the previous ones.
pub fn tokens_from_segments(segments: Vec<String>) -> (r: CharabiaTokenStream)
    requires
        segments_len(texts(segments@), segments@.len() as int) <= usize::MAX,
    ensures
        r.wf(),
        r.spec_index() == 0,
        r.spec_tokens().len() == segments@.len(),
        forall|i: int|
            0 <= i < segments@.len() ==> token_view(#[trigger] r.spec_tokens()[i]) == segment_token(
                texts(segments@),
                i,
            ),
{
    let ghost segs = texts(segments@);
    let mut tokens: Vec<Token> = Vec::new();
    let mut position: usize = 0;
    let mut k: usize = 0;
    while k < segments.len()
        invariant
            segs == texts(segments@),
            segments_len(segs, segments@.len() as int) <= usize::MAX,
            k <= segments@.len(),
            tokens@.len() == k,
            position == segments_len(segs, k as int),
            forall|i: int|
                0 <= i < k ==> token_view(#[trigger] tokens@[i]) == segment_token(segs, i),
        decreases segments@.len() - k,
    {
        let s = segments[k].as_str();
        let len = s.as_bytes().len();
        proof {
            lemma_segments_len_monotonic(segs, k + 1, segments@.len() as int);
            assert(segs[k as int] == s@);
        }
        tokens.push(
            Token {
                offset_from: position,
                offset_to: position + len,
                position: position,
                text: segments[k].clone(),
                position_length: len,
            },
        );
        position = position + len;
        k = k + 1;
    }
    CharabiaTokenStream::from_tokens(tokens)
}

/// The tokenizer that gives the segments of a text as they are.
#[derive(Clone, Copy, Debug)]
pub struct CharabiaSegmentTokenizer;

impl CharabiaSegmentTokenizer {
    /// The tokens of `text`, from charabia's segments placed one after the
    /// other.
    pub fn token_stream(&self, text: &str) -> (r: CharabiaTokenStream)
        ensures
            r.wf(),
            r.spec_index() == 0,
            r.spec_tokens().len() == charabia_segments(text@).len(),
            forall|i: int|
                0 <= i < charabia_segments(text@).len() ==> token_view(#[trigger] r.spec_tokens()[i])
                    == segment_token(charabia_segments(text@), i),
    {
        let segments = charabia_segment(text);
        let total = text.as_bytes().len();
        assert(total == byte_len(text@));
        tokens_from_segments(segments)
    }
}

} // verus!
