use wikidata_index::charabia_tokenizer::{
    tokens_from_lexemes, tokens_from_segments, CharabiaSegmentTokenizer, CharabiaTokenStream, CharabiaTokenizer, Lexeme,
    Token,
};

fn token(text: &str, position: usize) -> Token {
    Token { offset_from: position, offset_to: position + text.len(), position, text: text.to_string(), position_length: text.len() }
}

#[test]
fn stream_gives_tokens_in_order_then_stops() {
    let mut s = CharabiaTokenStream::from_tokens(vec![token("a", 0), token("b", 1)]);
    assert!(s.advance());
    assert_eq!(s.token().text, "a");
    assert!(s.advance());
    assert_eq!(s.token().text, "b");
    assert!(!s.advance());
    assert_eq!(s.token().text, "b");
    assert!(s.next().is_none());
}

#[test]
fn token_can_be_changed_in_place() {
    let mut s = CharabiaTokenStream::from_tokens(vec![token("a", 0), token("b", 1)]);
    s.advance();
    s.token_mut().text = "A".to_string();
    assert_eq!(s.token().text, "A");
    let t = s.next().unwrap();
    assert_eq!(t.text, "b");
    assert!(s.next().is_none());
}

#[test]
fn empty_stream() {
    let mut s = CharabiaTokenStream::from_tokens(Vec::new());
    assert!(!s.advance());
    assert!(s.next().is_none());
    let mut t = CharabiaTokenizer.token_stream("");
    assert!(t.next().is_none());
}

#[test]
fn lexemes_become_numbered_tokens() {
    let mut s = tokens_from_lexemes(vec![
        Lexeme { byte_start: 0, byte_end: 3, lemma: "the".to_string() },
        Lexeme { byte_start: 3, byte_end: 4, lemma: " ".to_string() },
        Lexeme { byte_start: 4, byte_end: 9, lemma: "quick".to_string() },
    ]);
    let t = s.next().unwrap();
    assert_eq!((t.offset_from, t.offset_to, t.position, t.position_length), (0, 3, 0, 3));
    let t = s.next().unwrap();
    assert_eq!((t.offset_from, t.offset_to, t.position, t.position_length), (3, 4, 1, 1));
    let t = s.next().unwrap();
    assert_eq!((t.text.as_str(), t.position, t.position_length), ("quick", 2, 5));
    assert!(s.next().is_none());
}

#[test]
fn segments_are_placed_one_after_the_other() {
    let mut s = tokens_from_segments(vec!["Thé".to_string(), " ".to_string(), "vert".to_string()]);
    let t = s.next().unwrap();
    assert_eq!((t.offset_from, t.offset_to, t.position, t.position_length), (0, 4, 0, 4));
    let t = s.next().unwrap();
    assert_eq!((t.offset_from, t.offset_to, t.position, t.position_length), (4, 5, 4, 1));
    let t = s.next().unwrap();
    assert_eq!((t.offset_from, t.offset_to, t.position, t.position_length), (5, 9, 5, 4));
    assert_eq!(t.text, "vert");
}

#[test]
fn segment_tokens_cover_the_text() {
    let text = "Le Petit Prince est une œuvre de langue française.";
    let mut s = CharabiaSegmentTokenizer.token_stream(text);
    let mut end = 0;
    let mut joined = String::new();
    while let Some(t) = s.next() {
        assert_eq!(t.offset_from, end);
        assert_eq!(t.position, end);
        assert_eq!(t.offset_to, end + t.text.len());
        assert_eq!(t.position_length, t.text.len());
        end = t.offset_to;
        joined.push_str(&t.text);
    }
    assert_eq!(joined, text);
    assert_eq!(end, text.len());
}

#[test]
fn normalized_words_keep_their_byte_ranges() {
    let text = "Thé Vert";
    let mut s = CharabiaTokenizer.token_stream(text);
    let mut words = Vec::new();
    let mut position = 0;
    while let Some(t) = s.next() {
        assert_eq!(t.position, position);
        assert_eq!(t.position_length, t.offset_to - t.offset_from);
        assert!(t.offset_to <= text.len());
        words.push(t.text.clone());
        position += 1;
    }
    assert_eq!(words, vec!["the", " ", "vert"]);
}
