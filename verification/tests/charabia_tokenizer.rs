use wikidata_index::charabia_tokenizer::{CharabiaSegmentTokenizer, CharabiaTokenizer};

#[test]
fn it_works_fr_segment() {
    let tokenizer = CharabiaSegmentTokenizer {};
    let mut token_stream = tokenizer.token_stream(
        "Le Petit Prince est une œuvre de langue française, la plus connue d'Antoine de Saint-Exupéry.",
    );
    let mut tokens = Vec::new();
    let mut token_text = Vec::new();
    while let Some(token) = token_stream.next() {
        tokens.push(token.clone());
        token_text.push(token.text.clone());
        println!("{} ({},{}) {} {}", token.position, token.offset_from, token.offset_to, token.text, token.position_length);
    }
}

#[test]
fn it_works_fr() {
    let tokenizer = CharabiaTokenizer {};
    let mut token_stream = tokenizer.token_stream(
        "Le Petit Prince est une œuvre de langue française, la plus connue d'Antoine de Saint-Exupéry.",
    );
    let mut tokens = Vec::new();
    let mut token_text = Vec::new();
    while let Some(token) = token_stream.next() {
        tokens.push(token.clone());
        token_text.push(token.text.clone());
        println!("{} ({},{}) {} {}", token.position, token.offset_from, token.offset_to, token.text, token.position_length);
    }
    // check tokenized text
    assert_eq!(
        token_text,
        vec![
            "le", " ", "petit", " ", "prince", " ", "est", " ", "une", " ", "oeuvre", " ", "de", " ",
            "langue", " ", "francaise", ",", " ", "la", " ", "plus", " ", "connue", " ", "d'",
            "antoine", " ", "de", " ", "saint", "-", "exupery", ".",
        ]
    );
}

#[test]
fn it_works_zh() {
    let tokenizer = CharabiaTokenizer {};
    let mut token_stream = tokenizer.token_stream(
        "张华考上了北京大学；李萍进了中等技术学校；我在百货公司当售货员：我们都有光明的前途",
    );
    let mut tokens = Vec::new();
    let mut token_text = Vec::new();
    while let Some(token) = token_stream.next() {
        tokens.push(token.clone());
        token_text.push(token.text.clone());
    }
    // offset should be byte-indexed
    assert_eq!(tokens[0].offset_from, 0);
    assert_eq!(tokens[0].offset_to, "张华".bytes().len());
    assert_eq!(tokens[1].offset_from, "张华".bytes().len());
    // check tokenized text
    assert_eq!(
        token_text,
        vec![
            "张华", "考上", "了", "北京大学", "；", "李萍", "进", "了", "中等", "技术学校", "；", "我",
            "在", "百货公司", "当", "售货员", "：", "我们", "都", "有", "光明", "的", "前途"
        ]
    );
}
