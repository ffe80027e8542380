use kayak_render_macros::parser::parse;
use kayak_render_macros::text::{escape, unescape};
use kayak_render_macros::tokens::{markup, to_text, Delimiter, Token, Written};
use kayak_render_macros::widget::{Attribute, AttributeValue, ChildItem, WidgetNode};

fn ident(word: &str) -> Token {
    Token::Ident(word.as_bytes().to_vec())
}

fn literal(text: &str) -> Token {
    Token::Literal(text.as_bytes().to_vec())
}

fn joint(ch: u8) -> Token {
    Token::Punct { ch, joint: true }
}

fn alone(ch: u8) -> Token {
    Token::Punct { ch, joint: false }
}

fn group(delimiter: Delimiter, tokens: Vec<Token>) -> Token {
    Token::Group { delimiter, tokens }
}

fn text(tokens: &Vec<Token>) -> String {
    String::from_utf8(to_text(tokens).text).unwrap()
}

#[test]
fn words_are_kept_apart() {
    assert_eq!(text(&vec![ident("a"), ident("b"), literal("1"), literal("2"), ident("c")]), "a b 1 2 c");
    assert_eq!(text(&vec![ident("a"), alone(b'+'), ident("b")]), "a+b");
    assert_eq!(text(&vec![]), "");
}

#[test]
fn punctuation_is_kept_apart_unless_joint() {
    assert_eq!(text(&vec![ident("a"), alone(b'-'), alone(b'-'), ident("b")]), "a- -b");
    assert_eq!(text(&vec![ident("a"), joint(b'='), alone(b'='), ident("b")]), "a==b");
    assert_eq!(text(&vec![joint(b'<'), alone(b'/'), ident("a"), alone(b'>')]), "</a>");
}

#[test]
fn groups_are_written_with_their_delimiters() {
    let tokens = vec![
        ident("f"),
        group(Delimiter::Parenthesis, vec![ident("x"), alone(b','), literal("\"{}\"")]),
        group(Delimiter::Bracket, vec![literal("0")]),
        group(Delimiter::Invisible, vec![ident("y")]),
        group(Delimiter::Brace, vec![]),
    ];
    assert_eq!(text(&tokens), "f(x,\"{}\")[0]y{}");
}

#[test]
fn keyword_of_a_control_form_is_followed_by_a_space() {
    let inner = group(Delimiter::Brace, vec![alone(b'<'), ident("b"), joint(b'/'), alone(b'>')]);
    let form = |keyword: &str, head: Vec<Token>| {
        let mut tokens = vec![ident(keyword)];
        tokens.extend(head);
        tokens.push(group(Delimiter::Brace, vec![]));
        vec![group(Delimiter::Brace, tokens)]
    };
    assert_eq!(text(&form("if", vec![group(Delimiter::Parenthesis, vec![ident("x")])])), "{if (x){}}");
    assert_eq!(text(&form("for", vec![alone(b'&'), ident("x")])), "{for &x{}}");
    assert_eq!(text(&form("iff", vec![alone(b'&'), ident("x")])), "{iff&x{}}");
    // Not at the start of a group in braces, the word is an ordinary one.
    assert_eq!(text(&vec![ident("if"), group(Delimiter::Parenthesis, vec![])]), "if()");
    assert_eq!(
        text(&vec![group(Delimiter::Brace, vec![ident("a"), ident("if"), inner])]),
        "{a if{<b/>}}"
    );
}

#[test]
fn written_markup_parses() {
    let markup_tokens = vec![
        joint(b'<'),
        joint(b'>'),
        alone(b'<'),
        ident("Button"),
        ident("label"),
        alone(b'='),
        group(Delimiter::Brace, vec![literal("\"{ok}\"")]),
        joint(b'/'),
        alone(b'>'),
        group(
            Delimiter::Brace,
            vec![
                ident("if"),
                ident("shown"),
                group(Delimiter::Brace, vec![group(Delimiter::Brace, vec![ident("rest")])]),
            ],
        ),
        joint(b'<'),
        joint(b'/'),
        alone(b'>'),
    ];
    let written = to_text(&markup_tokens);
    assert_eq!(written.text, b"<><Button label={\"{ok}\"}/>{if shown{{rest}}}</>".to_vec());
    let expected = vec![
        ChildItem::LiteralWidget(WidgetNode {
            tag: b"Button".to_vec(),
            attributes: vec![Attribute {
                name: b"label".to_vec(),
                value: AttributeValue::Literal(b"\"{ok}\"".to_vec()),
            }],
            children: vec![],
            key: None,
        }),
        ChildItem::Conditional(
            b"shown".to_vec(),
            Box::new(ChildItem::Expression(b"rest".to_vec())),
        ),
    ];
    assert_eq!(parse(&written.text), Ok(expected));
}

#[test]
fn braces_within_words_and_literals_are_escaped_in_markup() {
    let tokens = vec![
        ident("a"),
        group(Delimiter::Bracket, vec![literal("\"{\""), literal("'}'"), literal("\"\x1b{}\"")]),
        group(Delimiter::Brace, vec![literal("\"}{\"")]),
    ];
    assert_eq!(to_text(&tokens).text, b"a[\"{\" '}' \"\x1b{}\"]{\"}{\"}".to_vec());
    let written = markup(&tokens);
    assert_eq!(
        written.text,
        b"a[\"\x1bo\" '\x1bc' \"\x1be\x1bo\x1bc\"]{\"\x1bc\x1bo\"}".to_vec()
    );
    assert_eq!(unescape(&written.text), to_text(&tokens).text);
    assert_eq!(written.starts, vec![0, 1, 2, 7, 12, 21, 22]);
}

#[test]
fn markup_without_braces_in_literals_is_the_text_of_the_tokens() {
    let tokens = vec![ident("a"), literal("\"b\""), group(Delimiter::Brace, vec![ident("c")])];
    assert_eq!(markup(&tokens), to_text(&tokens));
    assert_eq!(markup(&vec![]), Written { text: vec![], starts: vec![] });
}

#[test]
fn escaping_is_read_back() {
    assert_eq!(escape(b"a{b}c"), b"a\x1bob\x1bcc".to_vec());
    assert_eq!(escape(b""), Vec::<u8>::new());
    assert_eq!(escape(b"\x1b\x1b"), b"\x1be\x1be".to_vec());
    for text in [&b"{{"[..], b"}", b"a\x1bo", b"\x1b", b"x\x1be{\x1b", b"plain"] {
        assert_eq!(unescape(&escape(text)), text.to_vec());
    }
    assert_eq!(unescape(b"\x1bx\x1b"), b"x\x1b".to_vec());
}

#[test]
fn starts_are_recorded_in_the_order_written() {
    let tokens = vec![
        ident("a"),
        ident("b"),
        group(Delimiter::Brace, vec![ident("if"), ident("c"), group(Delimiter::Bracket, vec![])]),
        alone(b';'),
    ];
    let written = to_text(&tokens);
    assert_eq!(written.text, b"a b{if c[]};".to_vec());
    assert_eq!(written.starts, vec![0, 2, 3, 4, 7, 8, 11]);
    assert_eq!(written.token_at(0), Some(0));
    assert_eq!(written.token_at(1), Some(0));
    assert_eq!(written.token_at(2), Some(1));
    assert_eq!(written.token_at(5), Some(3));
    assert_eq!(written.token_at(9), Some(5));
    assert_eq!(written.token_at(10), Some(5));
    assert_eq!(written.token_at(100), Some(6));
    let nothing = Written { text: vec![], starts: vec![] };
    assert_eq!(nothing.token_at(0), None);
    let later = Written { text: b" a".to_vec(), starts: vec![1] };
    assert_eq!(later.token_at(0), None);
}
