use kayak_render_macros::codegen::{Mode, Statement};
use kayak_render_macros::component::{ComponentProps, PropField};
use kayak_render_macros::error::{Error, Span, SyntaxError, SyntaxErrorKind};
use kayak_render_macros::tags::TagKind;
use kayak_render_macros::tokens::{markup, to_text, Delimiter, Token};
use kayak_render_macros::widget::{Attribute, AttributeValue};
use kayak_render_macros::{assume_widgets, constructor, expand_tokens, render, rsx};
use proc_macro2::{Spacing, TokenStream, TokenTree};

fn convert(stream: TokenStream) -> Vec<Token> {
    stream
        .into_iter()
        .map(|token| match token {
            TokenTree::Ident(ident) => Token::Ident(ident.to_string().into_bytes()),
            TokenTree::Punct(punct) => Token::Punct {
                ch: punct.as_char() as u8,
                joint: punct.spacing() == Spacing::Joint,
            },
            TokenTree::Literal(literal) => Token::Literal(literal.to_string().into_bytes()),
            TokenTree::Group(group) => Token::Group {
                delimiter: match group.delimiter() {
                    proc_macro2::Delimiter::Parenthesis => Delimiter::Parenthesis,
                    proc_macro2::Delimiter::Brace => Delimiter::Brace,
                    proc_macro2::Delimiter::Bracket => Delimiter::Bracket,
                    proc_macro2::Delimiter::None => Delimiter::Invisible,
                },
                tokens: convert(group.stream()),
            },
        })
        .collect()
}

fn lex(markup: &str) -> Vec<Token> {
    convert(markup.parse::<TokenStream>().unwrap())
}

fn construct(tag: &str, attributes: Vec<Attribute>) -> Statement {
    Statement::Construct {
        tag: tag.as_bytes().to_vec(),
        kind: TagKind::Primitive,
        attributes,
        key: None,
        children: None,
    }
}

#[test]
fn lexed_markup_is_written_as_the_parser_reads_it() {
    let written = to_text(&lex(
        "<>\n  <Text size = { 16.0 } content={format!(\"Count: {}\", count)} />\n  {if a > b { <a /> }}\n</>",
    ));
    assert_eq!(
        String::from_utf8(written.text).unwrap(),
        "<> <Text size={16.0}content={format!(\"Count: {}\",count)}/>{if a>b{<a/>}}</>"
    );
}

#[test]
fn rsx_expands_lexed_markup() {
    let program = rsx(&lex("<a> <b/> { rest } </a>"), &vec![]).unwrap();
    let expected = vec![
        Statement::OpenChildren,
        Statement::OpenChildren,
        construct("b", vec![]),
        Statement::Register,
        Statement::Splice { expr: b"rest".to_vec() },
        construct("a", vec![]),
        Statement::Register,
    ];
    assert_eq!(program, expected);
}

#[test]
fn constructor_expands_lexed_markup() {
    let registry = vec![ComponentProps {
        name: b"text".to_vec(),
        fields: vec![PropField { name: b"size".to_vec(), ty: b"f32".to_vec(), required: true }],
        focusable: false,
    }];
    let program = constructor(&lex("<text size={ 1.0 + x } />"), &registry).unwrap();
    let expected = vec![Statement::Construct {
        tag: b"text".to_vec(),
        kind: TagKind::Primitive,
        attributes: vec![Attribute {
            name: b"size".to_vec(),
            value: AttributeValue::Literal(b"1.0+x".to_vec()),
        }],
        key: None,
        children: Some(vec![]),
    }];
    assert_eq!(program, expected);
}

#[test]
fn render_names_the_core_crate_first() {
    let program = render(&lex("<a/>"), &vec![]).unwrap();
    assert_eq!(program.len(), 5);
    match &program[0] {
        Statement::InitContext { core } => {
            assert!(!core.is_empty());
            assert!(!core.contains(&b'-'));
        }
        other => panic!("unexpected first statement: {:?}", other),
    }
    assert_eq!(program[4], Statement::Commit);
}

#[test]
fn render_commits_once_after_the_last_node() {
    let program = expand_tokens(&lex("<a/> <b/>"), &vec![], Mode::Full, b"kayak_core").unwrap();
    let commits = program.iter().filter(|st| **st == Statement::Commit).count();
    assert_eq!(commits, 1);
    assert_eq!(program.first(), Some(&Statement::InitContext { core: b"kayak_core".to_vec() }));
    assert_eq!(program.last(), Some(&Statement::Commit));
}

#[test]
fn errors_of_lexed_markup_point_into_the_written_text() {
    let tokens = lex("<a x={1}  x={2} />");
    assert_eq!(to_text(&tokens).text, b"<a x={1}x={2}/>".to_vec());
    let expected = SyntaxError {
        kind: SyntaxErrorKind::DuplicateAttribute,
        span: Span { start: 8, end: 13 },
    };
    assert_eq!(rsx(&tokens, &vec![]), Err(Error::Syntax(expected)));
    assert_eq!(to_text(&tokens).token_at(8), Some(6));
}

#[test]
fn literal_with_an_unmatched_brace_is_kept_as_written() {
    let registry = vec![ComponentProps {
        name: b"a".to_vec(),
        fields: vec![PropField { name: b"x".to_vec(), ty: b"&str".to_vec(), required: true }],
        focusable: false,
    }];
    let program = rsx(&lex("<a x={\"{\"} > { '}' } {if c == '{' { <b key={\"}}\"} /> }} </a>"), &registry)
        .unwrap();
    let expected = vec![
        Statement::OpenChildren,
        Statement::Splice { expr: b"'}'".to_vec() },
        Statement::If {
            guard: b"c=='{'".to_vec(),
            body: vec![
                Statement::OpenChildren,
                Statement::Construct {
                    tag: b"b".to_vec(),
                    kind: TagKind::Primitive,
                    attributes: vec![],
                    key: Some(b"\"}}\"".to_vec()),
                    children: None,
                },
                Statement::Register,
            ],
        },
        construct(
            "a",
            vec![Attribute {
                name: b"x".to_vec(),
                value: AttributeValue::Literal(b"\"{\"".to_vec()),
            }],
        ),
        Statement::Register,
    ];
    assert_eq!(program, expected);
}

#[test]
fn markup_of_lexed_tokens_always_balances() {
    let written = markup(&lex("<a x={\"{\"} />"));
    assert_eq!(written.text, b"<a x={\"\x1bo\"}/>".to_vec());
    assert!(kayak_render_macros::text::is_balanced(&written.text));
}

#[test]
fn macro_assumes_what_it_cannot_see() {
    let tokens = lex("<Text size={16.0} content={format!(\"Count: {}\", count)} />");
    assert!(rsx(&tokens, &vec![]).is_err());
    let registry = assume_widgets(&tokens, &vec![]);
    assert_eq!(registry.len(), 1);
    assert_eq!(registry[0].name, b"Text".to_vec());
    let program = rsx(&tokens, &registry).unwrap();
    match &program[1] {
        Statement::Props { fields, .. } => {
            assert_eq!(fields.len(), 2);
            assert_eq!(fields[1].value, Some(AttributeValue::Literal(b"format!(\"Count: {}\",count)".to_vec())));
        }
        other => panic!("unexpected statement: {:?}", other),
    }
    assert_eq!(assume_widgets(&lex("<a x={1}>"), &vec![]), vec![]);
}
