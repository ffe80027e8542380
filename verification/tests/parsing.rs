use kayak_render_macros::attribute::{bind, read_record, RawAttribute};
use kayak_render_macros::error::{Span, SyntaxError, SyntaxErrorKind};
use kayak_render_macros::parser::parse;
use kayak_render_macros::tags::{classify, decode_first, kind_for, TagKind};
use kayak_render_macros::widget::{Attribute, AttributeValue, ChildItem, WidgetNode};

fn literal(name: &str, value: &str) -> Attribute {
    Attribute {
        name: name.as_bytes().to_vec(),
        value: AttributeValue::Literal(value.as_bytes().to_vec()),
    }
}

fn node(tag: &str, attributes: Vec<Attribute>, children: Vec<ChildItem>) -> ChildItem {
    ChildItem::LiteralWidget(WidgetNode {
        tag: tag.as_bytes().to_vec(),
        attributes,
        children,
        key: None,
    })
}

fn error(kind: SyntaxErrorKind, start: usize, end: usize) -> SyntaxError {
    SyntaxError { kind, span: Span { start, end } }
}

#[test]
fn upper_case_tags_are_components() {
    assert_eq!(classify(b"Button"), TagKind::Component);
    assert_eq!(classify(b"Z"), TagKind::Component);
}

#[test]
fn other_tags_are_primitives() {
    assert_eq!(classify(b"div"), TagKind::Primitive);
    assert_eq!(classify(b"_Button"), TagKind::Primitive);
    assert_eq!(classify(b"button2"), TagKind::Primitive);
    assert_eq!(classify(b""), TagKind::Primitive);
}

#[test]
fn classification_ignores_definitions() {
    // Nothing is defined under either name; the parse still succeeds.
    let items = parse(b"<Undefined/><undefined/>").unwrap();
    assert_eq!(items, vec![node("Undefined", vec![], vec![]), node("undefined", vec![], vec![])]);
}

#[test]
fn self_closing_tag_has_no_children() {
    assert_eq!(parse(b"<a/>").unwrap(), vec![node("a", vec![], vec![])]);
    assert_eq!(parse(b"<a />").unwrap(), parse(b"<a></a>").unwrap());
    assert_eq!(parse(b"<a></a>").unwrap(), parse(b"<a>  \n </a >").unwrap());
}

#[test]
fn nested_elements_keep_their_order() {
    let items = parse(b"<a><b/><c><d/></c><e/></a>").unwrap();
    let expected = vec![node(
        "a",
        vec![],
        vec![
            node("b", vec![], vec![]),
            node("c", vec![], vec![node("d", vec![], vec![])]),
            node("e", vec![], vec![]),
        ],
    )];
    assert_eq!(items, expected);
}

#[test]
fn fragments_are_spliced_in_place() {
    let items = parse(b"<p><a/><><b/><><c/></><d/></><e/></p>").unwrap();
    let expected = vec![node(
        "p",
        vec![],
        vec![
            node("a", vec![], vec![]),
            node("b", vec![], vec![]),
            node("c", vec![], vec![]),
            node("d", vec![], vec![]),
            node("e", vec![], vec![]),
        ],
    )];
    assert_eq!(items, expected);
}

#[test]
fn root_fragment_yields_its_children() {
    let items = parse(b"<> <a/> <b/> </>").unwrap();
    assert_eq!(items, vec![node("a", vec![], vec![]), node("b", vec![], vec![])]);
    assert_eq!(parse(b"<></>").unwrap(), vec![]);
    assert_eq!(parse(b"").unwrap(), vec![]);
}

#[test]
fn expression_child_is_kept_verbatim() {
    let items = parse(b"<a>{ items.iter().map(|i| { f(i) }) }</a>").unwrap();
    let expected = vec![node(
        "a",
        vec![],
        vec![ChildItem::Expression(b" items.iter().map(|i| { f(i) }) ".to_vec())],
    )];
    assert_eq!(items, expected);
    assert_eq!(parse(b"{}").unwrap(), vec![ChildItem::Expression(vec![])]);
}

#[test]
fn conditional_child_is_kept_as_such() {
    let items = parse(b"<a>{if show && ready { <b/> }}</a>").unwrap();
    let expected = vec![node(
        "a",
        vec![],
        vec![ChildItem::Conditional(
            b"show && ready".to_vec(),
            Box::new(node("b", vec![], vec![])),
        )],
    )];
    assert_eq!(items, expected);
}

#[test]
fn iteration_child_is_kept_as_such() {
    let items = parse(b"{for item in items {{item.view()}}}").unwrap();
    let expected = vec![ChildItem::Iteration(
        b"item in items".to_vec(),
        Box::new(ChildItem::Expression(b"item.view()".to_vec())),
    )];
    assert_eq!(items, expected);
}

#[test]
fn control_forms_nest() {
    let items = parse(b"{for x in xs {{if x.shown {<row/>}}}}").unwrap();
    let expected = vec![ChildItem::Iteration(
        b"x in xs".to_vec(),
        Box::new(ChildItem::Conditional(
            b"x.shown".to_vec(),
            Box::new(node("row", vec![], vec![])),
        )),
    )];
    assert_eq!(items, expected);
}

#[test]
fn malformed_control_forms_are_rejected() {
    assert_eq!(parse(b"{if }"), Err(error(SyntaxErrorKind::MalformedControl, 0, 4)));
    assert_eq!(parse(b"{if x}"), Err(error(SyntaxErrorKind::MalformedControl, 0, 5)));
    assert_eq!(parse(b"{if  {<a/>}}"), Err(error(SyntaxErrorKind::MalformedControl, 0, 5)));
    assert_eq!(parse(b"{for x in xs {<a/>}"), Err(error(SyntaxErrorKind::MalformedControl, 19, 19)));
    assert_eq!(parse(b"{if x {<a/> <b/>}}"), Err(error(SyntaxErrorKind::MalformedControl, 12, 13)));
    assert_eq!(parse(b"{if x {<><a/></>}}"), Err(error(SyntaxErrorKind::Malformed, 8, 9)));
}

#[test]
fn unmatched_tags_are_rejected() {
    assert_eq!(parse(b"<a></b>"), Err(error(SyntaxErrorKind::UnmatchedTag, 5, 6)));
    assert_eq!(parse(b"<abc>"), Err(error(SyntaxErrorKind::UnmatchedTag, 1, 4)));
    assert_eq!(parse(b"<a><b></a>"), Err(error(SyntaxErrorKind::UnmatchedTag, 8, 9)));
    assert_eq!(parse(b"<><a/>"), Err(error(SyntaxErrorKind::UnmatchedTag, 0, 2)));
    assert_eq!(parse(b"<a/></a>"), Err(error(SyntaxErrorKind::UnmatchedTag, 4, 6)));
    assert_eq!(parse(b"<a></>"), Err(error(SyntaxErrorKind::UnmatchedTag, 5, 5)));
}

#[test]
fn malformed_markup_is_rejected() {
    assert_eq!(parse(b"text"), Err(error(SyntaxErrorKind::Malformed, 0, 1)));
    assert_eq!(parse(b"<a>text</a>"), Err(error(SyntaxErrorKind::Malformed, 3, 4)));
    assert_eq!(parse(b"< a/>"), Err(error(SyntaxErrorKind::Malformed, 1, 2)));
    assert_eq!(parse(b"<"), Err(error(SyntaxErrorKind::Malformed, 1, 1)));
    assert_eq!(parse(b"<a b=1/>"), Err(error(SyntaxErrorKind::Malformed, 5, 6)));
    assert_eq!(parse(b"<a b={1/>"), Err(error(SyntaxErrorKind::Malformed, 5, 9)));
    assert_eq!(parse(b"<a {b}/>"), Err(error(SyntaxErrorKind::Malformed, 3, 4)));
    assert_eq!(parse(b"<a>{ x </a>"), Err(error(SyntaxErrorKind::Malformed, 3, 11)));
    assert_eq!(parse(b"<a></a x>"), Err(error(SyntaxErrorKind::Malformed, 7, 8)));
}

#[test]
fn named_attributes_bind_in_order() {
    let items = parse(b"<text size={16.0} content={format!(\"{}\", n)} bold />").unwrap();
    let expected = vec![node(
        "text",
        vec![
            literal("size", "16.0"),
            literal("content", "format!(\"{}\", n)"),
            literal("bold", "bold"),
        ],
        vec![],
    )];
    assert_eq!(items, expected);
}

#[test]
fn handlers_are_tagged() {
    let items = parse(b"<b on_click={|e| go(e)} on_key={ move |k| k } label={name}/>").unwrap();
    let expected = vec![node(
        "b",
        vec![
            Attribute {
                name: b"on_click".to_vec(),
                value: AttributeValue::Handler(b"|e| go(e)".to_vec()),
            },
            Attribute {
                name: b"on_key".to_vec(),
                value: AttributeValue::Handler(b" move |k| k ".to_vec()),
            },
            literal("label", "name"),
        ],
        vec![],
    )];
    assert_eq!(items, expected);
}

#[test]
fn key_attribute_becomes_the_key() {
    let items = parse(b"<row a={1} key={item.id} b={2}/>").unwrap();
    let expected = vec![ChildItem::LiteralWidget(WidgetNode {
        tag: b"row".to_vec(),
        attributes: vec![literal("a", "1"), literal("b", "2")],
        children: vec![],
        key: Some(b"item.id".to_vec()),
    })];
    assert_eq!(items, expected);
}

#[test]
fn spreads_merge_before_named_attributes() {
    let items = parse(b"<x {...{a:1,b:2}} {...{b:3}} a={9} />").unwrap();
    assert_eq!(items, vec![node("x", vec![literal("a", "9"), literal("b", "3")], vec![])]);
}

#[test]
fn named_attribute_wins_wherever_it_stands() {
    let items = parse(b"<x a={9} {...{a:1,b:2}} c={4} {...{b:3, d: |e| e}} />").unwrap();
    let expected = vec![node(
        "x",
        vec![
            literal("a", "9"),
            literal("b", "3"),
            Attribute { name: b"d".to_vec(), value: AttributeValue::Handler(b"|e| e".to_vec()) },
            literal("c", "4"),
        ],
        vec![],
    )];
    assert_eq!(items, expected);
}

#[test]
fn duplicate_named_attribute_is_rejected() {
    assert_eq!(
        parse(b"<x a={1} a={2} />"),
        Err(error(SyntaxErrorKind::DuplicateAttribute, 9, 14))
    );
    assert_eq!(parse(b"<x a a />"), Err(error(SyntaxErrorKind::DuplicateAttribute, 5, 6)));
}

#[test]
fn spread_that_is_no_record_is_kept_first() {
    let items = parse(b"<x a={1} {...props} />").unwrap();
    let expected = vec![node(
        "x",
        vec![
            Attribute { name: vec![], value: AttributeValue::Spread(b"props".to_vec()) },
            literal("a", "1"),
        ],
        vec![],
    )];
    assert_eq!(items, expected);
}

#[test]
fn second_spread_that_is_no_record_is_rejected() {
    assert_eq!(
        parse(b"<x {...a} {...{k:1}} {...b} />"),
        Err(error(SyntaxErrorKind::MultipleSpreads, 21, 27))
    );
}

#[test]
fn binder_reports_the_leftmost_conflict() {
    let span = |start, end| Span { start, end };
    let raw = vec![
        RawAttribute::Spread { source: b"a".to_vec(), span: span(0, 1) },
        RawAttribute::Named { name: b"x".to_vec(), value: b"1".to_vec(), span: span(2, 3) },
        RawAttribute::Named { name: b"x".to_vec(), value: b"2".to_vec(), span: span(4, 5) },
        RawAttribute::Spread { source: b"b".to_vec(), span: span(6, 7) },
    ];
    assert_eq!(bind(&raw), Err(error(SyntaxErrorKind::DuplicateAttribute, 4, 5)));
}

#[test]
fn binder_merges_as_the_markup_does() {
    let span = Span { start: 0, end: 0 };
    let raw = vec![
        RawAttribute::Spread { source: b"{a:1,b:2}".to_vec(), span },
        RawAttribute::Spread { source: b"{b:3}".to_vec(), span },
        RawAttribute::Named { name: b"a".to_vec(), value: b"9".to_vec(), span },
    ];
    assert_eq!(bind(&raw), Ok(vec![literal("a", "9"), literal("b", "3")]));
    assert_eq!(bind(&vec![]), Ok(vec![]));
}

#[test]
fn records_are_read_field_by_field() {
    assert_eq!(read_record(b"{}"), Some(vec![]));
    assert_eq!(read_record(b" { } "), Some(vec![]));
    assert_eq!(
        read_record(b"{ a: f(1, 2), b : [x, y] , }"),
        Some(vec![literal("a", "f(1, 2)"), literal("b", "[x, y]")])
    );
    assert_eq!(read_record(b"{a:1,a:2}"), Some(vec![literal("a", "1"), literal("a", "2")]));
    assert_eq!(read_record(b"props"), None);
    assert_eq!(read_record(b"{a}"), None);
    assert_eq!(read_record(b"{a:}"), None);
    assert_eq!(read_record(b"{a:1,,}"), None);
    assert_eq!(read_record(b"{a:1} + b"), None);
    assert_eq!(read_record(b"{1:a}"), None);
    assert_eq!(read_record(b"{a: (}, b: {1)}"), None);
    assert_eq!(read_record(b"{a: {x}, b: {}}"), Some(vec![literal("a", "{x}"), literal("b", "{}")]));
}

#[test]
fn tags_beyond_ascii_are_classified_by_their_first_letter() {
    assert_eq!(classify("Ärger".as_bytes()), TagKind::Component);
    assert_eq!(classify("ärger".as_bytes()), TagKind::Primitive);
    assert_eq!(classify("Ωmega".as_bytes()), TagKind::Component);
    assert_eq!(classify("ωmega".as_bytes()), TagKind::Primitive);
    assert_eq!(classify("Д".as_bytes()), TagKind::Component);
    assert_eq!(classify("日本".as_bytes()), TagKind::Primitive);
    assert_eq!(classify("𝐀".as_bytes()), TagKind::Component);
    assert_eq!(classify("éA".as_bytes()), TagKind::Primitive);
}

#[test]
fn bytes_that_encode_no_character_lead_a_primitive() {
    assert_eq!(classify(b"\xff"), TagKind::Primitive);
    assert_eq!(classify(b"\xc3"), TagKind::Primitive);
    assert_eq!(classify(b"\xc0\x80"), TagKind::Primitive);
    assert_eq!(classify(b"\xed\xa0\x80"), TagKind::Primitive);
    assert_eq!(classify(b"\x80A"), TagKind::Primitive);
}

#[test]
fn first_character_is_decoded() {
    assert_eq!(decode_first(b""), None);
    assert_eq!(decode_first(b"A"), Some(0x41));
    assert_eq!(decode_first("Ä".as_bytes()), Some(0xc4));
    assert_eq!(decode_first("€x".as_bytes()), Some(0x20ac));
    assert_eq!(decode_first("😀".as_bytes()), Some(0x1f600));
    assert_eq!(decode_first(b"\xdf\xbf"), Some(0x7ff));
    assert_eq!(decode_first(b"\xe0\xa0\x80"), Some(0x800));
    assert_eq!(decode_first(b"\xf0\x90\x80\x80"), Some(0x10000));
    assert_eq!(decode_first(b"\xed\xa0\x80"), Some(0xd800));
    assert_eq!(decode_first(b"\xc0\x80"), None);
    assert_eq!(decode_first(b"\xc1\xbf"), None);
    assert_eq!(decode_first(b"\xe0\x80\x80"), None);
    assert_eq!(decode_first(b"\xf0\x80\x80\x80"), None);
    assert_eq!(decode_first(b"\xf5\x80\x80\x80"), None);
    assert_eq!(decode_first(b"\xc3"), None);
    assert_eq!(decode_first(b"\xc3A"), None);
    assert_eq!(decode_first(b"\x80"), None);
}

#[test]
fn kind_follows_the_first_letter() {
    assert_eq!(kind_for(true), TagKind::Component);
    assert_eq!(kind_for(false), TagKind::Primitive);
}

#[test]
fn names_beyond_ascii_are_identifiers() {
    let items = parse("<Ärger größe={1} süß><été/></Ärger>".as_bytes()).unwrap();
    let expected = vec![node(
        "Ärger",
        vec![literal("größe", "1"), literal("süß", "süß")],
        vec![node("été", vec![], vec![])],
    )];
    assert_eq!(items, expected);
}
