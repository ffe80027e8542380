use kayak_render_macros::canonical::serialize;
use kayak_render_macros::parser::parse;
use kayak_render_macros::widget::{Attribute, AttributeValue, ChildItem, WidgetNode};

fn reparsed(markup: &[u8]) {
    let items = parse(markup).unwrap();
    let written = serialize(&items);
    assert_eq!(parse(&written).unwrap(), items, "{}", String::from_utf8_lossy(&written));
    assert_eq!(serialize(&parse(&written).unwrap()), written);
}

#[test]
fn canonical_form_is_written_without_white_space() {
    let items = parse(b"  <a  x = {1}  y >\n  <b />\t{ e }  </a >  ");
    assert!(items.is_err());
    let items = parse(b"  <a  x={ 1 }  y >\n  <b />\t{ e }  </a >  ").unwrap();
    assert_eq!(serialize(&items), b"<a x={ 1 } y={y}><b/>{ e }</a>".to_vec());
}

#[test]
fn canonical_form_writes_the_key_last() {
    let items = parse(b"<row key={id} a={1}/>").unwrap();
    assert_eq!(serialize(&items), b"<row a={1} key={id}/>".to_vec());
}

#[test]
fn canonical_form_writes_merged_spreads_as_attributes() {
    let items = parse(b"<x {...{a:1,b:2}} {...{b:3}} a={9} {...rest} />").unwrap();
    assert_eq!(serialize(&items), b"<x {...rest} a={9} b={3}/>".to_vec());
}

#[test]
fn canonical_form_writes_control_forms() {
    let items = parse(b"{if  a > b  { <x/> } }{for i in 0..n {{ i }}}").unwrap();
    assert_eq!(serialize(&items), b"{if a > b {<x/>}}{for i in 0..n {{ i }}}".to_vec());
}

#[test]
fn canonical_form_of_nothing_is_empty() {
    assert_eq!(serialize(&vec![]), Vec::<u8>::new());
    assert_eq!(serialize(&parse(b" <> </> ").unwrap()), Vec::<u8>::new());
}

#[test]
fn serializer_writes_a_tree_built_by_hand() {
    let tree = vec![ChildItem::LiteralWidget(WidgetNode {
        tag: b"Button".to_vec(),
        attributes: vec![
            Attribute { name: vec![], value: AttributeValue::Spread(b"props".to_vec()) },
            Attribute {
                name: b"on_click".to_vec(),
                value: AttributeValue::Handler(b"|e| go(e)".to_vec()),
            },
        ],
        children: vec![ChildItem::Conditional(
            b"shown".to_vec(),
            Box::new(ChildItem::Expression(b"label".to_vec())),
        )],
        key: Some(b"1".to_vec()),
    })];
    let written = serialize(&tree);
    assert_eq!(
        written,
        b"<Button {...props} on_click={|e| go(e)} key={1}>{if shown {{label}}}</Button>".to_vec()
    );
    assert_eq!(parse(&written).unwrap(), tree);
}

#[test]
fn parsed_markup_is_reparsed_from_its_canonical_form() {
    reparsed(b"");
    reparsed(b"<a/>");
    reparsed(b"<a></a>");
    reparsed(b" <> <a/> <B x={1}> {e} </B> </> ");
    reparsed(b"<a x y={ {1} } {...{p: q, r: |s| t}} {... rest } key={ k }><b/></a>");
    reparsed(b"<a>{if x {{if y {<b c/>}}}}{for i in is {{for j in js {{i + j}}}}}</a>");
    reparsed(b"<a>{ if x }{if}{for}{forx y}{ifx y}{}</a>");
    reparsed(b"<a on={move |e| { f(e) }} m={move} n={ movex } o={|| 1}/>");
    reparsed(b"<_a1 _b2={\"text\"}><C3></C3><d4 key={a}{...{key: 1}}/></_a1>");
}
