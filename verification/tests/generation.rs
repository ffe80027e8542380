use kayak_render_macros::codegen::{generate, Mode, PropsEntry, Statement};
use kayak_render_macros::component::{ComponentProps, PropField};
use kayak_render_macros::context::{
    execute, GuardValue, Host, RenderContext, SourceValue, SpliceValue, Widget,
};
use kayak_render_macros::error::{Error, GenerationError, GenerationErrorKind, SyntaxErrorKind};
use kayak_render_macros::parser::parse;
use kayak_render_macros::tags::TagKind;
use kayak_render_macros::widget::{Attribute, AttributeValue};
use kayak_render_macros::expand;
use kayak_render_macros::registry::extend_by;

fn props(name: &str, fields: &[&str]) -> ComponentProps {
    ComponentProps {
        name: name.as_bytes().to_vec(),
        fields: fields
            .iter()
            .map(|f| PropField { name: f.as_bytes().to_vec(), ty: b"u32".to_vec(), required: true })
            .collect(),
        focusable: false,
    }
}

fn construct(tag: &str, attributes: Vec<Attribute>) -> Statement {
    let kind = if tag.as_bytes()[0].is_ascii_uppercase() {
        TagKind::Component
    } else {
        TagKind::Primitive
    };
    Statement::Construct { tag: tag.as_bytes().to_vec(), kind, attributes, key: None, children: None }
}

fn built(tag: &str, attributes: Vec<Attribute>, children: Vec<Statement>) -> Statement {
    match construct(tag, attributes) {
        Statement::Construct { tag, kind, attributes, key, .. } => {
            Statement::Construct { tag, kind, attributes, key, children: Some(children) }
        }
        other => other,
    }
}

fn literal(name: &str, value: &str) -> Attribute {
    Attribute {
        name: name.as_bytes().to_vec(),
        value: AttributeValue::Literal(value.as_bytes().to_vec()),
    }
}

fn rsx(markup: &[u8], registry: &Vec<ComponentProps>) -> Result<Vec<Statement>, Error> {
    expand(markup, registry, Mode::Nested, b"")
}

fn constructor(markup: &[u8], registry: &Vec<ComponentProps>) -> Result<Vec<Statement>, Error> {
    expand(markup, registry, Mode::Construction, b"")
}

fn count_constructs(program: &[Statement]) -> usize {
    program
        .iter()
        .map(|st| match st {
            Statement::Construct { children: Some(body), .. } => count_constructs(body) + 1,
            Statement::Construct { children: None, .. } => 1,
            Statement::If { body, .. } => count_constructs(body),
            Statement::For { body, .. } => count_constructs(body),
            _ => 0,
        })
        .sum()
}

fn construct_tags(program: &[Statement], out: &mut Vec<String>) {
    for st in program {
        match st {
            Statement::Construct { tag, children, .. } => {
                if let Some(body) = children {
                    construct_tags(body, out);
                }
                out.push(String::from_utf8(tag.clone()).unwrap())
            }
            Statement::If { body, .. } => construct_tags(body, out),
            Statement::For { body, .. } => construct_tags(body, out),
            _ => {}
        }
    }
}

fn tags_of(ctx: &RenderContext, ids: &[usize]) -> Vec<String> {
    ids.iter().map(|&i| String::from_utf8(ctx.widgets[i].tag.clone()).unwrap()).collect()
}

#[test]
fn nested_program_builds_children_before_parents() {
    let program = rsx(b"<a><b/><c/></a>", &vec![]).unwrap();
    let expected = vec![
        Statement::OpenChildren,
        Statement::OpenChildren,
        construct("b", vec![]),
        Statement::Register,
        Statement::OpenChildren,
        construct("c", vec![]),
        Statement::Register,
        construct("a", vec![]),
        Statement::Register,
    ];
    assert_eq!(program, expected);
}

#[test]
fn full_program_initializes_and_commits_once() {
    let program = expand(b"<a/><b/>", &vec![], Mode::Full, b"kayak_core").unwrap();
    let expected = vec![
        Statement::InitContext { core: b"kayak_core".to_vec() },
        Statement::OpenChildren,
        construct("a", vec![]),
        Statement::Register,
        Statement::OpenChildren,
        construct("b", vec![]),
        Statement::Register,
        Statement::Commit,
    ];
    assert_eq!(program, expected);
}

#[test]
fn construction_only_program_holds_the_tree() {
    let program = constructor(b"<a><b/>{extra}{if x {<c/>}}{for i in is {<d><e/></d>}}</a>", &vec![])
        .unwrap();
    let expected = vec![built(
        "a",
        vec![],
        vec![
            built("b", vec![], vec![]),
            Statement::Child { expr: b"extra".to_vec() },
            Statement::If { guard: b"x".to_vec(), body: vec![built("c", vec![], vec![])] },
            Statement::For {
                source: b"i in is".to_vec(),
                body: vec![built("d", vec![], vec![built("e", vec![], vec![])])],
            },
        ],
    )];
    assert_eq!(program, expected);
}

#[test]
fn construction_only_component_holds_its_children_too() {
    let registry = vec![props("Panel", &["title"])];
    let program = constructor(b"<Panel title={t}><row/></Panel>", &registry).unwrap();
    let expected = vec![
        Statement::Props {
            tag: b"Panel".to_vec(),
            fields: vec![PropsEntry {
                name: b"title".to_vec(),
                value: Some(AttributeValue::Literal(b"t".to_vec())),
            }],
        },
        built("Panel", vec![], vec![built("row", vec![], vec![])]),
    ];
    assert_eq!(program, expected);
}

#[test]
fn primitive_carries_its_attributes() {
    let registry = vec![props("text", &["size", "content"])];
    let program = rsx(b"<text content={c} size={16}/>", &registry).unwrap();
    let expected = vec![
        Statement::OpenChildren,
        construct("text", vec![literal("content", "c"), literal("size", "16")]),
        Statement::Register,
    ];
    assert_eq!(program, expected);
}

#[test]
fn component_gets_a_properties_literal() {
    let registry = vec![props("Button", &["label", "on_click", "disabled"])];
    let program = rsx(b"<Button on_click={|e| go(e)} label={\"ok\"}/>", &registry).unwrap();
    let expected = vec![
        Statement::OpenChildren,
        Statement::Props {
            tag: b"Button".to_vec(),
            fields: vec![
                PropsEntry {
                    name: b"label".to_vec(),
                    value: Some(AttributeValue::Literal(b"\"ok\"".to_vec())),
                },
                PropsEntry {
                    name: b"on_click".to_vec(),
                    value: Some(AttributeValue::Handler(b"|e| go(e)".to_vec())),
                },
                PropsEntry { name: b"disabled".to_vec(), value: None },
            ],
        },
        construct("Button", vec![]),
        Statement::Register,
    ];
    assert_eq!(program, expected);
}

#[test]
fn key_is_handed_to_the_construction() {
    let program = constructor(b"<row key={id}/>", &vec![]).unwrap();
    let expected = vec![Statement::Construct {
        tag: b"row".to_vec(),
        kind: TagKind::Primitive,
        attributes: vec![],
        key: Some(b"id".to_vec()),
        children: Some(vec![]),
    }];
    assert_eq!(program, expected);
}

#[test]
fn control_children_become_branches_and_loops() {
    let program = rsx(b"<a>{if g {<b/>}}{for x in xs {<c/>}}{more}</a>", &vec![]).unwrap();
    let expected = vec![
        Statement::OpenChildren,
        Statement::If {
            guard: b"g".to_vec(),
            body: vec![Statement::OpenChildren, construct("b", vec![]), Statement::Register],
        },
        Statement::For {
            source: b"x in xs".to_vec(),
            body: vec![Statement::OpenChildren, construct("c", vec![]), Statement::Register],
        },
        Statement::Splice { expr: b"more".to_vec() },
        construct("a", vec![]),
        Statement::Register,
    ];
    assert_eq!(program, expected);
}

#[test]
fn one_construction_per_node_in_post_order() {
    let markup = b"<a><b><c/></b>{skipped}<D>{if g {<e><f/></e>}}</D>{for x in xs {<g/>}}</a><h/>";
    for mode in [Mode::Full, Mode::Nested, Mode::Construction] {
        let program = expand(markup, &vec![], mode, b"crate").unwrap();
        assert_eq!(count_constructs(&program), 8);
        let mut tags = Vec::new();
        construct_tags(&program, &mut tags);
        assert_eq!(tags, vec!["c", "b", "f", "e", "D", "g", "a", "h"]);
    }
}

#[test]
fn unresolved_attribute_fails_generation() {
    let registry = vec![props("text", &["size"])];
    let expected = GenerationError {
        kind: GenerationErrorKind::UnresolvedAttribute,
        subject: b"text".to_vec(),
        name: b"colour".to_vec(),
    };
    assert_eq!(
        rsx(b"<text size={1} colour={2}/>", &registry),
        Err(Error::Generation(expected.clone()))
    );
    let items = parse(b"<a><text colour={2}/></a>").unwrap();
    assert_eq!(generate(&registry, &items, Mode::Construction, b""), Err(expected));
}

#[test]
fn attribute_of_unknown_tag_fails_generation() {
    let expected = GenerationError {
        kind: GenerationErrorKind::UnresolvedAttribute,
        subject: b"Unknown".to_vec(),
        name: b"a".to_vec(),
    };
    assert_eq!(rsx(b"<Unknown a={1}/>", &vec![]), Err(Error::Generation(expected)));
}

#[test]
fn spread_that_is_no_record_fails_generation() {
    let registry = vec![props("text", &["size"])];
    let expected = GenerationError {
        kind: GenerationErrorKind::NonRecordSpread,
        subject: b"text".to_vec(),
        name: vec![],
    };
    assert_eq!(rsx(b"<text size={1} {...props}/>", &registry), Err(Error::Generation(expected)));
}

#[test]
fn parent_problem_is_reported_before_a_child_problem() {
    let registry = vec![props("a", &["x"]), props("b", &["y"])];
    let expected = GenerationError {
        kind: GenerationErrorKind::UnresolvedAttribute,
        subject: b"a".to_vec(),
        name: b"z".to_vec(),
    };
    assert_eq!(rsx(b"<a z={1}><b w={2}/></a>", &registry), Err(Error::Generation(expected)));
}

#[test]
fn syntax_error_comes_before_generation() {
    match rsx(b"<text colour={2}>", &vec![]) {
        Err(Error::Syntax(e)) => assert_eq!(e.kind, SyntaxErrorKind::UnmatchedTag),
        other => panic!("unexpected result: {:?}", other),
    }
}

#[test]
fn false_conditional_registers_no_child() {
    let program = expand(b"<><A/>{if shown {<B/>}}<C/></>", &vec![], Mode::Full, b"crate").unwrap();
    let host = Host {
        guards: vec![GuardValue { expr: b"shown".to_vec(), holds: false }],
        sources: vec![],
        splices: vec![],
    };
    let mut ctx = RenderContext::new(None);
    execute(&program, &host, &mut ctx);
    let roots = ctx.committed.clone().unwrap();
    assert_eq!(roots.len(), 2);
    assert_eq!(tags_of(&ctx, &roots), vec!["A", "C"]);
    assert_eq!(ctx.widgets.len(), 2);
}

#[test]
fn true_conditional_registers_its_child_in_place() {
    let program = expand(b"<><A/>{if shown {<B/>}}<C/></>", &vec![], Mode::Full, b"crate").unwrap();
    let host = Host {
        guards: vec![GuardValue { expr: b"shown".to_vec(), holds: true }],
        sources: vec![],
        splices: vec![],
    };
    let mut ctx = RenderContext::new(None);
    execute(&program, &host, &mut ctx);
    let roots = ctx.committed.clone().unwrap();
    assert_eq!(tags_of(&ctx, &roots), vec!["A", "B", "C"]);
}

#[test]
fn iteration_registers_one_child_per_element() {
    let program =
        expand(b"<list>{for n in [1,2,3] {<item/>}}</list>", &vec![], Mode::Full, b"crate").unwrap();
    let host = Host {
        guards: vec![],
        sources: vec![SourceValue { expr: b"n in [1,2,3]".to_vec(), count: 3 }],
        splices: vec![],
    };
    let mut ctx = RenderContext::new(None);
    execute(&program, &host, &mut ctx);
    let roots = ctx.committed.clone().unwrap();
    assert_eq!(roots, vec![3]);
    let list = &ctx.widgets[3];
    assert_eq!(list.tag, b"list".to_vec());
    assert_eq!(list.children, vec![0, 1, 2]);
    assert_eq!(tags_of(&ctx, &list.children), vec!["item", "item", "item"]);
}

#[test]
fn expression_child_splices_its_widgets() {
    let program = rsx(b"<a><b/>{others}<c/></a>", &vec![]).unwrap();
    let host = Host {
        guards: vec![],
        sources: vec![],
        splices: vec![SpliceValue { expr: b"others".to_vec(), widgets: vec![7, 9] }],
    };
    let mut ctx = RenderContext::new(Some(4));
    execute(&program, &host, &mut ctx);
    assert_eq!(ctx.parent, Some(4));
    assert_eq!(ctx.committed, None);
    assert_eq!(ctx.pending, vec![vec![2]]);
    assert_eq!(
        ctx.widgets[2],
        Widget { tag: b"a".to_vec(), kind: TagKind::Primitive, children: vec![0, 7, 9, 1] }
    );
}

#[test]
fn construction_only_program_yields_the_tree_and_leaves_the_context() {
    let program = constructor(b"<a><b/>{others}{for i in is {<c><d/></c>}}</a>", &vec![]).unwrap();
    let host = Host {
        guards: vec![],
        sources: vec![SourceValue { expr: b"i in is".to_vec(), count: 2 }],
        splices: vec![SpliceValue { expr: b"others".to_vec(), widgets: vec![70, 90] }],
    };
    let mut ctx = RenderContext::new(Some(4));
    ctx.register(&vec![11]);
    execute(&program, &host, &mut ctx);
    // The context is as it was, but for the widgets that now exist.
    assert_eq!(ctx.parent, Some(4));
    assert_eq!(ctx.pending, vec![vec![11]]);
    assert_eq!(ctx.committed, None);
    // b, d, c, d, c, a: each parent after its children, and holding them.
    assert_eq!(tags_of(&ctx, &[0, 1, 2, 3, 4, 5]), vec!["b", "d", "c", "d", "c", "a"]);
    assert_eq!(ctx.last, Some(5));
    assert_eq!(ctx.widgets[5].children, vec![0, 70, 90, 2, 4]);
    assert_eq!(ctx.widgets[2].children, vec![1]);
    assert_eq!(ctx.widgets[4].children, vec![3]);
    assert_eq!(ctx.widgets[0].children, Vec::<usize>::new());
}

#[test]
fn construction_only_program_does_nothing_with_an_expression_at_the_top() {
    let program = constructor(b"{others}<a/>", &vec![]).unwrap();
    assert_eq!(program, vec![Statement::Child { expr: b"others".to_vec() }, built("a", vec![], vec![])]);
    let host = Host {
        guards: vec![],
        sources: vec![],
        splices: vec![SpliceValue { expr: b"others".to_vec(), widgets: vec![7] }],
    };
    let mut ctx = RenderContext::new(None);
    execute(&program, &host, &mut ctx);
    assert_eq!(ctx.pending, vec![Vec::<usize>::new()]);
    assert_eq!(ctx.widgets.len(), 1);
}

#[test]
fn both_ways_of_building_give_each_parent_the_same_children() {
    let markup = b"<a><b><c/></b>{if g {<d/>}}<e/></a>";
    let host = Host {
        guards: vec![GuardValue { expr: b"g".to_vec(), holds: true }],
        sources: vec![],
        splices: vec![],
    };
    let mut registering = RenderContext::new(None);
    execute(&rsx(markup, &vec![]).unwrap(), &host, &mut registering);
    let mut constructing = RenderContext::new(None);
    execute(&constructor(markup, &vec![]).unwrap(), &host, &mut constructing);
    assert_eq!(registering.widgets, constructing.widgets);
    assert_eq!(registering.pending, vec![vec![4]]);
    assert_eq!(constructing.pending, vec![Vec::<usize>::new()]);
}

#[test]
fn host_without_entries_knows_nothing() {
    let host = Host::new();
    assert!(!host.guard(b"anything"));
    assert_eq!(host.count(b"anything"), 0);
}

fn field(name: &str) -> PropField {
    PropField { name: name.as_bytes().to_vec(), ty: vec![], required: false }
}

#[test]
fn undeclared_widgets_are_assumed_to_have_what_the_markup_gives_them() {
    let declared = vec![props("text", &["size"])];
    let items = parse(
        b"<Panel title={t} {...rest}><text size={1}/><row a={1}/><Panel wide key={k}/><row b={2} a={3}/></Panel>",
    )
    .unwrap();
    let assumed = extend_by(&declared, &items);
    let expected = vec![
        declared[0].clone(),
        ComponentProps {
            name: b"Panel".to_vec(),
            fields: vec![field("title"), field("wide")],
            focusable: false,
        },
        ComponentProps { name: b"row".to_vec(), fields: vec![field("a"), field("b")], focusable: false },
    ];
    assert_eq!(assumed, expected);
    assert_eq!(extend_by(&declared, &vec![]), declared);
}

#[test]
fn what_is_declared_is_not_assumed_away() {
    let declared = vec![props("text", &["size"])];
    let markup = b"<a x={1}><text colour={2}/></a>";
    let items = parse(markup).unwrap();
    let assumed = extend_by(&declared, &items);
    assert_eq!(assumed[0], declared[0]);
    let expected = GenerationError {
        kind: GenerationErrorKind::UnresolvedAttribute,
        subject: b"text".to_vec(),
        name: b"colour".to_vec(),
    };
    assert_eq!(rsx(markup, &assumed), Err(Error::Generation(expected)));
    assert!(rsx(b"<a x={1}><text size={2}/><b y/></a>", &extend_by(&declared, &parse(b"<a x={1}><text size={2}/><b y/></a>").unwrap())).is_ok());
}
