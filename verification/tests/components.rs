use kayak_render_macros::component::{
    Component, ComponentProps, Constructor, FunctionDefinition, Parameter, PropField,
};
use kayak_render_macros::core_crate::{core_crate_name, get_core_crate, path_of, CrateLookup};
use kayak_render_macros::equality::{DynamicEquality, TraitDefinition};
use kayak_render_macros::error::{GenerationError, GenerationErrorKind};
use kayak_render_macros::hooks::{Binding, Hooks, StateBinding};
use kayak_render_macros::codegen::Mode;
use kayak_render_macros::widget_props::{tagged_field, TaggedField, WidgetProperties};
use kayak_render_macros::{derive_widget_props, dyn_partial_eq, expand, use_effect, use_state, widget};
use kayak_render_macros::codegen::Statement;
use kayak_render_macros::context::{commit, RenderContext};

fn parameter(pattern: &str, ty: &str) -> Parameter {
    Parameter { pattern: pattern.as_bytes().to_vec(), ty: ty.as_bytes().to_vec() }
}

fn counter() -> FunctionDefinition {
    FunctionDefinition {
        name: b"Counter".to_vec(),
        parameters: vec![
            parameter("start", "u32"),
            parameter("children", "Children"),
            parameter("label", "Option<String>"),
        ],
        body: b"{ body() }".to_vec(),
    }
}

#[test]
fn parameters_become_fields() {
    let component = widget(b"", &counter()).unwrap();
    let expected = Component {
        props: ComponentProps {
            name: b"Counter".to_vec(),
            fields: vec![
                PropField { name: b"start".to_vec(), ty: b"u32".to_vec(), required: true },
                PropField { name: b"children".to_vec(), ty: b"Children".to_vec(), required: true },
                PropField {
                    name: b"label".to_vec(),
                    ty: b"Option<String>".to_vec(),
                    required: false,
                },
            ],
            focusable: false,
        },
        constructor: Constructor {
            name: b"Counter".to_vec(),
            bindings: vec![b"start".to_vec(), b"children".to_vec(), b"label".to_vec()],
            takes_children: true,
            body: b"{ body() }".to_vec(),
        },
    };
    assert_eq!(component, expected);
}

#[test]
fn every_parameter_gets_a_field() {
    let f = FunctionDefinition {
        name: b"W".to_vec(),
        parameters: vec![parameter("children", "C")],
        body: vec![],
    };
    let component = widget(b"", &f).unwrap();
    assert_eq!(
        component.props.fields,
        vec![PropField { name: b"children".to_vec(), ty: b"C".to_vec(), required: true }]
    );
    assert_eq!(component.constructor.bindings, vec![b"children".to_vec()]);
    assert!(component.constructor.takes_children);
    let many = FunctionDefinition {
        name: b"W".to_vec(),
        parameters: vec![parameter("a", "A"), parameter("b", "Option<B>"), parameter("c", "C")],
        body: vec![],
    };
    let fields = widget(b"", &many).unwrap().props.fields;
    let names: Vec<&[u8]> = fields.iter().map(|f| &f.name[..]).collect();
    assert_eq!(names, vec![&b"a"[..], b"b", b"c"]);
    let required: Vec<bool> = fields.iter().map(|f| f.required).collect();
    assert_eq!(required, vec![true, false, true]);
}

#[test]
fn focusable_is_read_from_the_flags() {
    assert!(widget(b"focusable", &counter()).unwrap().props.focusable);
    assert!(widget(b" focusable ", &counter()).unwrap().props.focusable);
    assert!(widget(b"a, focusable", &counter()).unwrap().props.focusable);
    assert!(widget(b"focusable,b", &counter()).unwrap().props.focusable);
    assert!(widget(b"a,\tfocusable\n, b", &counter()).unwrap().props.focusable);
}

#[test]
fn other_flags_do_not_make_a_component_focusable() {
    assert!(!widget(b"", &counter()).unwrap().props.focusable);
    assert!(!widget(b"focus", &counter()).unwrap().props.focusable);
    assert!(!widget(b"unfocusable", &counter()).unwrap().props.focusable);
    assert!(!widget(b"focusable2", &counter()).unwrap().props.focusable);
    assert!(!widget(b"focusable = false", &counter()).unwrap().props.focusable);
    assert!(!widget(b"a focusable", &counter()).unwrap().props.focusable);
    assert!(!widget(b"a, b", &counter()).unwrap().props.focusable);
}

#[test]
fn function_without_parameters_has_no_fields() {
    let f = FunctionDefinition { name: b"Empty".to_vec(), parameters: vec![], body: vec![] };
    let component = widget(b"", &f).unwrap();
    assert_eq!(component.props.fields, vec![]);
    assert!(!component.constructor.takes_children);
}

#[test]
fn unmatched_parameter_is_rejected() {
    let error = |name: &str| GenerationError {
        kind: GenerationErrorKind::UnmatchedParameter,
        subject: b"F".to_vec(),
        name: name.as_bytes().to_vec(),
    };
    let with = |parameters| FunctionDefinition { name: b"F".to_vec(), parameters, body: vec![] };
    assert_eq!(
        widget(b"", &with(vec![parameter("a", "u8"), parameter("(x, y)", "P")])),
        Err(error("(x, y)"))
    );
    assert_eq!(widget(b"", &with(vec![parameter("a", "")])), Err(error("a")));
    assert_eq!(
        widget(b"", &with(vec![parameter("a", "u8"), parameter("b", "u8"), parameter("a", "u8")])),
        Err(error("a"))
    );
    assert_eq!(
        widget(b"", &with(vec![parameter("1a", "u8"), parameter("(", "u8")])),
        Err(error("1a"))
    );
}

#[test]
fn transformed_component_resolves_attributes() {
    let component = widget(b"", &counter()).unwrap();
    let registry = vec![component.props];
    let program = expand(b"<Counter start={1}/>", &registry, Mode::Nested, b"").unwrap();
    assert_eq!(program.len(), 4);
    match &program[1] {
        Statement::Props { fields, .. } => {
            assert_eq!(fields.len(), 3);
            assert!(fields[0].value.is_some());
            assert!(fields[1].value.is_none());
            assert!(fields[2].value.is_none());
        }
        other => panic!("unexpected statement: {:?}", other),
    }
    assert!(expand(b"<Counter children={1}/>", &registry, Mode::Nested, b"").is_ok());
    assert!(expand(b"<Counter other={1}/>", &registry, Mode::Nested, b"").is_err());
}

#[test]
fn core_path_follows_the_lookup() {
    assert_eq!(path_of(&CrateLookup::Itself), b"crate".to_vec());
    assert_eq!(path_of(&CrateLookup::Name(b"renamed_core".to_vec())), b"renamed_core".to_vec());
    assert_eq!(path_of(&CrateLookup::Missing), b"kayak_ui::core".to_vec());
}

#[test]
fn core_crate_is_searched_under_its_name() {
    assert_eq!(core_crate_name(), "kayak_core");
}

#[test]
fn core_path_of_this_crate_is_a_path() {
    let path = get_core_crate();
    assert!(!path.is_empty());
    assert!(!path.contains(&b'-'));
}

#[test]
fn dynamic_equality_adds_its_bound_last() {
    let item = TraitDefinition {
        name: b"Shape".to_vec(),
        supertraits: vec![b"Debug".to_vec(), b"Send".to_vec()],
    };
    let expected = DynamicEquality {
        supertraits: vec![b"Debug".to_vec(), b"Send".to_vec(), b"DynPartialEq".to_vec()],
        boxed: b"Shape".to_vec(),
    };
    assert_eq!(dyn_partial_eq(&item), expected);
    let bare = TraitDefinition { name: b"T".to_vec(), supertraits: vec![] };
    assert_eq!(dyn_partial_eq(&bare).supertraits, vec![b"DynPartialEq".to_vec()]);
}

#[test]
fn setter_changes_value_and_version() {
    let mut hooks: Hooks<i32> = Hooks::new();
    let (value, set, binding) = use_state(&mut hooks, 0);
    assert_eq!(value, 0);
    assert_eq!(hooks.version(binding), 0);
    assert!(!hooks.stale);
    set.call(&mut hooks, 5);
    assert!(hooks.stale);
    assert_eq!(hooks.get(binding), 5);
    assert_eq!(hooks.version(binding), 1);
    assert_eq!(hooks.states, vec![StateBinding { value: 5, version: 1 }]);
}

#[test]
fn state_survives_a_new_pass() {
    let mut hooks: Hooks<i32> = Hooks::new();
    let (_, set_a, a) = use_state(&mut hooks, 1);
    let (_, _, b) = use_state(&mut hooks, 2);
    assert_eq!((a, b), (Binding { slot: 0 }, Binding { slot: 1 }));
    set_a.call(&mut hooks, 10);
    hooks.begin_pass();
    assert!(!hooks.stale);
    let (first, _, a_again) = use_state(&mut hooks, 1);
    let (second, _, _) = use_state(&mut hooks, 2);
    assert_eq!(a_again, a);
    assert_eq!((first, second), (10, 2));
    assert_eq!(hooks.states.len(), 2);
}

#[test]
fn effect_runs_on_the_next_commit_only() {
    let mut hooks: Hooks<i32> = Hooks::new();
    let (_, set, binding) = use_state(&mut hooks, 0);
    use_effect(&mut hooks, 7, &vec![binding]);
    assert_eq!(hooks.commit(), Vec::<u64>::new());
    set.call(&mut hooks, 5);
    // Nothing ran with the setter: the effect waits for the commit.
    assert_eq!(hooks.seen, vec![vec![0]]);
    assert_eq!(hooks.commit(), vec![7]);
    assert_eq!(hooks.commit(), Vec::<u64>::new());
    set.call(&mut hooks, 6);
    set.call(&mut hooks, 7);
    assert_eq!(hooks.commit(), vec![7]);
    assert_eq!(hooks.commit(), Vec::<u64>::new());
}

#[test]
fn effects_run_in_registration_order() {
    let mut hooks: Hooks<i32> = Hooks::new();
    let (_, set_a, a) = use_state(&mut hooks, 0);
    let (_, set_b, b) = use_state(&mut hooks, 0);
    use_effect(&mut hooks, 30, &vec![b]);
    use_effect(&mut hooks, 10, &vec![a, b]);
    use_effect(&mut hooks, 20, &vec![a]);
    use_effect(&mut hooks, 40, &vec![]);
    set_a.call(&mut hooks, 1);
    assert_eq!(hooks.commit(), vec![10, 20]);
    set_b.call(&mut hooks, 1);
    set_a.call(&mut hooks, 2);
    assert_eq!(hooks.commit(), vec![30, 10, 20]);
}

#[test]
fn effect_reads_the_current_value_through_its_handle() {
    let mut hooks: Hooks<i32> = Hooks::new();
    let (_, set, binding) = use_state(&mut hooks, 0);
    let deps = vec![binding];
    use_effect(&mut hooks, 1, &deps);
    set.call(&mut hooks, 42);
    assert_eq!(hooks.effects[0].deps, deps);
    assert_eq!(hooks.get(hooks.effects[0].deps[0]), 42);
}

#[test]
fn effect_of_a_slot_stays_on_a_new_pass() {
    let mut hooks: Hooks<i32> = Hooks::new();
    let (_, set, binding) = use_state(&mut hooks, 0);
    use_effect(&mut hooks, 1, &vec![binding]);
    set.call(&mut hooks, 3);
    hooks.begin_pass();
    let (_, _, again) = use_state(&mut hooks, 0);
    use_effect(&mut hooks, 1, &vec![again]);
    assert_eq!(hooks.effects.len(), 1);
    assert_eq!(hooks.commit(), vec![1]);
}

#[test]
fn commit_seals_the_tree_and_schedules_effects() {
    let mut hooks: Hooks<i32> = Hooks::new();
    let (_, set, binding) = use_state(&mut hooks, 0);
    use_effect(&mut hooks, 3, &vec![binding]);
    let mut ctx = RenderContext::new(None);
    let root = ctx.construct(b"root", kayak_render_macros::tags::TagKind::Primitive);
    ctx.register(&vec![root]);
    set.call(&mut hooks, 1);
    assert_eq!(commit(&mut ctx, &mut hooks), vec![3]);
    assert_eq!(ctx.committed, Some(vec![root]));
    assert_eq!(commit(&mut ctx, &mut hooks), Vec::<u64>::new());
}

fn tagged(member: &str, tags: &[&str]) -> TaggedField {
    TaggedField {
        member: member.as_bytes().to_vec(),
        tags: tags.iter().map(|t| t.as_bytes().to_vec()).collect(),
    }
}

#[test]
fn first_field_with_a_tag_is_found() {
    let fields = vec![
        tagged("a", &[]),
        tagged("b", &["Styles"]),
        tagged("c", &["Other", "Children"]),
        tagged("d", &["Children", "Styles"]),
    ];
    assert_eq!(tagged_field(&fields, b"Children"), Some(2));
    assert_eq!(tagged_field(&fields, b"Styles"), Some(1));
    assert_eq!(tagged_field(&fields, b"Other"), Some(2));
    assert_eq!(tagged_field(&fields, b"OnEvent"), None);
    assert_eq!(tagged_field(&fields, b""), None);
    assert_eq!(tagged_field(&vec![], b"Children"), None);
}

#[test]
fn each_property_is_served_by_its_tagged_field() {
    let fields = vec![
        tagged("styles", &["Styles"]),
        tagged("title", &[]),
        tagged("kids", &["Children"]),
        tagged("more", &["Children"]),
        tagged("focus", &["Focusable"]),
    ];
    let expected = WidgetProperties {
        children: Some(2),
        styles: Some(0),
        on_event: None,
        focusable: Some(4),
    };
    assert_eq!(derive_widget_props(&fields), expected);
    let none = WidgetProperties { children: None, styles: None, on_event: None, focusable: None };
    assert_eq!(derive_widget_props(&vec![tagged("a", &["children"])]), none);
}
