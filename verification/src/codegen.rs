//! Tree code generation: from the widget tree to the construction program.

use vstd::prelude::*;
use crate::attribute::{copy_attribute, copy_value, find_name};
use crate::component::{ComponentProps, PropField, PropFieldModel, PropsModel};
use crate::error::{GenerationError, GenerationErrorKind, GenerationErrorModel};
use crate::tags::{classify, tag_kind, TagKind};
use crate::text::{bytes_eq, copy_bytes, unescape, unescaped};
use crate::widget::{
    attributes_view, children_view, Attribute, AttributeModel, AttributeValue, ChildItem,
    ChildModel, NodeModel, ValueModel, WidgetNode,
};

verus! {

/// How much of the render context a program handles itself.
#[derive(Clone, Copy, Debug, PartialEq, Eq, Structural)]
pub enum Mode {
    /// The program initializes the context, builds and registers the tree,
    /// and commits it.
    Full,
    /// The program builds and registers the tree in a context that is
    /// already initialized.
    Nested,
    /// The program only constructs: each construction holds the statements
    /// that make its children, and nothing is opened, registered or
    /// committed in the context.
    Construction,
}

/// One field of a properties-structure literal: the value bound to it, or
/// `None` where the field is left to its standard value.
#[derive(Debug, PartialEq, Eq)]
pub struct PropsEntry {
    pub name: Vec<u8>,
    pub value: Option<AttributeValue>,
}

/// One statement of a construction program.
#[derive(Debug, PartialEq, Eq)]
pub enum Statement {
    /// Initializes the context: no parent, no children. `core` is the path
    /// under which the core crate is reached.
    InitContext { core: Vec<u8> },
    /// Opens the pending-children accumulator of the node under
    /// construction.
    OpenChildren,
    /// The properties-structure literal of a component.
    Props { tag: Vec<u8>, fields: Vec<PropsEntry> },
    /// Constructs a widget. A primitive carries its attributes; a component
    /// takes the properties structure stated just before. Without
    /// `children`, the widget takes the children accumulated for it in the
    /// context. With `children`, it takes the widgets that the statements
    /// held there construct and yield, and the accumulators of the context
    /// stay as they are.
    Construct {
        tag: Vec<u8>,
        kind: TagKind,
        attributes: Vec<Attribute>,
        key: Option<Vec<u8>>,
        children: Option<Vec<Statement>>,
    },
    /// Registers the widget just constructed among its parent's children.
    Register,
    /// Registers the widgets that a host expression yields among the
    /// children of the node under construction.
    Splice { expr: Vec<u8> },
    /// The widgets that a host expression yields, as children of the
    /// construction that holds the statement. Outside a construction the
    /// statement does nothing.
    Child { expr: Vec<u8> },
    /// Runs the body when the guard holds.
    If { guard: Vec<u8>, body: Vec<Statement> },
    /// Runs the body once for each element of the source.
    For { source: Vec<u8>, body: Vec<Statement> },
    /// Seals the tree into the context.
    Commit,
}

/// The model of a [`PropsEntry`].
pub struct PropsEntryModel {
    pub name: Seq<u8>,
    pub value: Option<ValueModel>,
}

/// The model of a [`Statement`].
pub enum StatementModel {
    InitContext { core: Seq<u8> },
    OpenChildren,
    Props { tag: Seq<u8>, fields: Seq<PropsEntryModel> },
    Construct {
        tag: Seq<u8>,
        kind: TagKind,
        attributes: Seq<AttributeModel>,
        key: Option<Seq<u8>>,
        children: Option<Seq<StatementModel>>,
    },
    Register,
    Splice { expr: Seq<u8> },
    Child { expr: Seq<u8> },
    If { guard: Seq<u8>, body: Seq<StatementModel> },
    For { source: Seq<u8>, body: Seq<StatementModel> },
    Commit,
}

impl View for PropsEntry {
    type V = PropsEntryModel;

    open spec fn view(&self) -> PropsEntryModel {
        PropsEntryModel {
            name: self.name@,
            value: match self.value {
                Some(v) => Some(v@),
                None => None,
            },
        }
    }
}

/// The models of the fields of a literal, in order.
pub open spec fn entries_view(s: Seq<PropsEntry>) -> Seq<PropsEntryModel> {
    Seq::new(s.len(), |i: int| s[i]@)
}

/// A key as a byte sequence.
pub open spec fn key_view(key: Option<Vec<u8>>) -> Option<Seq<u8>> {
    match key {
        Some(k) => Some(k@),
        None => None,
    }
}

/// The statements that a construction holds, by their models.
pub open spec fn held_view(children: Option<Vec<Statement>>) -> Option<Seq<StatementModel>>
    decreases children, 2int,
{
    match children {
        Some(body) => Some(statements_view(body@)),
        None => None,
    }
}

/// The model of a statement.
pub open spec fn statement_view(st: Statement) -> StatementModel
    decreases st, 0int,
{
    match st {
        Statement::InitContext { core } => StatementModel::InitContext { core: core@ },
        Statement::OpenChildren => StatementModel::OpenChildren,
        Statement::Props { tag, fields } => StatementModel::Props {
            tag: tag@,
            fields: entries_view(fields@),
        },
        Statement::Construct { tag, kind, attributes, key, children } => StatementModel::Construct {
            tag: tag@,
            kind,
            attributes: attributes_view(attributes@),
            key: key_view(key),
            children: held_view(children),
        },
        Statement::Register => StatementModel::Register,
        Statement::Splice { expr } => StatementModel::Splice { expr: expr@ },
        Statement::Child { expr } => StatementModel::Child { expr: expr@ },
        Statement::If { guard, body } => StatementModel::If {
            guard: guard@,
            body: statements_view(body@),
        },
        Statement::For { source, body } => StatementModel::For {
            source: source@,
            body: statements_view(body@),
        },
        Statement::Commit => StatementModel::Commit,
    }
}

/// The models of the statements of a program, in order.
pub open spec fn statements_view(s: Seq<Statement>) -> Seq<StatementModel>
    decreases s, 1int,
{
    Seq::new(
        s.len(),
        |i: int|
            if 0 <= i < s.len() {
                statement_view(s[i])
            } else {
                arbitrary()
            },
    )
}

impl View for Statement {
    type V = StatementModel;

    open spec fn view(&self) -> StatementModel {
        statement_view(*self)
    }
}

/// The models of the properties structures of a registry, in order.
pub open spec fn registry_view(s: Seq<ComponentProps>) -> Seq<PropsModel> {
    Seq::new(s.len(), |i: int| s[i]@)
}

/// The first index from `from` on at which the registry holds a properties
/// structure under that name, or its length.
pub open spec fn lookup(reg: Seq<PropsModel>, tag: Seq<u8>, from: int) -> int
    decreases reg.len() - from,
{
    if from < 0 || from >= reg.len() {
        reg.len() as int
    } else if reg[from].name == tag {
        from
    } else {
        lookup(reg, tag, from + 1)
    }
}

/// The first index from `from` on at which a field of that name stands, or
/// the number of fields.
pub open spec fn field_index(fields: Seq<PropFieldModel>, name: Seq<u8>, from: int) -> int
    decreases fields.len() - from,
{
    if from < 0 || from >= fields.len() {
        fields.len() as int
    } else if fields[from].name == name {
        from
    } else {
        field_index(fields, name, from + 1)
    }
}

/// The fields that the registry declares for a tag; none for a tag that it
/// does not hold.
pub open spec fn declared_fields(reg: Seq<PropsModel>, tag: Seq<u8>) -> Seq<PropFieldModel> {
    let i = lookup(reg, tag, 0);
    if i < reg.len() {
        reg[i].fields
    } else {
        Seq::empty()
    }
}

/// An attribute key resolves when the registry declares a field of that
/// name for the tag.
pub open spec fn resolves(reg: Seq<PropsModel>, tag: Seq<u8>, key: Seq<u8>) -> bool {
    field_index(declared_fields(reg, tag), key, 0) < declared_fields(reg, tag).len()
}

/// Why an attribute cannot be generated, if it cannot.
pub open spec fn attribute_problem(reg: Seq<PropsModel>, tag: Seq<u8>, a: AttributeModel) -> Option<
    GenerationErrorModel,
> {
    if a.value is Spread {
        Some(
            GenerationErrorModel {
                kind: GenerationErrorKind::NonRecordSpread,
                subject: tag,
                name: Seq::empty(),
            },
        )
    } else if !resolves(reg, tag, a.name) {
        Some(
            GenerationErrorModel {
                kind: GenerationErrorKind::UnresolvedAttribute,
                subject: tag,
                name: a.name,
            },
        )
    } else {
        None
    }
}

/// The problem of the leftmost of the first `n` attributes that has one.
pub open spec fn first_problem(
    reg: Seq<PropsModel>,
    tag: Seq<u8>,
    attrs: Seq<AttributeModel>,
    n: int,
) -> Option<GenerationErrorModel>
    decreases n,
{
    if n <= 0 {
        None
    } else {
        match first_problem(reg, tag, attrs, n - 1) {
            Some(e) => Some(e),
            None => attribute_problem(reg, tag, attrs[n - 1]),
        }
    }
}

/// The literal for the first `n` declared fields: each with the value of the
/// attribute of its name, or without a value where the node has none.
pub open spec fn props_entries(fields: Seq<PropFieldModel>, attrs: Seq<AttributeModel>, n: int) -> Seq<
    PropsEntryModel,
>
    decreases n,
{
    if n <= 0 {
        Seq::empty()
    } else {
        let name = fields[n - 1].name;
        let i = find_name(attrs, name, 0);
        props_entries(fields, attrs, n - 1).push(
            PropsEntryModel {
                name,
                value: if i < attrs.len() {
                    Some(attrs[i].value)
                } else {
                    None
                },
            },
        )
    }
}

/// The statement that constructs a node with the given children: a
/// primitive carries its attributes, a component takes them through its
/// properties structure.
pub open spec fn construct_with(n: NodeModel, children: Option<Seq<StatementModel>>) -> StatementModel {
    if tag_kind(n.tag) == TagKind::Component {
        StatementModel::Construct {
            tag: n.tag,
            kind: TagKind::Component,
            attributes: Seq::empty(),
            key: n.key,
            children,
        }
    } else {
        StatementModel::Construct {
            tag: n.tag,
            kind: TagKind::Primitive,
            attributes: n.attributes,
            key: n.key,
            children,
        }
    }
}

/// The statement that constructs a node with the children accumulated for
/// it.
pub open spec fn construct_statement(n: NodeModel) -> StatementModel {
    construct_with(n, None)
}

/// The construction of one node: for a primitive, the constructor call with
/// its attributes; for a component, the properties literal and then the call
/// of its constructor.
pub open spec fn construction(
    reg: Seq<PropsModel>,
    n: NodeModel,
    children: Option<Seq<StatementModel>>,
) -> Seq<StatementModel> {
    if tag_kind(n.tag) == TagKind::Component {
        let fields = declared_fields(reg, n.tag);
        seq![
            StatementModel::Props {
                tag: n.tag,
                fields: props_entries(fields, n.attributes, fields.len() as int),
            },
            construct_with(n, children),
        ]
    } else {
        seq![construct_with(n, children)]
    }
}

/// The program of one node. Its attributes are checked first. In a mode
/// that registers, the accumulator of the node is opened, its children are
/// built and registered, and then the node is constructed and registered.
/// In construction-only mode the program is the construction of the node
/// alone, which holds the programs of its children.
pub open spec fn emit_node(reg: Seq<PropsModel>, n: NodeModel, mode: Mode) -> Result<
    Seq<StatementModel>,
    GenerationErrorModel,
>
    decreases n, 0int,
{
    match first_problem(reg, n.tag, n.attributes, n.attributes.len() as int) {
        Some(e) => Err(e),
        None => match emit_children(reg, n.children, n.children.len() as int, mode) {
            Err(e) => Err(e),
            Ok(body) => if mode == Mode::Construction {
                Ok(construction(reg, n, Some(body)))
            } else {
                Ok(
                    seq![StatementModel::OpenChildren] + body + construction(reg, n, None) + seq![
                        StatementModel::Register,
                    ],
                )
            },
        },
    }
}

/// The statement of an expression child: held by the construction of its
/// parent in construction-only mode, registering in every other.
pub open spec fn expression_statement(expr: Seq<u8>, mode: Mode) -> StatementModel {
    if mode == Mode::Construction {
        StatementModel::Child { expr }
    } else {
        StatementModel::Splice { expr }
    }
}

/// The program of one child item.
pub open spec fn emit_child(reg: Seq<PropsModel>, c: ChildModel, mode: Mode) -> Result<
    Seq<StatementModel>,
    GenerationErrorModel,
>
    decreases c, 0int,
{
    match c {
        ChildModel::LiteralWidget(n) => emit_node(reg, n, mode),
        ChildModel::Expression(expr) => Ok(seq![expression_statement(expr, mode)]),
        ChildModel::Conditional(guard, inner) => match emit_child(reg, *inner, mode) {
            Err(e) => Err(e),
            Ok(body) => Ok(seq![StatementModel::If { guard, body }]),
        },
        ChildModel::Iteration(source, inner) => match emit_child(reg, *inner, mode) {
            Err(e) => Err(e),
            Ok(body) => Ok(seq![StatementModel::For { source, body }]),
        },
    }
}

/// The programs of the first `n` child items, one after the other.
pub open spec fn emit_children(reg: Seq<PropsModel>, cs: Seq<ChildModel>, n: int, mode: Mode) -> Result<
    Seq<StatementModel>,
    GenerationErrorModel,
>
    decreases cs, n,
{
    if n <= 0 || n > cs.len() {
        Ok(Seq::empty())
    } else {
        match emit_children(reg, cs, n - 1, mode) {
            Err(e) => Err(e),
            Ok(before) => match emit_child(reg, cs[n - 1], mode) {
                Err(e) => Err(e),
                Ok(last) => Ok(before + last),
            },
        }
    }
}

/// The whole program for the top-level items of a markup: in full mode the
/// context is initialized before the first statement and committed after
/// the last.
pub open spec fn emit_program(
    reg: Seq<PropsModel>,
    items: Seq<ChildModel>,
    mode: Mode,
    core: Seq<u8>,
) -> Result<Seq<StatementModel>, GenerationErrorModel> {
    match emit_children(reg, items, items.len() as int, mode) {
        Err(e) => Err(e),
        Ok(body) => if mode == Mode::Full {
            Ok(seq![StatementModel::InitContext { core }] + body + seq![StatementModel::Commit])
        } else {
            Ok(body)
        },
    }
}

/// Finds the properties structure that a registry holds under a name.
pub fn find_props(reg: &Vec<ComponentProps>, tag: &[u8]) -> (found: Option<usize>)
    ensures
        match found {
            Some(i) => i < reg.len() && lookup(registry_view(reg@), tag@, 0) == i,
            None => lookup(registry_view(reg@), tag@, 0) == reg.len(),
        },
{
    let mut i: usize = 0;
    while i < reg.len()
        invariant
            i <= reg.len(),
            lookup(registry_view(reg@), tag@, 0) == lookup(registry_view(reg@), tag@, i as int),
        decreases reg.len() - i,
    {
        if bytes_eq(reg[i].name.as_slice(), tag) {
            assert(registry_view(reg@)[i as int].name == tag@);
            return Some(i);
        }
        assert(registry_view(reg@)[i as int].name != tag@);
        i += 1;
    }
    None
}

/// Tests whether a field of that name is among the fields.
pub fn has_field(fields: &Vec<PropField>, name: &[u8]) -> (r: bool)
    ensures
        r == (field_index(crate::component::fields_view(fields@), name@, 0) < fields.len()),
{
    let ghost model = crate::component::fields_view(fields@);
    let mut i: usize = 0;
    while i < fields.len()
        invariant
            i <= fields.len(),
            model == crate::component::fields_view(fields@),
            field_index(model, name@, 0) == field_index(model, name@, i as int),
        decreases fields.len() - i,
    {
        if bytes_eq(fields[i].name.as_slice(), name) {
            assert(model[i as int].name == name@);
            return true;
        }
        assert(model[i as int].name != name@);
        i += 1;
    }
    false
}

fn copy_attributes(attrs: &Vec<Attribute>) -> (out: Vec<Attribute>)
    ensures
        attributes_view(out@) == attributes_view(attrs@),
{
    let mut out: Vec<Attribute> = Vec::new();
    let mut i: usize = 0;
    while i < attrs.len()
        invariant
            i <= attrs.len(),
            attributes_view(out@) == attributes_view(attrs@).subrange(0, i as int),
        decreases attrs.len() - i,
    {
        let ghost before = attributes_view(out@);
        let a = copy_attribute(&attrs[i]);
        let ghost model = a@;
        out.push(a);
        assert(attributes_view(out@) == before.push(model));
        assert(attributes_view(attrs@).subrange(0, i + 1) == attributes_view(attrs@).subrange(
            0,
            i as int,
        ).push(model));
        i += 1;
    }
    assert(attributes_view(attrs@).subrange(0, attrs.len() as int) == attributes_view(attrs@));
    out
}

fn copy_key(key: &Option<Vec<u8>>) -> (out: Option<Vec<u8>>)
    ensures
        key_view(out) == key_view(*key),
{
    match key {
        Some(k) => Some(copy_bytes(k.as_slice())),
        None => None,
    }
}

fn find_attribute(attrs: &Vec<Attribute>, name: &[u8]) -> (found: Option<usize>)
    ensures
        match found {
            Some(i) => i < attrs.len() && find_name(attributes_view(attrs@), name@, 0) == i,
            None => find_name(attributes_view(attrs@), name@, 0) == attrs.len(),
        },
{
    let ghost model = attributes_view(attrs@);
    let mut i: usize = 0;
    while i < attrs.len()
        invariant
            i <= attrs.len(),
            model == attributes_view(attrs@),
            find_name(model, name@, 0) == find_name(model, name@, i as int),
        decreases attrs.len() - i,
    {
        if bytes_eq(attrs[i].name.as_slice(), name) {
            assert(model[i as int].name == name@);
            return Some(i);
        }
        assert(model[i as int].name != name@);
        i += 1;
    }
    None
}

/// Checks the attributes of a node against the registry.
fn check_attributes(reg: &Vec<ComponentProps>, n: &WidgetNode) -> (problem: Option<GenerationError>)
    ensures
        match problem {
            Some(e) => first_problem(
                registry_view(reg@),
                n@.tag,
                n@.attributes,
                n@.attributes.len() as int,
            ) == Some(e@),
            None => first_problem(
                registry_view(reg@),
                n@.tag,
                n@.attributes,
                n@.attributes.len() as int,
            ) is None,
        },
{
    let ghost model = registry_view(reg@);
    let ghost attrs = n@.attributes;
    let declared = find_props(reg, n.tag.as_slice());
    let mut i: usize = 0;
    while i < n.attributes.len()
        invariant
            i <= n.attributes.len(),
            model == registry_view(reg@),
            attrs == n@.attributes,
            attrs == attributes_view(n.attributes@),
            match declared {
                Some(d) => d < reg.len() && lookup(model, n@.tag, 0) == d,
                None => lookup(model, n@.tag, 0) == reg.len(),
            },
            first_problem(model, n@.tag, attrs, i as int) is None,
        decreases n.attributes.len() - i,
    {
        let a = &n.attributes[i];
        assert(attrs[i as int] == a@);
        let spread = match &a.value {
            AttributeValue::Spread(_) => true,
            _ => false,
        };
        let resolved = match declared {
            Some(d) => {
                assert(model[d as int].fields == crate::component::fields_view(reg[d as int].fields@));
                has_field(&reg[d].fields, a.name.as_slice())
            },
            None => false,
        };
        if spread || !resolved {
            proof {
                lemma_problem_stays(model, n@.tag, attrs, i + 1, attrs.len() as int);
            }
            let kind = if spread {
                GenerationErrorKind::NonRecordSpread
            } else {
                GenerationErrorKind::UnresolvedAttribute
            };
            let name = if spread {
                Vec::new()
            } else {
                copy_bytes(a.name.as_slice())
            };
            return Some(GenerationError { kind, subject: copy_bytes(n.tag.as_slice()), name });
        }
        i += 1;
    }
    None
}

/// Once an attribute with a problem is found, it stays the first.
pub proof fn lemma_problem_stays(
    reg: Seq<PropsModel>,
    tag: Seq<u8>,
    attrs: Seq<AttributeModel>,
    n: int,
    m: int,
)
    requires
        0 <= n <= m,
        first_problem(reg, tag, attrs, n) is Some,
    ensures
        first_problem(reg, tag, attrs, m) == first_problem(reg, tag, attrs, n),
    decreases m - n,
{
    if n < m {
        lemma_problem_stays(reg, tag, attrs, n, m - 1);
    }
}

fn build_props(fields: &Vec<PropField>, attrs: &Vec<Attribute>) -> (out: Vec<PropsEntry>)
    ensures
        entries_view(out@) == props_entries(
            crate::component::fields_view(fields@),
            attributes_view(attrs@),
            fields.len() as int,
        ),
{
    let ghost model = crate::component::fields_view(fields@);
    let mut out: Vec<PropsEntry> = Vec::new();
    let mut i: usize = 0;
    while i < fields.len()
        invariant
            i <= fields.len(),
            model == crate::component::fields_view(fields@),
            entries_view(out@) == props_entries(model, attributes_view(attrs@), i as int),
        decreases fields.len() - i,
    {
        let ghost before = entries_view(out@);
        let value = match find_attribute(attrs, fields[i].name.as_slice()) {
            Some(k) => Some(copy_value(&attrs[k].value)),
            None => None,
        };
        let entry = PropsEntry { name: copy_bytes(fields[i].name.as_slice()), value };
        let ghost entry_model = entry@;
        out.push(entry);
        assert(entries_view(out@) == before.push(entry_model));
        i += 1;
    }
    out
}

fn push_statement(out: &mut Vec<Statement>, st: Statement)
    ensures
        statements_view(final(out)@) == statements_view(old(out)@) + seq![st@],
{
    let ghost before = statements_view(out@);
    let ghost model = st@;
    out.push(st);
    assert(statements_view(out@) == before + seq![model]);
}

fn push_construction(
    reg: &Vec<ComponentProps>,
    n: &WidgetNode,
    children: Option<Vec<Statement>>,
    out: &mut Vec<Statement>,
)
    ensures
        statements_view(final(out)@) == statements_view(old(out)@) + construction(
            registry_view(reg@),
            n@,
            held_view(children),
        ),
{
    let ghost before = statements_view(out@);
    let ghost held = held_view(children);
    match classify(n.tag.as_slice()) {
        TagKind::Component => {
            let fields = match find_props(reg, n.tag.as_slice()) {
                Some(d) => {
                    assert(registry_view(reg@)[d as int].fields == crate::component::fields_view(
                        reg[d as int].fields@,
                    ));
                    build_props(&reg[d].fields, &n.attributes)
                },
                None => {
                    let none: Vec<PropsEntry> = Vec::new();
                    assert(entries_view(none@) == Seq::<PropsEntryModel>::empty());
                    none
                },
            };
            push_statement(out, Statement::Props { tag: copy_bytes(n.tag.as_slice()), fields });
            let attributes: Vec<Attribute> = Vec::new();
            assert(attributes_view(attributes@) == Seq::<AttributeModel>::empty());
            push_statement(
                out,
                Statement::Construct {
                    tag: copy_bytes(n.tag.as_slice()),
                    kind: TagKind::Component,
                    attributes,
                    key: copy_key(&n.key),
                    children,
                },
            );
            assert(statements_view(out@) == before + construction(registry_view(reg@), n@, held));
        },
        TagKind::Primitive => {
            push_statement(
                out,
                Statement::Construct {
                    tag: copy_bytes(n.tag.as_slice()),
                    kind: TagKind::Primitive,
                    attributes: copy_attributes(&n.attributes),
                    key: copy_key(&n.key),
                    children,
                },
            );
            assert(statements_view(out@) == before + construction(registry_view(reg@), n@, held));
        },
    }
}

fn generate_node(reg: &Vec<ComponentProps>, n: &WidgetNode, mode: Mode, out: &mut Vec<Statement>) -> (r:
    Result<(), GenerationError>)
    ensures
        match r {
            Ok(()) => emit_node(registry_view(reg@), n@, mode) matches Ok(p) && statements_view(
                final(out)@,
            ) == statements_view(old(out)@) + p,
            Err(e) => emit_node(registry_view(reg@), n@, mode) == Err::<
                Seq<StatementModel>,
                GenerationErrorModel,
            >(e@),
        },
    decreases n,
{
    let ghost before = statements_view(out@);
    match check_attributes(reg, n) {
        Some(e) => {
            return Err(e);
        },
        None => {},
    }
    match mode {
        Mode::Construction => {
            let mut body: Vec<Statement> = Vec::new();
            assert(statements_view(body@) == Seq::<StatementModel>::empty());
            match generate_children(reg, &n.children, mode, &mut body) {
                Err(e) => {
                    return Err(e);
                },
                Ok(()) => {},
            }
            assert(statements_view(body@) == emit_children(
                registry_view(reg@),
                n@.children,
                n@.children.len() as int,
                mode,
            )->Ok_0);
            push_construction(reg, n, Some(body), out);
            Ok(())
        },
        _ => {
            push_statement(out, Statement::OpenChildren);
            match generate_children(reg, &n.children, mode, out) {
                Err(e) => {
                    return Err(e);
                },
                Ok(()) => {},
            }
            push_construction(reg, n, None, out);
            push_statement(out, Statement::Register);
            proof {
                let body = emit_children(
                    registry_view(reg@),
                    n@.children,
                    n@.children.len() as int,
                    mode,
                )->Ok_0;
                assert(statements_view(out@) == before + (seq![StatementModel::OpenChildren] + body
                    + construction(registry_view(reg@), n@, None) + seq![
                    StatementModel::Register,
                ]));
            }
            Ok(())
        },
    }
}

fn generate_child(reg: &Vec<ComponentProps>, c: &ChildItem, mode: Mode, out: &mut Vec<Statement>) -> (r:
    Result<(), GenerationError>)
    ensures
        match r {
            Ok(()) => emit_child(registry_view(reg@), c@, mode) matches Ok(p) && statements_view(
                final(out)@,
            ) == statements_view(old(out)@) + p,
            Err(e) => emit_child(registry_view(reg@), c@, mode) == Err::<
                Seq<StatementModel>,
                GenerationErrorModel,
            >(e@),
        },
    decreases c,
{
    match c {
        ChildItem::LiteralWidget(n) => generate_node(reg, n, mode, out),
        ChildItem::Expression(expr) => {
            match mode {
                Mode::Construction => {
                    push_statement(out, Statement::Child { expr: copy_bytes(expr.as_slice()) });
                },
                _ => {
                    push_statement(out, Statement::Splice { expr: copy_bytes(expr.as_slice()) });
                },
            }
            Ok(())
        },
        ChildItem::Conditional(guard, inner) => {
            let mut body: Vec<Statement> = Vec::new();
            assert(statements_view(body@) == Seq::<StatementModel>::empty());
            match generate_child(reg, inner, mode, &mut body) {
                Err(e) => Err(e),
                Ok(()) => {
                    assert(statements_view(body@) == emit_child(
                        registry_view(reg@),
                        (*inner)@,
                        mode,
                    )->Ok_0);
                    push_statement(out, Statement::If { guard: copy_bytes(guard.as_slice()), body });
                    Ok(())
                },
            }
        },
        ChildItem::Iteration(source, inner) => {
            let mut body: Vec<Statement> = Vec::new();
            assert(statements_view(body@) == Seq::<StatementModel>::empty());
            match generate_child(reg, inner, mode, &mut body) {
                Err(e) => Err(e),
                Ok(()) => {
                    assert(statements_view(body@) == emit_child(
                        registry_view(reg@),
                        (*inner)@,
                        mode,
                    )->Ok_0);
                    push_statement(
                        out,
                        Statement::For { source: copy_bytes(source.as_slice()), body },
                    );
                    Ok(())
                },
            }
        },
    }
}

fn generate_children(
    reg: &Vec<ComponentProps>,
    cs: &Vec<ChildItem>,
    mode: Mode,
    out: &mut Vec<Statement>,
) -> (r: Result<(), GenerationError>)
    ensures
        match r {
            Ok(()) => emit_children(
                registry_view(reg@),
                children_view(cs@),
                cs.len() as int,
                mode,
            ) matches Ok(p) && statements_view(final(out)@) == statements_view(old(out)@) + p,
            Err(e) => emit_children(
                registry_view(reg@),
                children_view(cs@),
                cs.len() as int,
                mode,
            ) == Err::<Seq<StatementModel>, GenerationErrorModel>(e@),
        },
    decreases cs,
{
    let ghost before = statements_view(out@);
    let ghost model = children_view(cs@);
    let mut i: usize = 0;
    assert(before + Seq::<StatementModel>::empty() == before);
    while i < cs.len()
        invariant
            i <= cs.len(),
            model == children_view(cs@),
            before == statements_view(old(out)@),
            emit_children(registry_view(reg@), model, i as int, mode) matches Ok(p)
                && statements_view(out@) == before + p,
        decreases cs.len() - i,
    {
        let ghost so_far = emit_children(registry_view(reg@), model, i as int, mode)->Ok_0;
        assert(model[i as int] == cs[i as int]@);
        match generate_child(reg, &cs[i], mode, out) {
            Err(e) => {
                proof {
                    lemma_emit_error_stays(registry_view(reg@), model, i + 1, cs.len() as int, mode);
                }
                return Err(e);
            },
            Ok(()) => {
                proof {
                    let last = emit_child(registry_view(reg@), model[i as int], mode)->Ok_0;
                    assert(before + (so_far + last) == (before + so_far) + last);
                }
            },
        }
        i += 1;
    }
    Ok(())
}

/// Once a child fails to generate, the children fail with its error.
pub proof fn lemma_emit_error_stays(
    reg: Seq<PropsModel>,
    cs: Seq<ChildModel>,
    n: int,
    m: int,
    mode: Mode,
)
    requires
        0 <= n <= m <= cs.len(),
        emit_children(reg, cs, n, mode) is Err,
    ensures
        emit_children(reg, cs, m, mode) == emit_children(reg, cs, n, mode),
    decreases m - n,
{
    if n < m {
        lemma_emit_error_stays(reg, cs, n, m - 1, mode);
    }
}

/// Generates the program for the top-level items of a markup. `core` is the
/// path of the core crate, which the full mode names when it initializes the
/// context.
pub fn generate(reg: &Vec<ComponentProps>, items: &Vec<ChildItem>, mode: Mode, core: &[u8]) -> (r:
    Result<Vec<Statement>, GenerationError>)
    ensures
        match r {
            Ok(p) => emit_program(registry_view(reg@), children_view(items@), mode, core@) == Ok::<
                Seq<StatementModel>,
                GenerationErrorModel,
            >(statements_view(p@)),
            Err(e) => emit_program(registry_view(reg@), children_view(items@), mode, core@) == Err::<
                Seq<StatementModel>,
                GenerationErrorModel,
            >(e@),
        },
{
    let mut out: Vec<Statement> = Vec::new();
    assert(statements_view(out@) == Seq::<StatementModel>::empty());
    match mode {
        Mode::Full => {
            push_statement(&mut out, Statement::InitContext { core: copy_bytes(core) });
        },
        _ => {},
    }
    match generate_children(reg, items, mode, &mut out) {
        Err(e) => {
            return Err(e);
        },
        Ok(()) => {},
    }
    match mode {
        Mode::Full => {
            push_statement(&mut out, Statement::Commit);
        },
        _ => {},
    }
    Ok(out)
}

/// The construction statements that a statement holds, in the order in
/// which they run: those that make the children of a construction before
/// the construction itself, each without the children it holds.
pub open spec fn statement_constructions(st: StatementModel) -> Seq<StatementModel>
    decreases st, 0int,
{
    match st {
        StatementModel::Construct { tag, kind, attributes, key, children } => (match children {
            Some(body) => constructions(body, body.len() as int),
            None => Seq::empty(),
        }) + seq![StatementModel::Construct { tag, kind, attributes, key, children: None }],
        StatementModel::If { body, .. } => constructions(body, body.len() as int),
        StatementModel::For { body, .. } => constructions(body, body.len() as int),
        _ => Seq::empty(),
    }
}

/// The construction statements among the first `n` statements of a program,
/// those inside branches, loops and constructions included, in the order in
/// which they run.
pub open spec fn constructions(p: Seq<StatementModel>, n: int) -> Seq<StatementModel>
    decreases p, n,
{
    if n <= 0 || n > p.len() {
        Seq::empty()
    } else {
        constructions(p, n - 1) + statement_constructions(p[n - 1])
    }
}

/// The construction statements of the nodes of a tree in post-order: those
/// of the descendants that are reached without passing through an
/// expression, then that of the node itself.
pub open spec fn post_order(n: NodeModel) -> Seq<StatementModel>
    decreases n, 0int,
{
    post_order_children(n.children, n.children.len() as int) + seq![construct_statement(n)]
}

/// The same for a child item.
pub open spec fn post_order_child(c: ChildModel) -> Seq<StatementModel>
    decreases c, 0int,
{
    match c {
        ChildModel::LiteralWidget(n) => post_order(n),
        ChildModel::Expression(_) => Seq::empty(),
        ChildModel::Conditional(_, inner) => post_order_child(*inner),
        ChildModel::Iteration(_, inner) => post_order_child(*inner),
    }
}

/// The same for the first `n` child items, one after the other.
pub open spec fn post_order_children(cs: Seq<ChildModel>, n: int) -> Seq<StatementModel>
    decreases cs, n,
{
    if n <= 0 || n > cs.len() {
        Seq::empty()
    } else {
        post_order_children(cs, n - 1) + post_order_child(cs[n - 1])
    }
}

/// The number of nodes of a tree that are reached without passing through
/// an expression.
pub open spec fn node_count(n: NodeModel) -> nat
    decreases n, 0int,
{
    node_count_children(n.children, n.children.len() as int) + 1
}

/// The same for a child item.
pub open spec fn node_count_child(c: ChildModel) -> nat
    decreases c, 0int,
{
    match c {
        ChildModel::LiteralWidget(n) => node_count(n),
        ChildModel::Expression(_) => 0,
        ChildModel::Conditional(_, inner) => node_count_child(*inner),
        ChildModel::Iteration(_, inner) => node_count_child(*inner),
    }
}

/// The same for the first `n` child items together.
pub open spec fn node_count_children(cs: Seq<ChildModel>, n: int) -> nat
    decreases cs, n,
{
    if n <= 0 || n > cs.len() {
        0
    } else {
        node_count_children(cs, n - 1) + node_count_child(cs[n - 1])
    }
}

proof fn lemma_constructions_prefix(a: Seq<StatementModel>, b: Seq<StatementModel>, n: int)
    requires
        0 <= n <= a.len(),
    ensures
        constructions(a + b, n) == constructions(a, n),
    decreases n,
{
    if n > 0 {
        lemma_constructions_prefix(a, b, n - 1);
        assert((a + b)[n - 1] == a[n - 1]);
    }
}

/// The construction statements of two programs put together are those of
/// the first followed by those of the second.
pub proof fn lemma_constructions_concat(a: Seq<StatementModel>, b: Seq<StatementModel>, n: int)
    requires
        0 <= n <= b.len(),
    ensures
        constructions(a + b, a.len() + n) == constructions(a, a.len() as int) + constructions(b, n),
    decreases n,
{
    if n == 0 {
        lemma_constructions_prefix(a, b, a.len() as int);
        assert(constructions(a, a.len() as int) + Seq::<StatementModel>::empty() == constructions(
            a,
            a.len() as int,
        ));
    } else {
        lemma_constructions_concat(a, b, n - 1);
        assert((a + b)[a.len() + n - 1] == b[n - 1]);
        assert(constructions(a, a.len() as int) + (constructions(b, n - 1)
            + statement_constructions(b[n - 1])) == (constructions(a, a.len() as int)
            + constructions(b, n - 1)) + statement_constructions(b[n - 1]));
    }
}

proof fn lemma_constructions_append(a: Seq<StatementModel>, b: Seq<StatementModel>)
    ensures
        constructions(a + b, (a + b).len() as int) == constructions(a, a.len() as int)
            + constructions(b, b.len() as int),
{
    lemma_constructions_concat(a, b, b.len() as int);
}

proof fn lemma_constructions_of_one(st: StatementModel)
    ensures
        constructions(seq![st], 1) == statement_constructions(st),
{
    let p = seq![st];
    assert(constructions(p, 0) == Seq::<StatementModel>::empty());
    assert(constructions(p, 1) == constructions(p, 0) + statement_constructions(p[0]));
    assert(Seq::<StatementModel>::empty() + statement_constructions(st) == statement_constructions(
        st,
    ));
}

proof fn lemma_constructions_of_construction(
    reg: Seq<PropsModel>,
    n: NodeModel,
    children: Option<Seq<StatementModel>>,
)
    ensures
        constructions(
            construction(reg, n, children),
            construction(reg, n, children).len() as int,
        ) == (match children {
            Some(body) => constructions(body, body.len() as int),
            None => Seq::empty(),
        }) + seq![construct_statement(n)],
{
    let p = construction(reg, n, children);
    let made = statement_constructions(construct_with(n, children));
    assert(made == (match children {
        Some(body) => constructions(body, body.len() as int),
        None => Seq::empty(),
    }) + seq![construct_statement(n)]);
    assert(constructions(p, 0) == Seq::<StatementModel>::empty());
    assert(constructions(p, 1) == constructions(p, 0) + statement_constructions(p[0]));
    if p.len() == 2 {
        assert(constructions(p, 2) == constructions(p, 1) + statement_constructions(p[1]));
        assert(Seq::<StatementModel>::empty() + Seq::<StatementModel>::empty() + made == made);
    } else {
        assert(Seq::<StatementModel>::empty() + made == made);
    }
}

/// In every mode, the program of a node holds exactly one construction
/// statement for each node of the tree that is reached without passing
/// through an expression, and holds them in post-order: the statement of a
/// node stands after those of all its descendants.
pub proof fn lemma_node_constructions(reg: Seq<PropsModel>, n: NodeModel, mode: Mode)
    requires
        emit_node(reg, n, mode) is Ok,
    ensures
        constructions(emit_node(reg, n, mode)->Ok_0, emit_node(reg, n, mode)->Ok_0.len() as int)
            == post_order(n),
        post_order(n).len() == node_count(n),
    decreases n, 0int,
{
    let body = emit_children(reg, n.children, n.children.len() as int, mode)->Ok_0;
    lemma_children_constructions(reg, n.children, n.children.len() as int, mode);
    if mode == Mode::Construction {
        lemma_constructions_of_construction(reg, n, Some(body));
    } else {
        let open = seq![StatementModel::OpenChildren];
        let made = construction(reg, n, None);
        let register = seq![StatementModel::Register];
        lemma_constructions_of_one(StatementModel::OpenChildren);
        lemma_constructions_of_one(StatementModel::Register);
        lemma_constructions_of_construction(reg, n, None);
        lemma_constructions_append(open, body);
        lemma_constructions_append(open + body, made);
        lemma_constructions_append(open + body + made, register);
        assert(Seq::<StatementModel>::empty() + post_order_children(
            n.children,
            n.children.len() as int,
        ) + (Seq::<StatementModel>::empty() + seq![construct_statement(n)]) + Seq::<
            StatementModel,
        >::empty() == post_order(n));
    }
}

/// The same for a child item.
pub proof fn lemma_child_constructions(reg: Seq<PropsModel>, c: ChildModel, mode: Mode)
    requires
        emit_child(reg, c, mode) is Ok,
    ensures
        constructions(emit_child(reg, c, mode)->Ok_0, emit_child(reg, c, mode)->Ok_0.len() as int)
            == post_order_child(c),
        post_order_child(c).len() == node_count_child(c),
    decreases c, 0int,
{
    match c {
        ChildModel::LiteralWidget(n) => {
            lemma_node_constructions(reg, n, mode);
        },
        ChildModel::Expression(expr) => {
            lemma_constructions_of_one(expression_statement(expr, mode));
        },
        ChildModel::Conditional(guard, inner) => {
            lemma_child_constructions(reg, *inner, mode);
            lemma_constructions_of_one(
                StatementModel::If { guard, body: emit_child(reg, *inner, mode)->Ok_0 },
            );
        },
        ChildModel::Iteration(source, inner) => {
            lemma_child_constructions(reg, *inner, mode);
            lemma_constructions_of_one(
                StatementModel::For { source, body: emit_child(reg, *inner, mode)->Ok_0 },
            );
        },
    }
}

/// The same for the first `k` of a sequence of child items.
pub proof fn lemma_children_constructions(
    reg: Seq<PropsModel>,
    cs: Seq<ChildModel>,
    k: int,
    mode: Mode,
)
    requires
        0 <= k <= cs.len(),
        emit_children(reg, cs, k, mode) is Ok,
    ensures
        constructions(
            emit_children(reg, cs, k, mode)->Ok_0,
            emit_children(reg, cs, k, mode)->Ok_0.len() as int,
        ) == post_order_children(cs, k),
        post_order_children(cs, k).len() == node_count_children(cs, k),
    decreases cs, k,
{
    if k > 0 {
        lemma_children_constructions(reg, cs, k - 1, mode);
        lemma_child_constructions(reg, cs[k - 1], mode);
        lemma_constructions_append(
            emit_children(reg, cs, k - 1, mode)->Ok_0,
            emit_child(reg, cs[k - 1], mode)->Ok_0,
        );
    }
}

/// In every mode, a generated program holds exactly one construction
/// statement for each node of the markup that is reached without passing
/// through an expression, and holds them in post-order.
pub proof fn lemma_program_constructions(
    reg: Seq<PropsModel>,
    items: Seq<ChildModel>,
    mode: Mode,
    core: Seq<u8>,
)
    requires
        emit_program(reg, items, mode, core) is Ok,
    ensures
        constructions(
            emit_program(reg, items, mode, core)->Ok_0,
            emit_program(reg, items, mode, core)->Ok_0.len() as int,
        ) == post_order_children(items, items.len() as int),
        post_order_children(items, items.len() as int).len() == node_count_children(
            items,
            items.len() as int,
        ),
{
    let body = emit_children(reg, items, items.len() as int, mode)->Ok_0;
    lemma_children_constructions(reg, items, items.len() as int, mode);
    if mode == Mode::Full {
        let init = seq![StatementModel::InitContext { core }];
        let commit = seq![StatementModel::Commit];
        lemma_constructions_of_one(StatementModel::InitContext { core });
        lemma_constructions_of_one(StatementModel::Commit);
        lemma_constructions_append(init, body);
        lemma_constructions_append(init + body, commit);
        assert(Seq::<StatementModel>::empty() + post_order_children(items, items.len() as int)
            + Seq::<StatementModel>::empty() == post_order_children(items, items.len() as int));
    }
}

/// A statement that keeps the books of the render context: it initializes
/// the context, opens an accumulator in it, registers widgets in it, or
/// commits it.
pub open spec fn keeps_books(st: StatementModel) -> bool {
    st is InitContext || st is OpenChildren || st is Register || st is Splice || st is Commit
}

/// A statement that brackets a whole program: it initializes the render
/// context or commits it.
pub open spec fn brackets(st: StatementModel) -> bool {
    st is InitContext || st is Commit
}

/// The number of statements of a kind among the first `n` of a program,
/// those inside branches, loops and constructions included.
pub open spec fn count_of(p: Seq<StatementModel>, n: int, kind: spec_fn(StatementModel) -> bool) -> nat
    decreases p, n,
{
    if n <= 0 || n > p.len() {
        0
    } else {
        count_of(p, n - 1, kind) + (if kind(p[n - 1]) {
            1nat
        } else {
            0nat
        }) + match p[n - 1] {
            StatementModel::Construct { children: Some(body), .. } => count_of(
                body,
                body.len() as int,
                kind,
            ),
            StatementModel::If { body, .. } => count_of(body, body.len() as int, kind),
            StatementModel::For { body, .. } => count_of(body, body.len() as int, kind),
            _ => 0nat,
        }
    }
}

proof fn lemma_count_prefix(
    a: Seq<StatementModel>,
    b: Seq<StatementModel>,
    n: int,
    kind: spec_fn(StatementModel) -> bool,
)
    requires
        0 <= n <= a.len(),
    ensures
        count_of(a + b, n, kind) == count_of(a, n, kind),
    decreases n,
{
    if n > 0 {
        lemma_count_prefix(a, b, n - 1, kind);
        assert((a + b)[n - 1] == a[n - 1]);
    }
}

/// The statements of a kind in two programs put together are those of the
/// first and those of the second.
pub proof fn lemma_count_concat(
    a: Seq<StatementModel>,
    b: Seq<StatementModel>,
    n: int,
    kind: spec_fn(StatementModel) -> bool,
)
    requires
        0 <= n <= b.len(),
    ensures
        count_of(a + b, a.len() + n, kind) == count_of(a, a.len() as int, kind) + count_of(
            b,
            n,
            kind,
        ),
    decreases n,
{
    if n == 0 {
        lemma_count_prefix(a, b, a.len() as int, kind);
    } else {
        lemma_count_concat(a, b, n - 1, kind);
        assert((a + b)[a.len() + n - 1] == b[n - 1]);
    }
}

/// The kinds of statement that the program of a node never holds in a
/// mode: those that bracket a program in every mode, and in
/// construction-only mode also those that open and register.
pub open spec fn never_in_node(mode: Mode, st: StatementModel) -> bool {
    brackets(st) || (mode == Mode::Construction && keeps_books(st))
}

/// The program of a node holds no statement of a kind that the program of
/// a node never holds in its mode.
pub proof fn lemma_node_holds_none(
    reg: Seq<PropsModel>,
    n: NodeModel,
    mode: Mode,
    kind: spec_fn(StatementModel) -> bool,
)
    requires
        emit_node(reg, n, mode) is Ok,
        forall|st: StatementModel| #[trigger] kind(st) ==> never_in_node(mode, st),
    ensures
        count_of(emit_node(reg, n, mode)->Ok_0, emit_node(reg, n, mode)->Ok_0.len() as int, kind)
            == 0,
    decreases n, 0int,
{
    let body = emit_children(reg, n.children, n.children.len() as int, mode)->Ok_0;
    lemma_children_hold_none(reg, n.children, n.children.len() as int, mode, kind);
    if mode == Mode::Construction {
        let made = construction(reg, n, Some(body));
        assert(!kind(made[0]));
        assert(count_of(made, 0, kind) == 0);
        if made.len() == 2 {
            assert(!kind(made[1]));
            assert(count_of(made, 1, kind) == 0);
            assert(count_of(made, 2, kind) == count_of(made, 1, kind) + 0 + count_of(
                body,
                body.len() as int,
                kind,
            ));
        } else {
            assert(count_of(made, 1, kind) == count_of(made, 0, kind) + 0 + count_of(
                body,
                body.len() as int,
                kind,
            ));
        }
    } else {
        let open = seq![StatementModel::OpenChildren];
        let made = construction(reg, n, None);
        let register = seq![StatementModel::Register];
        assert(!kind(open[0]) && !kind(register[0]) && !kind(made[0]));
        assert(count_of(open, 0, kind) == 0);
        assert(count_of(open, 1, kind) == 0);
        assert(count_of(register, 0, kind) == 0);
        assert(count_of(register, 1, kind) == 0);
        assert(count_of(made, 0, kind) == 0);
        assert(count_of(made, 1, kind) == 0);
        if made.len() == 2 {
            assert(!kind(made[1]));
            assert(count_of(made, 2, kind) == 0);
        }
        lemma_count_concat(open, body, body.len() as int, kind);
        lemma_count_concat(open + body, made, made.len() as int, kind);
        lemma_count_concat(open + body + made, register, 1, kind);
    }
}

/// The same for a child item.
pub proof fn lemma_child_holds_none(
    reg: Seq<PropsModel>,
    c: ChildModel,
    mode: Mode,
    kind: spec_fn(StatementModel) -> bool,
)
    requires
        emit_child(reg, c, mode) is Ok,
        forall|st: StatementModel| #[trigger] kind(st) ==> never_in_node(mode, st),
    ensures
        count_of(emit_child(reg, c, mode)->Ok_0, emit_child(reg, c, mode)->Ok_0.len() as int, kind)
            == 0,
    decreases c, 0int,
{
    let p = emit_child(reg, c, mode)->Ok_0;
    match c {
        ChildModel::LiteralWidget(n) => {
            lemma_node_holds_none(reg, n, mode, kind);
        },
        ChildModel::Expression(_) => {
            assert(!kind(p[0]));
            assert(count_of(p, 0, kind) == 0);
        },
        ChildModel::Conditional(_, inner) => {
            lemma_child_holds_none(reg, *inner, mode, kind);
            assert(!kind(p[0]));
            assert(count_of(p, 0, kind) == 0);
        },
        ChildModel::Iteration(_, inner) => {
            lemma_child_holds_none(reg, *inner, mode, kind);
            assert(!kind(p[0]));
            assert(count_of(p, 0, kind) == 0);
        },
    }
}

/// The same for the first `k` of a sequence of child items.
pub proof fn lemma_children_hold_none(
    reg: Seq<PropsModel>,
    cs: Seq<ChildModel>,
    k: int,
    mode: Mode,
    kind: spec_fn(StatementModel) -> bool,
)
    requires
        0 <= k <= cs.len(),
        emit_children(reg, cs, k, mode) is Ok,
        forall|st: StatementModel| #[trigger] kind(st) ==> never_in_node(mode, st),
    ensures
        count_of(
            emit_children(reg, cs, k, mode)->Ok_0,
            emit_children(reg, cs, k, mode)->Ok_0.len() as int,
            kind,
        ) == 0,
    decreases cs, k,
{
    if k > 0 {
        let before = emit_children(reg, cs, k - 1, mode)->Ok_0;
        let last = emit_child(reg, cs[k - 1], mode)->Ok_0;
        lemma_children_hold_none(reg, cs, k - 1, mode, kind);
        lemma_child_holds_none(reg, cs[k - 1], mode, kind);
        lemma_count_concat(before, last, last.len() as int, kind);
    }
}

/// A program initializes and commits just where it is a full program: a
/// full program holds one statement that initializes, its first, and one
/// that commits, its last; a program of another mode holds neither.
pub proof fn lemma_program_brackets(
    reg: Seq<PropsModel>,
    items: Seq<ChildModel>,
    mode: Mode,
    core: Seq<u8>,
)
    requires
        emit_program(reg, items, mode, core) is Ok,
    ensures
        ({
            let p = emit_program(reg, items, mode, core)->Ok_0;
            let kind = |st: StatementModel| brackets(st);
            &&& mode != Mode::Full ==> count_of(p, p.len() as int, kind) == 0
            &&& mode == Mode::Full ==> count_of(p, p.len() as int, kind) == 2 && p.first()
                == (StatementModel::InitContext { core }) && p.last() == StatementModel::Commit
        }),
{
    let kind = |st: StatementModel| brackets(st);
    let body = emit_children(reg, items, items.len() as int, mode)->Ok_0;
    lemma_children_hold_none(reg, items, items.len() as int, mode, kind);
    if mode == Mode::Full {
        let init = seq![StatementModel::InitContext { core }];
        let commit = seq![StatementModel::Commit];
        assert(kind(init[0]) && kind(commit[0]));
        assert(count_of(init, 0, kind) == 0);
        assert(count_of(init, 1, kind) == 1);
        assert(count_of(commit, 0, kind) == 0);
        assert(count_of(commit, 1, kind) == 1);
        lemma_count_concat(init, body, body.len() as int, kind);
        lemma_count_concat(init + body, commit, 1, kind);
    }
}

/// A construction-only program holds no statement that keeps the books of
/// the render context: it is made of constructions, of the expressions,
/// branches and loops that yield their children, and of properties
/// literals. This says what the program is written with; what running it
/// does to a context is stated with the registration laws.
pub proof fn lemma_construction_keeps_no_books(
    reg: Seq<PropsModel>,
    items: Seq<ChildModel>,
    core: Seq<u8>,
)
    requires
        emit_program(reg, items, Mode::Construction, core) is Ok,
    ensures
        ({
            let p = emit_program(reg, items, Mode::Construction, core)->Ok_0;
            count_of(p, p.len() as int, |st: StatementModel| keeps_books(st)) == 0
        }),
{
    lemma_children_hold_none(
        reg,
        items,
        items.len() as int,
        Mode::Construction,
        |st: StatementModel| keeps_books(st),
    );
}

/// Full and nested mode build and register alike: the program of a node is
/// the same in both.
pub proof fn lemma_full_node_is_nested(reg: Seq<PropsModel>, n: NodeModel)
    ensures
        emit_node(reg, n, Mode::Full) == emit_node(reg, n, Mode::Nested),
    decreases n, 0int,
{
    lemma_full_children_are_nested(reg, n.children, n.children.len() as int);
}

/// The same for a child item.
pub proof fn lemma_full_child_is_nested(reg: Seq<PropsModel>, c: ChildModel)
    ensures
        emit_child(reg, c, Mode::Full) == emit_child(reg, c, Mode::Nested),
    decreases c, 0int,
{
    match c {
        ChildModel::LiteralWidget(n) => {
            lemma_full_node_is_nested(reg, n);
        },
        ChildModel::Expression(_) => {},
        ChildModel::Conditional(_, inner) => {
            lemma_full_child_is_nested(reg, *inner);
        },
        ChildModel::Iteration(_, inner) => {
            lemma_full_child_is_nested(reg, *inner);
        },
    }
}

/// The same for the first `k` of a sequence of child items.
pub proof fn lemma_full_children_are_nested(reg: Seq<PropsModel>, cs: Seq<ChildModel>, k: int)
    ensures
        emit_children(reg, cs, k, Mode::Full) == emit_children(reg, cs, k, Mode::Nested),
    decreases cs, k,
{
    if 0 < k <= cs.len() {
        lemma_full_children_are_nested(reg, cs, k - 1);
        lemma_full_child_is_nested(reg, cs[k - 1]);
    }
}

/// A full program is the nested program of the same markup between the
/// statement that initializes the context and the one that commits it, and
/// fails just where the nested program fails, with the same error.
pub proof fn lemma_full_wraps_nested(
    reg: Seq<PropsModel>,
    items: Seq<ChildModel>,
    core: Seq<u8>,
    other: Seq<u8>,
)
    ensures
        emit_program(reg, items, Mode::Full, core) == match emit_program(
            reg,
            items,
            Mode::Nested,
            other,
        ) {
            Ok(body) => Ok(
                seq![StatementModel::InitContext { core }] + body + seq![StatementModel::Commit],
            ),
            Err(e) => Err(e),
        },
{
    lemma_full_children_are_nested(reg, items, items.len() as int);
}

/// Only a component gets a properties literal: the construction of a
/// primitive is its constructor call alone.
pub proof fn lemma_props_only_for_components(
    reg: Seq<PropsModel>,
    n: NodeModel,
    children: Option<Seq<StatementModel>>,
)
    ensures
        tag_kind(n.tag) == TagKind::Primitive ==> construction(reg, n, children) == seq![
            construct_with(n, children),
        ],
        tag_kind(n.tag) == TagKind::Component ==> construction(reg, n, children).len() == 2
            && construction(reg, n, children)[0] is Props && construction(reg, n, children)[1]
            == construct_with(n, children),
{
}


/// A value with its text read back from its escaped form.
pub open spec fn restored_value(v: ValueModel) -> ValueModel {
    match v {
        ValueModel::Literal(e) => ValueModel::Literal(unescaped(e, 0)),
        ValueModel::Spread(e) => ValueModel::Spread(unescaped(e, 0)),
        ValueModel::Handler(e) => ValueModel::Handler(unescaped(e, 0)),
    }
}

/// Attributes with the texts of their values read back.
pub open spec fn restored_attributes(attrs: Seq<AttributeModel>) -> Seq<AttributeModel> {
    Seq::new(
        attrs.len(),
        |i: int| AttributeModel { name: attrs[i].name, value: restored_value(attrs[i].value) },
    )
}

/// The fields of a literal with the texts of their values read back.
pub open spec fn restored_entries(fields: Seq<PropsEntryModel>) -> Seq<PropsEntryModel> {
    Seq::new(
        fields.len(),
        |i: int|
            PropsEntryModel {
                name: fields[i].name,
                value: match fields[i].value {
                    Some(v) => Some(restored_value(v)),
                    None => None,
                },
            },
    )
}

/// A key read back.
pub open spec fn restored_key(key: Option<Seq<u8>>) -> Option<Seq<u8>> {
    match key {
        Some(k) => Some(unescaped(k, 0)),
        None => None,
    }
}

/// A statement with every host expression in it read back from its
/// escaped form: the values of attributes and fields, keys, guards,
/// sources and expression children. Tags and names are identifiers and stay
/// as they are.
pub open spec fn restored_statement(st: StatementModel) -> StatementModel
    decreases st, 0int,
{
    match st {
        StatementModel::Props { tag, fields } => StatementModel::Props {
            tag,
            fields: restored_entries(fields),
        },
        StatementModel::Construct { tag, kind, attributes, key, children } => StatementModel::Construct {
            tag,
            kind,
            attributes: restored_attributes(attributes),
            key: restored_key(key),
            children: match children {
                Some(body) => Some(restored_program(body)),
                None => None,
            },
        },
        StatementModel::Splice { expr } => StatementModel::Splice { expr: unescaped(expr, 0) },
        StatementModel::Child { expr } => StatementModel::Child { expr: unescaped(expr, 0) },
        StatementModel::If { guard, body } => StatementModel::If {
            guard: unescaped(guard, 0),
            body: restored_program(body),
        },
        StatementModel::For { source, body } => StatementModel::For {
            source: unescaped(source, 0),
            body: restored_program(body),
        },
        _ => st,
    }
}

/// A program with every host expression in it read back.
pub open spec fn restored_program(p: Seq<StatementModel>) -> Seq<StatementModel>
    decreases p, 1int,
{
    Seq::new(
        p.len(),
        |i: int|
            if 0 <= i < p.len() {
                restored_statement(p[i])
            } else {
                arbitrary()
            },
    )
}

fn restore_value(v: &AttributeValue) -> (out: AttributeValue)
    ensures
        out@ == restored_value(v@),
{
    match v {
        AttributeValue::Literal(e) => AttributeValue::Literal(unescape(e.as_slice())),
        AttributeValue::Spread(e) => AttributeValue::Spread(unescape(e.as_slice())),
        AttributeValue::Handler(e) => AttributeValue::Handler(unescape(e.as_slice())),
    }
}

fn restore_attributes(attrs: &Vec<Attribute>) -> (out: Vec<Attribute>)
    ensures
        attributes_view(out@) == restored_attributes(attributes_view(attrs@)),
{
    let mut out: Vec<Attribute> = Vec::new();
    let mut i: usize = 0;
    while i < attrs.len()
        invariant
            i <= attrs.len(),
            out.len() == i,
            forall|j: int|
                0 <= j < i ==> (#[trigger] out[j])@ == restored_attributes(
                    attributes_view(attrs@),
                )[j],
        decreases attrs.len() - i,
    {
        assert(attributes_view(attrs@)[i as int] == attrs[i as int]@);
        out.push(
            Attribute {
                name: copy_bytes(attrs[i].name.as_slice()),
                value: restore_value(&attrs[i].value),
            },
        );
        i += 1;
    }
    assert(attributes_view(out@) =~= restored_attributes(attributes_view(attrs@)));
    out
}

fn restore_entries(fields: &Vec<PropsEntry>) -> (out: Vec<PropsEntry>)
    ensures
        entries_view(out@) == restored_entries(entries_view(fields@)),
{
    let mut out: Vec<PropsEntry> = Vec::new();
    let mut i: usize = 0;
    while i < fields.len()
        invariant
            i <= fields.len(),
            out.len() == i,
            forall|j: int|
                0 <= j < i ==> (#[trigger] out[j])@ == restored_entries(entries_view(fields@))[j],
        decreases fields.len() - i,
    {
        assert(entries_view(fields@)[i as int] == fields[i as int]@);
        let value = match &fields[i].value {
            Some(v) => Some(restore_value(v)),
            None => None,
        };
        out.push(PropsEntry { name: copy_bytes(fields[i].name.as_slice()), value });
        i += 1;
    }
    assert(entries_view(out@) =~= restored_entries(entries_view(fields@)));
    out
}

fn restore_statement(st: &Statement) -> (out: Statement)
    ensures
        out@ == restored_statement(st@),
    decreases st, 0int,
{
    match st {
        Statement::InitContext { core } => Statement::InitContext {
            core: copy_bytes(core.as_slice()),
        },
        Statement::OpenChildren => Statement::OpenChildren,
        Statement::Props { tag, fields } => Statement::Props {
            tag: copy_bytes(tag.as_slice()),
            fields: restore_entries(fields),
        },
        Statement::Construct { tag, kind, attributes, key, children } => {
            let key = match key {
                Some(k) => Some(unescape(k.as_slice())),
                None => None,
            };
            let children = match children {
                Some(body) => Some(restore_program(body)),
                None => None,
            };
            Statement::Construct {
                tag: copy_bytes(tag.as_slice()),
                kind: *kind,
                attributes: restore_attributes(attributes),
                key,
                children,
            }
        },
        Statement::Register => Statement::Register,
        Statement::Splice { expr } => Statement::Splice { expr: unescape(expr.as_slice()) },
        Statement::Child { expr } => Statement::Child { expr: unescape(expr.as_slice()) },
        Statement::If { guard, body } => Statement::If {
            guard: unescape(guard.as_slice()),
            body: restore_program(body),
        },
        Statement::For { source, body } => Statement::For {
            source: unescape(source.as_slice()),
            body: restore_program(body),
        },
        Statement::Commit => Statement::Commit,
    }
}

/// Reads every host expression in a program back from its escaped form.
pub fn restore_program(p: &Vec<Statement>) -> (out: Vec<Statement>)
    ensures
        statements_view(out@) == restored_program(statements_view(p@)),
    decreases p, 1int,
{
    let mut out: Vec<Statement> = Vec::new();
    let mut i: usize = 0;
    while i < p.len()
        invariant
            i <= p.len(),
            out.len() == i,
            forall|j: int|
                0 <= j < i ==> (#[trigger] out[j])@ == restored_statement(statements_view(p@)[j]),
        decreases p.len() - i,
    {
        assert(statements_view(p@)[i as int] == p[i as int]@);
        out.push(restore_statement(&p[i]));
        i += 1;
    }
    assert(statements_view(out@) =~= restored_program(statements_view(p@)));
    out
}


/// Reading host expressions back keeps the order of a program: the read
/// back of two programs put together is the read back of each.
pub proof fn lemma_restored_concat(a: Seq<StatementModel>, b: Seq<StatementModel>)
    ensures
        restored_program(a + b) == restored_program(a) + restored_program(b),
{
    assert(restored_program(a + b) =~= restored_program(a) + restored_program(b));
}

/// The same construction statements, read back: the construction
/// statements that a statement holds once its host expressions are read
/// back are those that it holds, read back.
pub proof fn lemma_restored_statement_constructions(st: StatementModel)
    ensures
        statement_constructions(restored_statement(st)) == restored_program(
            statement_constructions(st),
        ),
    decreases st, 0int,
{
    match st {
        StatementModel::Construct { tag, kind, attributes, key, children } => {
            let head = StatementModel::Construct { tag, kind, attributes, key, children: None };
            let inner = match children {
                Some(body) => constructions(body, body.len() as int),
                None => Seq::empty(),
            };
            match children {
                Some(body) => {
                    lemma_restored_constructions(body, body.len() as int);
                    assert(restored_program(body).len() == body.len());
                },
                None => {
                    assert(restored_program(Seq::<StatementModel>::empty()) == Seq::<
                        StatementModel,
                    >::empty());
                },
            }
            lemma_restored_concat(inner, seq![head]);
            assert(restored_program(seq![head]) == seq![restored_statement(head)]);
        },
        StatementModel::If { guard, body } => {
            lemma_restored_constructions(body, body.len() as int);
            assert(restored_program(body).len() == body.len());
        },
        StatementModel::For { source, body } => {
            lemma_restored_constructions(body, body.len() as int);
            assert(restored_program(body).len() == body.len());
        },
        _ => {
            assert(restored_program(Seq::<StatementModel>::empty()) == Seq::<
                StatementModel,
            >::empty());
        },
    }
}

/// The laws on the construction statements of a program hold of the
/// program with its host expressions read back: it holds the same
/// construction statements in the same order, read back.
pub proof fn lemma_restored_constructions(p: Seq<StatementModel>, n: int)
    requires
        0 <= n <= p.len(),
    ensures
        constructions(restored_program(p), n) == restored_program(constructions(p, n)),
    decreases p, n,
{
    if n > 0 {
        lemma_restored_constructions(p, n - 1);
        lemma_restored_statement_constructions(p[n - 1]);
        lemma_restored_concat(constructions(p, n - 1), statement_constructions(p[n - 1]));
        assert(restored_program(p)[n - 1] == restored_statement(p[n - 1]));
    } else {
        assert(restored_program(Seq::<StatementModel>::empty()) == Seq::<StatementModel>::empty());
    }
}

/// Reading host expressions back changes no kind of statement: a program
/// read back holds as many statements of a kind as the program, where the
/// kind does not look at host expressions.
pub proof fn lemma_restored_count(p: Seq<StatementModel>, n: int, kind: spec_fn(StatementModel) -> bool)
    requires
        0 <= n <= p.len(),
        forall|st: StatementModel| #[trigger] kind(restored_statement(st)) == kind(st),
    ensures
        count_of(restored_program(p), n, kind) == count_of(p, n, kind),
    decreases p, n,
{
    if n > 0 {
        lemma_restored_count(p, n - 1, kind);
        assert(restored_program(p)[n - 1] == restored_statement(p[n - 1]));
        match p[n - 1] {
            StatementModel::Construct { children: Some(body), .. } => {
                lemma_restored_count(body, body.len() as int, kind);
                assert(restored_program(body).len() == body.len());
            },
            StatementModel::If { body, .. } => {
                lemma_restored_count(body, body.len() as int, kind);
                assert(restored_program(body).len() == body.len());
            },
            StatementModel::For { body, .. } => {
                lemma_restored_count(body, body.len() as int, kind);
                assert(restored_program(body).len() == body.len());
            },
            _ => {},
        }
    }
}


/// A node with every host expression in it read back from its escaped
/// form.
pub open spec fn restored_node(n: NodeModel) -> NodeModel
    decreases n, 0int,
{
    NodeModel {
        tag: n.tag,
        attributes: restored_attributes(n.attributes),
        children: restored_items(n.children),
        key: restored_key(n.key),
    }
}

/// The same for a child item.
pub open spec fn restored_child(c: ChildModel) -> ChildModel
    decreases c, 0int,
{
    match c {
        ChildModel::LiteralWidget(n) => ChildModel::LiteralWidget(restored_node(n)),
        ChildModel::Expression(e) => ChildModel::Expression(unescaped(e, 0)),
        ChildModel::Conditional(guard, inner) => ChildModel::Conditional(
            unescaped(guard, 0),
            Box::new(restored_child(*inner)),
        ),
        ChildModel::Iteration(source, inner) => ChildModel::Iteration(
            unescaped(source, 0),
            Box::new(restored_child(*inner)),
        ),
    }
}

/// The same for child items.
pub open spec fn restored_items(cs: Seq<ChildModel>) -> Seq<ChildModel>
    decreases cs, 1int,
{
    Seq::new(
        cs.len(),
        |i: int|
            if 0 <= i < cs.len() {
                restored_child(cs[i])
            } else {
                arbitrary()
            },
    )
}

/// A program or an error, with the host expressions of the program read
/// back.
pub open spec fn restored_result(r: Result<Seq<StatementModel>, GenerationErrorModel>) -> Result<
    Seq<StatementModel>,
    GenerationErrorModel,
> {
    match r {
        Ok(p) => Ok(restored_program(p)),
        Err(e) => Err(e),
    }
}

proof fn lemma_restored_find_name(attrs: Seq<AttributeModel>, name: Seq<u8>, from: int)
    requires
        0 <= from,
    ensures
        find_name(restored_attributes(attrs), name, from) == find_name(attrs, name, from),
    decreases attrs.len() - from,
{
    if from < attrs.len() {
        assert(restored_attributes(attrs)[from].name == attrs[from].name);
        lemma_restored_find_name(attrs, name, from + 1);
    }
}

proof fn lemma_restored_problem(reg: Seq<PropsModel>, tag: Seq<u8>, attrs: Seq<AttributeModel>, n: int)
    requires
        0 <= n <= attrs.len(),
    ensures
        first_problem(reg, tag, restored_attributes(attrs), n) == first_problem(reg, tag, attrs, n),
    decreases n,
{
    if n > 0 {
        lemma_restored_problem(reg, tag, attrs, n - 1);
        let a = attrs[n - 1];
        let b = restored_attributes(attrs)[n - 1];
        assert(b.name == a.name);
        assert(b.value is Spread == a.value is Spread);
    }
}

proof fn lemma_restored_entries(fields: Seq<PropFieldModel>, attrs: Seq<AttributeModel>, n: int)
    requires
        0 <= n <= fields.len(),
    ensures
        props_entries(fields, restored_attributes(attrs), n) == restored_entries(
            props_entries(fields, attrs, n),
        ),
    decreases n,
{
    if n > 0 {
        lemma_restored_entries(fields, attrs, n - 1);
        lemma_restored_find_name(attrs, fields[n - 1].name, 0);
        let i = find_name(attrs, fields[n - 1].name, 0);
        if i < attrs.len() {
            crate::attribute::lemma_find_name(attrs, fields[n - 1].name, 0);
            assert(restored_attributes(attrs)[i].value == restored_value(attrs[i].value));
        }
        assert(props_entries(fields, restored_attributes(attrs), n) =~= restored_entries(
            props_entries(fields, attrs, n),
        ));
    } else {
        assert(restored_entries(Seq::<PropsEntryModel>::empty()) =~= Seq::<PropsEntryModel>::empty());
    }
}

proof fn lemma_restored_construction(
    reg: Seq<PropsModel>,
    n: NodeModel,
    children: Option<Seq<StatementModel>>,
)
    ensures
        construction(
            reg,
            restored_node(n),
            match children {
                Some(body) => Some(restored_program(body)),
                None => None,
            },
        ) == restored_program(construction(reg, n, children)),
{
    let fields = declared_fields(reg, n.tag);
    lemma_restored_entries(fields, n.attributes, fields.len() as int);
    let made = construction(reg, n, children);
    let other = construction(
        reg,
        restored_node(n),
        match children {
            Some(body) => Some(restored_program(body)),
            None => None,
        },
    );
    assert(restored_attributes(Seq::<AttributeModel>::empty()) =~= Seq::<AttributeModel>::empty());
    assert(other.len() == made.len());
    assert(other[0] == restored_statement(made[0]));
    if made.len() == 2 {
        assert(other[1] == restored_statement(made[1]));
    }
    assert(other =~= restored_program(made));
}

/// The program of a tree read back is the program read back: generating
/// from a node whose host expressions are read back gives what generating
/// from the node gives, with the host expressions of the program read back,
/// and fails alike. So every law on generated programs holds of what the
/// entry points return for tokens.
pub proof fn lemma_restored_node(reg: Seq<PropsModel>, n: NodeModel, mode: Mode)
    ensures
        emit_node(reg, restored_node(n), mode) == restored_result(emit_node(reg, n, mode)),
    decreases n, 0int,
{
    lemma_restored_problem(reg, n.tag, n.attributes, n.attributes.len() as int);
    lemma_restored_children(reg, n.children, n.children.len() as int, mode);
    assert(restored_items(n.children).len() == n.children.len());
    match emit_children(reg, n.children, n.children.len() as int, mode) {
        Err(e) => {},
        Ok(body) => {
            if mode == Mode::Construction {
                lemma_restored_construction(reg, n, Some(body));
            } else {
                lemma_restored_construction(reg, n, None);
                let open = seq![StatementModel::OpenChildren];
                let made = construction(reg, n, None);
                let register = seq![StatementModel::Register];
                lemma_restored_concat(open + body + made, register);
                lemma_restored_concat(open + body, made);
                lemma_restored_concat(open, body);
                assert(restored_program(open) == open);
                assert(restored_program(register) == register);
            }
        },
    }
}

/// The same for a child item.
pub proof fn lemma_restored_child(reg: Seq<PropsModel>, c: ChildModel, mode: Mode)
    ensures
        emit_child(reg, restored_child(c), mode) == restored_result(emit_child(reg, c, mode)),
    decreases c, 0int,
{
    match c {
        ChildModel::LiteralWidget(n) => {
            lemma_restored_node(reg, n, mode);
        },
        ChildModel::Expression(expr) => {
            let st = expression_statement(expr, mode);
            assert(restored_program(seq![st]) == seq![restored_statement(st)]);
        },
        ChildModel::Conditional(guard, inner) => {
            lemma_restored_child(reg, *inner, mode);
            match emit_child(reg, *inner, mode) {
                Ok(body) => {
                    let st = StatementModel::If { guard, body };
                    assert(restored_program(seq![st]) == seq![restored_statement(st)]);
                },
                Err(e) => {},
            }
        },
        ChildModel::Iteration(source, inner) => {
            lemma_restored_child(reg, *inner, mode);
            match emit_child(reg, *inner, mode) {
                Ok(body) => {
                    let st = StatementModel::For { source, body };
                    assert(restored_program(seq![st]) == seq![restored_statement(st)]);
                },
                Err(e) => {},
            }
        },
    }
}

/// The same for the first `k` of a sequence of child items.
pub proof fn lemma_restored_children(reg: Seq<PropsModel>, cs: Seq<ChildModel>, k: int, mode: Mode)
    requires
        0 <= k <= cs.len(),
    ensures
        emit_children(reg, restored_items(cs), k, mode) == restored_result(
            emit_children(reg, cs, k, mode),
        ),
    decreases cs, k,
{
    if k > 0 {
        lemma_restored_children(reg, cs, k - 1, mode);
        lemma_restored_child(reg, cs[k - 1], mode);
        assert(restored_items(cs)[k - 1] == restored_child(cs[k - 1]));
        match emit_children(reg, cs, k - 1, mode) {
            Ok(before) => match emit_child(reg, cs[k - 1], mode) {
                Ok(last) => {
                    lemma_restored_concat(before, last);
                },
                Err(e) => {},
            },
            Err(e) => {},
        }
    } else {
        assert(restored_program(Seq::<StatementModel>::empty()) == Seq::<StatementModel>::empty());
    }
}

/// The same for a whole program.
pub proof fn lemma_restored_emit(reg: Seq<PropsModel>, items: Seq<ChildModel>, mode: Mode, core: Seq<u8>)
    ensures
        emit_program(reg, restored_items(items), mode, core) == restored_result(
            emit_program(reg, items, mode, core),
        ),
{
    lemma_restored_children(reg, items, items.len() as int, mode);
    assert(restored_items(items).len() == items.len());
    match emit_children(reg, items, items.len() as int, mode) {
        Ok(body) => {
            if mode == Mode::Full {
                let init = seq![StatementModel::InitContext { core }];
                let commit = seq![StatementModel::Commit];
                lemma_restored_concat(init + body, commit);
                lemma_restored_concat(init, body);
                assert(restored_program(init) == init);
                assert(restored_program(commit) == commit);
            }
        },
        Err(e) => {},
    }
}

} // verus!
