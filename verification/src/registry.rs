//! What is assumed of widgets that were not declared.
//!
//! The generator resolves every attribute against a registry of declared
//! properties structures. A macro sees tokens, not types: of a widget that
//! was not declared to it, it can only assume that the widget has the
//! properties that the markup gives it, and leave it to the host to hold
//! the program to that when it compiles it. Here that assumption is made
//! in the open: the registry is extended by what the markup says of the
//! widgets that it does not hold, and the generator is then run with the
//! registry so extended. What is declared stays as declared, and an
//! attribute that a declared widget does not have stays unresolved.

use vstd::prelude::*;
use crate::codegen::{
    attribute_problem, declared_fields, emit_child, emit_children, emit_node, emit_program,
    field_index, find_props, first_problem, has_field, lookup, registry_view, resolves, Mode,
};
use crate::error::GenerationErrorKind;
use crate::component::{fields_view, ComponentProps, PropField, PropFieldModel, PropsModel};
use crate::text::copy_bytes;
use crate::widget::{
    attributes_view, children_view, Attribute, AttributeModel, AttributeValue, ChildItem,
    ChildModel, NodeModel, WidgetNode,
};

verus! {

/// The fields with one more for each of the first `n` attributes that is
/// no spread and whose name no field has yet: of unknown type, and not
/// required.
pub open spec fn added_fields(fields: Seq<PropFieldModel>, attrs: Seq<AttributeModel>, n: int) -> Seq<
    PropFieldModel,
>
    decreases n,
{
    if n <= 0 || n > attrs.len() {
        fields
    } else {
        let before = added_fields(fields, attrs, n - 1);
        let a = attrs[n - 1];
        if a.value is Spread || field_index(before, a.name, 0) < before.len() {
            before
        } else {
            before.push(PropFieldModel { name: a.name, ty: Seq::empty(), required: false })
        }
    }
}

/// The registry with what one node says of its widget, where the widget is
/// not among the first `known` entries, which are declared: the entry
/// assumed for the widget holds the attributes that the node gives it.
pub open spec fn with_node(reg: Seq<PropsModel>, known: int, n: NodeModel) -> Seq<PropsModel> {
    let i = lookup(reg, n.tag, 0);
    if i < known {
        reg
    } else if i < reg.len() {
        reg.update(
            i,
            PropsModel {
                name: reg[i].name,
                fields: added_fields(reg[i].fields, n.attributes, n.attributes.len() as int),
                focusable: reg[i].focusable,
            },
        )
    } else {
        reg.push(
            PropsModel {
                name: n.tag,
                fields: added_fields(Seq::empty(), n.attributes, n.attributes.len() as int),
                focusable: false,
            },
        )
    }
}

/// The registry with what a node and the nodes below it say of their
/// widgets.
pub open spec fn assumed_node(reg: Seq<PropsModel>, known: int, n: NodeModel) -> Seq<PropsModel>
    decreases n, 0int,
{
    assumed_children(with_node(reg, known, n), known, n.children, n.children.len() as int)
}

/// The same for a child item.
pub open spec fn assumed_child(reg: Seq<PropsModel>, known: int, c: ChildModel) -> Seq<PropsModel>
    decreases c, 0int,
{
    match c {
        ChildModel::LiteralWidget(n) => assumed_node(reg, known, n),
        ChildModel::Expression(_) => reg,
        ChildModel::Conditional(_, inner) => assumed_child(reg, known, *inner),
        ChildModel::Iteration(_, inner) => assumed_child(reg, known, *inner),
    }
}

/// The same for the first `k` child items, in order.
pub open spec fn assumed_children(reg: Seq<PropsModel>, known: int, cs: Seq<ChildModel>, k: int) -> Seq<
    PropsModel,
>
    decreases cs, k,
{
    if k <= 0 || k > cs.len() {
        reg
    } else {
        assumed_child(assumed_children(reg, known, cs, k - 1), known, cs[k - 1])
    }
}

/// The registry extended by what a markup says of the widgets that the
/// registry does not hold.
pub open spec fn assumed(reg: Seq<PropsModel>, items: Seq<ChildModel>) -> Seq<PropsModel> {
    assumed_children(reg, reg.len() as int, items, items.len() as int)
}

/// What is declared stays as declared: assuming adds entries after the
/// declared ones and changes only entries that it has added.
pub proof fn lemma_declared_stay(reg: Seq<PropsModel>, known: int, cs: Seq<ChildModel>, k: int)
    requires
        0 <= known <= reg.len(),
        0 <= k <= cs.len(),
    ensures
        assumed_children(reg, known, cs, k).len() >= reg.len(),
        assumed_children(reg, known, cs, k).subrange(0, known) == reg.subrange(0, known),
    decreases cs, k,
{
    if k > 0 {
        lemma_declared_stay(reg, known, cs, k - 1);
        lemma_declared_stay_child(assumed_children(reg, known, cs, k - 1), known, cs[k - 1]);
    }
}

proof fn lemma_lookup_bounds(reg: Seq<PropsModel>, tag: Seq<u8>, from: int)
    requires
        0 <= from <= reg.len(),
    ensures
        from <= lookup(reg, tag, from) <= reg.len(),
    decreases reg.len() - from,
{
    if from < reg.len() && reg[from].name != tag {
        lemma_lookup_bounds(reg, tag, from + 1);
    }
}

proof fn lemma_declared_stay_child(reg: Seq<PropsModel>, known: int, c: ChildModel)
    requires
        0 <= known <= reg.len(),
    ensures
        assumed_child(reg, known, c).len() >= reg.len(),
        assumed_child(reg, known, c).subrange(0, known) == reg.subrange(0, known),
    decreases c, 0int,
{
    match c {
        ChildModel::LiteralWidget(n) => {
            let first = with_node(reg, known, n);
            lemma_lookup_bounds(reg, n.tag, 0);
            assert(first.len() >= reg.len());
            assert(first.subrange(0, known) =~= reg.subrange(0, known));
            lemma_declared_stay(first, known, n.children, n.children.len() as int);
            assert(assumed_child(reg, known, c) == assumed_node(reg, known, n));
            assert(assumed_node(reg, known, n) == assumed_children(
                first,
                known,
                n.children,
                n.children.len() as int,
            ));
        },
        ChildModel::Expression(_) => {},
        ChildModel::Conditional(_, inner) => {
            lemma_declared_stay_child(reg, known, *inner);
        },
        ChildModel::Iteration(_, inner) => {
            lemma_declared_stay_child(reg, known, *inner);
        },
    }
}

fn copy_fields(fields: &Vec<PropField>) -> (out: Vec<PropField>)
    ensures
        fields_view(out@) == fields_view(fields@),
{
    let mut out: Vec<PropField> = Vec::new();
    let mut i: usize = 0;
    while i < fields.len()
        invariant
            i <= fields.len(),
            out.len() == i,
            forall|j: int| 0 <= j < i ==> (#[trigger] out[j])@ == fields[j]@,
        decreases fields.len() - i,
    {
        out.push(
            PropField {
                name: copy_bytes(fields[i].name.as_slice()),
                ty: copy_bytes(fields[i].ty.as_slice()),
                required: fields[i].required,
            },
        );
        i += 1;
    }
    assert(fields_view(out@) =~= fields_view(fields@));
    out
}

fn add_fields(fields: &mut Vec<PropField>, attrs: &Vec<Attribute>)
    ensures
        fields_view(final(fields)@) == added_fields(
            fields_view(old(fields)@),
            attributes_view(attrs@),
            attrs.len() as int,
        ),
{
    let ghost start = fields_view(fields@);
    let ghost model = attributes_view(attrs@);
    let mut i: usize = 0;
    while i < attrs.len()
        invariant
            i <= attrs.len(),
            start == fields_view(old(fields)@),
            model == attributes_view(attrs@),
            fields_view(fields@) == added_fields(start, model, i as int),
        decreases attrs.len() - i,
    {
        let a = &attrs[i];
        assert(model[i as int] == a@);
        let spread = match &a.value {
            AttributeValue::Spread(_) => true,
            _ => false,
        };
        if !spread && !has_field(fields, a.name.as_slice()) {
            let ghost before = fields_view(fields@);
            let field = PropField {
                name: copy_bytes(a.name.as_slice()),
                ty: Vec::new(),
                required: false,
            };
            let ghost added = field@;
            fields.push(field);
            assert(added.ty =~= Seq::<u8>::empty());
            assert(fields_view(fields@) == before.push(added));
        }
        i += 1;
    }
}

fn assume_node(reg: &mut Vec<ComponentProps>, known: usize, n: &WidgetNode)
    requires
        known <= old(reg).len(),
    ensures
        registry_view(final(reg)@) == assumed_node(registry_view(old(reg)@), known as int, n@),
        final(reg).len() >= old(reg).len(),
    decreases n,
{
    let ghost before = registry_view(reg@);
    match find_props(reg, n.tag.as_slice()) {
        Some(i) => {
            if i >= known {
                assert(before[i as int] == reg[i as int]@);
                let mut fields = copy_fields(&reg[i].fields);
                add_fields(&mut fields, &n.attributes);
                let entry = ComponentProps {
                    name: copy_bytes(reg[i].name.as_slice()),
                    fields,
                    focusable: reg[i].focusable,
                };
                let ghost model = entry@;
                reg.set(i, entry);
                assert(registry_view(reg@) == before.update(i as int, model));
            }
        },
        None => {
            let mut fields: Vec<PropField> = Vec::new();
            assert(fields_view(fields@) == Seq::<PropFieldModel>::empty());
            add_fields(&mut fields, &n.attributes);
            let entry = ComponentProps {
                name: copy_bytes(n.tag.as_slice()),
                fields,
                focusable: false,
            };
            let ghost model = entry@;
            reg.push(entry);
            assert(registry_view(reg@) == before.push(model));
        },
    }
    assert(registry_view(reg@) == with_node(before, known as int, n@));
    assume_children(reg, known, &n.children);
}

fn assume_child(reg: &mut Vec<ComponentProps>, known: usize, c: &ChildItem)
    requires
        known <= old(reg).len(),
    ensures
        registry_view(final(reg)@) == assumed_child(registry_view(old(reg)@), known as int, c@),
        final(reg).len() >= old(reg).len(),
    decreases c,
{
    match c {
        ChildItem::LiteralWidget(n) => {
            assume_node(reg, known, n);
        },
        ChildItem::Expression(_) => {},
        ChildItem::Conditional(_, inner) => {
            assume_child(reg, known, inner);
        },
        ChildItem::Iteration(_, inner) => {
            assume_child(reg, known, inner);
        },
    }
}

fn assume_children(reg: &mut Vec<ComponentProps>, known: usize, cs: &Vec<ChildItem>)
    requires
        known <= old(reg).len(),
    ensures
        registry_view(final(reg)@) == assumed_children(
            registry_view(old(reg)@),
            known as int,
            children_view(cs@),
            cs.len() as int,
        ),
        final(reg).len() >= old(reg).len(),
    decreases cs,
{
    let ghost start = registry_view(reg@);
    let ghost model = children_view(cs@);
    let mut i: usize = 0;
    while i < cs.len()
        invariant
            i <= cs.len(),
            start == registry_view(old(reg)@),
            model == children_view(cs@),
            known <= old(reg).len() <= reg.len(),
            registry_view(reg@) == assumed_children(start, known as int, model, i as int),
        decreases cs.len() - i,
    {
        assert(model[i as int] == cs[i as int]@);
        assume_child(reg, known, &cs[i]);
        i += 1;
    }
}

/// Extends a registry by what a markup says of the widgets that the
/// registry does not hold: each of them gets an entry that declares the
/// attributes that the markup gives it, in the order met.
pub fn extend_by(registry: &Vec<ComponentProps>, items: &Vec<ChildItem>) -> (out: Vec<ComponentProps>)
    ensures
        registry_view(out@) == assumed(registry_view(registry@), children_view(items@)),
{
    let mut out: Vec<ComponentProps> = Vec::new();
    let mut i: usize = 0;
    while i < registry.len()
        invariant
            i <= registry.len(),
            out.len() == i,
            forall|j: int| 0 <= j < i ==> (#[trigger] out[j])@ == registry[j]@,
        decreases registry.len() - i,
    {
        let ghost before = out@;
        let entry = ComponentProps {
            name: copy_bytes(registry[i].name.as_slice()),
            fields: copy_fields(&registry[i].fields),
            focusable: registry[i].focusable,
        };
        out.push(entry);
        i += 1;
    }
    assert(registry_view(out@) =~= registry_view(registry@));
    assume_children(&mut out, registry.len(), items);
    out
}


/// The second list of fields starts with the first.
pub open spec fn extends_fields(f1: Seq<PropFieldModel>, f2: Seq<PropFieldModel>) -> bool {
    f1.len() <= f2.len() && f2.subrange(0, f1.len() as int) == f1
}

/// The second registry has grown out of the first: it holds the entries of
/// the first under the same names, each with the fields it had and maybe
/// more, and maybe more entries after them.
pub open spec fn grown(r1: Seq<PropsModel>, r2: Seq<PropsModel>) -> bool {
    &&& r1.len() <= r2.len()
    &&& forall|i: int|
        0 <= i < r1.len() ==> (#[trigger] r2[i]).name == r1[i].name && extends_fields(
            r1[i].fields,
            r2[i].fields,
        )
}

proof fn lemma_grown_on(r1: Seq<PropsModel>, r2: Seq<PropsModel>, r3: Seq<PropsModel>)
    requires
        grown(r1, r2),
        grown(r2, r3),
    ensures
        grown(r1, r3),
{
    assert forall|i: int| 0 <= i < r1.len() implies (#[trigger] r3[i]).name == r1[i].name
        && extends_fields(r1[i].fields, r3[i].fields) by {
        assert(r2[i].name == r1[i].name);
        let f1 = r1[i].fields;
        let f2 = r2[i].fields;
        let f3 = r3[i].fields;
        assert(extends_fields(f1, f2) && extends_fields(f2, f3));
        assert forall|j: int| 0 <= j < f1.len() implies f3[j] == f1[j] by {
            assert(f3.subrange(0, f2.len() as int)[j] == f2[j]);
            assert(f2.subrange(0, f1.len() as int)[j] == f1[j]);
        }
        assert(f3.subrange(0, f1.len() as int) =~= f1);
    }
}

proof fn lemma_grown_self(r: Seq<PropsModel>)
    ensures
        grown(r, r),
{
    assert forall|i: int| 0 <= i < r.len() implies extends_fields(
        (#[trigger] r[i]).fields,
        r[i].fields,
    ) by {
        assert(r[i].fields.subrange(0, r[i].fields.len() as int) == r[i].fields);
    }
}

proof fn lemma_field_index_bounds(fields: Seq<PropFieldModel>, name: Seq<u8>, from: int)
    requires
        0 <= from <= fields.len(),
    ensures
        from <= field_index(fields, name, from) <= fields.len(),
        field_index(fields, name, from) < fields.len() ==> fields[field_index(fields, name, from)].name
            == name,
    decreases fields.len() - from,
{
    if from < fields.len() && fields[from].name != name {
        lemma_field_index_bounds(fields, name, from + 1);
    }
}

proof fn lemma_field_index_stays(
    f1: Seq<PropFieldModel>,
    f2: Seq<PropFieldModel>,
    name: Seq<u8>,
    from: int,
)
    requires
        extends_fields(f1, f2),
        0 <= from <= f1.len(),
        field_index(f1, name, from) < f1.len(),
    ensures
        field_index(f2, name, from) == field_index(f1, name, from),
    decreases f1.len() - from,
{
    if from < f1.len() {
        assert(f2.subrange(0, f1.len() as int)[from] == f2[from]);
        if f1[from].name != name {
            lemma_field_index_stays(f1, f2, name, from + 1);
        }
    }
}

proof fn lemma_field_index_pushed(fields: Seq<PropFieldModel>, x: PropFieldModel, from: int)
    requires
        0 <= from <= fields.len(),
        field_index(fields, x.name, from) == fields.len(),
    ensures
        field_index(fields.push(x), x.name, from) == fields.len(),
    decreases fields.len() - from,
{
    if from < fields.len() {
        assert(fields.push(x)[from] == fields[from]);
        lemma_field_index_bounds(fields, x.name, from + 1);
        lemma_field_index_pushed(fields, x, from + 1);
    } else {
        assert(fields.push(x)[from] == x);
    }
}

proof fn lemma_lookup_stays(r1: Seq<PropsModel>, r2: Seq<PropsModel>, tag: Seq<u8>, from: int)
    requires
        grown(r1, r2),
        0 <= from <= r1.len(),
        lookup(r1, tag, from) < r1.len(),
    ensures
        lookup(r2, tag, from) == lookup(r1, tag, from),
    decreases r1.len() - from,
{
    if from < r1.len() {
        assert(r2[from].name == r1[from].name);
        if r1[from].name != tag {
            lemma_lookup_stays(r1, r2, tag, from + 1);
        }
    }
}

/// What resolves keeps resolving as a registry grows.
pub proof fn lemma_resolves_stays(r1: Seq<PropsModel>, r2: Seq<PropsModel>, tag: Seq<u8>, key: Seq<u8>)
    requires
        grown(r1, r2),
        resolves(r1, tag, key),
    ensures
        resolves(r2, tag, key),
{
    lemma_lookup_bounds(r1, tag, 0);
    let i = lookup(r1, tag, 0);
    if i < r1.len() {
        lemma_lookup_stays(r1, r2, tag, 0);
        assert(r2[i].name == r1[i].name);
        lemma_field_index_stays(r1[i].fields, r2[i].fields, key, 0);
    } else {
        assert(declared_fields(r1, tag) == Seq::<PropFieldModel>::empty());
    }
}

proof fn lemma_added_fields(fields: Seq<PropFieldModel>, attrs: Seq<AttributeModel>, n: int)
    requires
        0 <= n <= attrs.len(),
    ensures
        extends_fields(fields, added_fields(fields, attrs, n)),
        forall|i: int|
            0 <= i < n && !((#[trigger] attrs[i]).value is Spread) ==> field_index(
                added_fields(fields, attrs, n),
                attrs[i].name,
                0,
            ) < added_fields(fields, attrs, n).len(),
    decreases n,
{
    if n > 0 {
        lemma_added_fields(fields, attrs, n - 1);
        let before = added_fields(fields, attrs, n - 1);
        let now = added_fields(fields, attrs, n);
        let a = attrs[n - 1];
        lemma_field_index_bounds(before, a.name, 0);
        if now != before {
            let x = PropFieldModel { name: a.name, ty: Seq::empty(), required: false };
            lemma_field_index_pushed(before, x, 0);
            assert(now.subrange(0, before.len() as int) =~= before);
            assert(now.subrange(0, fields.len() as int) =~= fields) by {
                assert forall|j: int| 0 <= j < fields.len() implies now[j] == fields[j] by {
                    assert(before.subrange(0, fields.len() as int)[j] == fields[j]);
                }
            }
        }
        assert(extends_fields(before, now)) by {
            assert(now.subrange(0, before.len() as int) =~= before);
        }
        assert forall|i: int| 0 <= i < n && !((#[trigger] attrs[i]).value is Spread) implies field_index(
            now,
            attrs[i].name,
            0,
        ) < now.len() by {
            if i < n - 1 {
                lemma_field_index_stays(before, now, attrs[i].name, 0);
            }
        }
    } else {
        assert(fields.subrange(0, fields.len() as int) == fields);
    }
}

/// Every attribute of the node that is no spread resolves.
pub open spec fn attributes_resolve(reg: Seq<PropsModel>, n: NodeModel) -> bool {
    forall|i: int|
        0 <= i < n.attributes.len() && !((#[trigger] n.attributes[i]).value is Spread) ==> resolves(
            reg,
            n.tag,
            n.attributes[i].name,
        )
}

proof fn lemma_with_node(reg: Seq<PropsModel>, known: int, n: NodeModel)
    requires
        0 <= known <= reg.len(),
    ensures
        grown(reg, with_node(reg, known, n)),
        lookup(reg, n.tag, 0) >= known ==> attributes_resolve(with_node(reg, known, n), n),
{
    let w = with_node(reg, known, n);
    let i = lookup(reg, n.tag, 0);
    lemma_lookup_bounds(reg, n.tag, 0);
    lemma_lookup_found(reg, n.tag, 0);
    if i < known {
        lemma_grown_self(reg);
    } else if i < reg.len() {
        lemma_added_fields(reg[i].fields, n.attributes, n.attributes.len() as int);
        assert forall|j: int| 0 <= j < reg.len() implies (#[trigger] w[j]).name == reg[j].name
            && extends_fields(reg[j].fields, w[j].fields) by {
            if j != i {
                assert(reg[j].fields.subrange(0, reg[j].fields.len() as int) == reg[j].fields);
            }
        }
        lemma_lookup_stays(reg, w, n.tag, 0);
    } else {
        lemma_added_fields(Seq::empty(), n.attributes, n.attributes.len() as int);
        assert forall|j: int| 0 <= j < reg.len() implies (#[trigger] w[j]).name == reg[j].name
            && extends_fields(reg[j].fields, w[j].fields) by {
            assert(w[j] == reg[j]);
            assert(reg[j].fields.subrange(0, reg[j].fields.len() as int) == reg[j].fields);
        }
        lemma_lookup_pushed(reg, w[reg.len() as int], 0);
    }
}

proof fn lemma_lookup_found(reg: Seq<PropsModel>, tag: Seq<u8>, from: int)
    requires
        0 <= from <= reg.len(),
    ensures
        lookup(reg, tag, from) < reg.len() ==> reg[lookup(reg, tag, from)].name == tag,
    decreases reg.len() - from,
{
    if from < reg.len() && reg[from].name != tag {
        lemma_lookup_found(reg, tag, from + 1);
    }
}

proof fn lemma_lookup_pushed(reg: Seq<PropsModel>, x: PropsModel, from: int)
    requires
        0 <= from <= reg.len(),
        lookup(reg, x.name, from) == reg.len(),
    ensures
        lookup(reg.push(x), x.name, from) == reg.len(),
    decreases reg.len() - from,
{
    if from < reg.len() {
        assert(reg.push(x)[from] == reg[from]);
        lemma_lookup_bounds(reg, x.name, from + 1);
        lemma_lookup_pushed(reg, x, from + 1);
    } else {
        assert(reg.push(x)[from] == x);
    }
}

/// A node is covered by a registry: its widget is declared, or every
/// attribute that the node gives it resolves; and so for every node below
/// it.
pub open spec fn covered_node(reg: Seq<PropsModel>, known: int, n: NodeModel) -> bool
    decreases n, 0int,
{
    &&& lookup(reg, n.tag, 0) < known || attributes_resolve(reg, n)
    &&& forall|i: int|
        0 <= i < n.children.len() ==> covered_child(reg, known, #[trigger] n.children[i])
}

/// The same for a child item.
pub open spec fn covered_child(reg: Seq<PropsModel>, known: int, c: ChildModel) -> bool
    decreases c, 0int,
{
    match c {
        ChildModel::LiteralWidget(n) => covered_node(reg, known, n),
        ChildModel::Expression(_) => true,
        ChildModel::Conditional(_, inner) => covered_child(reg, known, *inner),
        ChildModel::Iteration(_, inner) => covered_child(reg, known, *inner),
    }
}

proof fn lemma_covered_stays(r1: Seq<PropsModel>, r2: Seq<PropsModel>, known: int, c: ChildModel)
    requires
        grown(r1, r2),
        0 <= known <= r1.len(),
        covered_child(r1, known, c),
    ensures
        covered_child(r2, known, c),
    decreases c, 0int,
{
    match c {
        ChildModel::LiteralWidget(n) => {
            assert(covered_node(r1, known, n));
            if lookup(r1, n.tag, 0) < known {
                lemma_lookup_stays(r1, r2, n.tag, 0);
            } else {
                assert forall|i: int|
                    0 <= i < n.attributes.len() && !((#[trigger] n.attributes[i]).value
                        is Spread) implies resolves(r2, n.tag, n.attributes[i].name) by {
                    lemma_resolves_stays(r1, r2, n.tag, n.attributes[i].name);
                }
            }
            assert forall|i: int| 0 <= i < n.children.len() implies covered_child(
                r2,
                known,
                #[trigger] n.children[i],
            ) by {
                lemma_covered_stays(r1, r2, known, n.children[i]);
            }
            assert(lookup(r2, n.tag, 0) < known || attributes_resolve(r2, n));
            assert(covered_node(r2, known, n));
        },
        ChildModel::Expression(_) => {},
        ChildModel::Conditional(_, inner) => {
            lemma_covered_stays(r1, r2, known, *inner);
        },
        ChildModel::Iteration(_, inner) => {
            lemma_covered_stays(r1, r2, known, *inner);
        },
    }
}

proof fn lemma_assumed_covers_child(reg: Seq<PropsModel>, known: int, c: ChildModel)
    requires
        0 <= known <= reg.len(),
    ensures
        grown(reg, assumed_child(reg, known, c)),
        covered_child(assumed_child(reg, known, c), known, c),
    decreases c, 0int,
{
    match c {
        ChildModel::LiteralWidget(n) => {
            let w = with_node(reg, known, n);
            let out = assumed_children(w, known, n.children, n.children.len() as int);
            assert(assumed_child(reg, known, c) == assumed_node(reg, known, n));
            assert(assumed_node(reg, known, n) == out);
            lemma_with_node(reg, known, n);
            lemma_assumed_covers_children(w, known, n.children, n.children.len() as int);
            lemma_grown_on(reg, w, out);
            if lookup(reg, n.tag, 0) < known {
                lemma_lookup_stays(reg, out, n.tag, 0);
            } else {
                assert forall|i: int|
                    0 <= i < n.attributes.len() && !((#[trigger] n.attributes[i]).value
                        is Spread) implies resolves(out, n.tag, n.attributes[i].name) by {
                    lemma_resolves_stays(w, out, n.tag, n.attributes[i].name);
                }
            }
            assert(covered_node(out, known, n));
        },
        ChildModel::Expression(_) => {
            lemma_grown_self(reg);
        },
        ChildModel::Conditional(_, inner) => {
            lemma_assumed_covers_child(reg, known, *inner);
        },
        ChildModel::Iteration(_, inner) => {
            lemma_assumed_covers_child(reg, known, *inner);
        },
    }
}

proof fn lemma_assumed_covers_children(reg: Seq<PropsModel>, known: int, cs: Seq<ChildModel>, k: int)
    requires
        0 <= known <= reg.len(),
        0 <= k <= cs.len(),
    ensures
        grown(reg, assumed_children(reg, known, cs, k)),
        forall|i: int|
            0 <= i < k ==> covered_child(assumed_children(reg, known, cs, k), known, #[trigger] cs[i]),
    decreases cs, k,
{
    if k > 0 {
        let before = assumed_children(reg, known, cs, k - 1);
        let out = assumed_children(reg, known, cs, k);
        lemma_assumed_covers_children(reg, known, cs, k - 1);
        lemma_assumed_covers_child(before, known, cs[k - 1]);
        lemma_grown_on(reg, before, out);
        assert forall|i: int| 0 <= i < k implies covered_child(out, known, #[trigger] cs[i]) by {
            if i < k - 1 {
                lemma_covered_stays(before, out, known, cs[i]);
            }
        }
    } else {
        lemma_grown_self(reg);
    }
}

proof fn lemma_problem_is_of_the_tag(
    reg: Seq<PropsModel>,
    tag: Seq<u8>,
    attrs: Seq<AttributeModel>,
    n: int,
)
    requires
        0 <= n <= attrs.len(),
    ensures
        first_problem(reg, tag, attrs, n) matches Some(e) ==> e.subject == tag && (e.kind
            == GenerationErrorKind::UnresolvedAttribute ==> exists|i: int|
            0 <= i < n && !((#[trigger] attrs[i]).value is Spread) && !resolves(
                reg,
                tag,
                attrs[i].name,
            )),
    decreases n,
{
    if n > 0 {
        lemma_problem_is_of_the_tag(reg, tag, attrs, n - 1);
        if first_problem(reg, tag, attrs, n - 1) is None {
            let a = attrs[n - 1];
            if attribute_problem(reg, tag, a) is Some && !(a.value is Spread) {
                assert(!resolves(reg, tag, attrs[n - 1].name));
            }
        }
    }
}

/// The kind of failure that assuming is there to spare: an attribute that
/// does not resolve on a widget that is not among the first `known`
/// entries of the registry.
pub open spec fn spared(reg: Seq<PropsModel>, known: int, r: Result<
    Seq<crate::codegen::StatementModel>,
    crate::error::GenerationErrorModel,
>) -> bool {
    r matches Err(e) ==> e.kind == GenerationErrorKind::UnresolvedAttribute ==> lookup(
        reg,
        e.subject,
        0,
    ) < known
}

proof fn lemma_covered_node_emits(reg: Seq<PropsModel>, known: int, n: NodeModel, mode: Mode)
    requires
        covered_node(reg, known, n),
    ensures
        spared(reg, known, emit_node(reg, n, mode)),
    decreases n, 0int,
{
    lemma_problem_is_of_the_tag(reg, n.tag, n.attributes, n.attributes.len() as int);
    lemma_covered_children_emit(reg, known, n.children, n.children.len() as int, mode);
}

proof fn lemma_covered_child_emits(reg: Seq<PropsModel>, known: int, c: ChildModel, mode: Mode)
    requires
        covered_child(reg, known, c),
    ensures
        spared(reg, known, emit_child(reg, c, mode)),
    decreases c, 0int,
{
    match c {
        ChildModel::LiteralWidget(n) => {
            lemma_covered_node_emits(reg, known, n, mode);
        },
        ChildModel::Expression(_) => {},
        ChildModel::Conditional(_, inner) => {
            lemma_covered_child_emits(reg, known, *inner, mode);
        },
        ChildModel::Iteration(_, inner) => {
            lemma_covered_child_emits(reg, known, *inner, mode);
        },
    }
}

proof fn lemma_covered_children_emit(
    reg: Seq<PropsModel>,
    known: int,
    cs: Seq<ChildModel>,
    k: int,
    mode: Mode,
)
    requires
        0 <= k <= cs.len(),
        forall|i: int| 0 <= i < k ==> covered_child(reg, known, #[trigger] cs[i]),
    ensures
        spared(reg, known, emit_children(reg, cs, k, mode)),
    decreases cs, k,
{
    if k > 0 {
        lemma_covered_children_emit(reg, known, cs, k - 1, mode);
        lemma_covered_child_emits(reg, known, cs[k - 1], mode);
    }
}

/// Assuming spares what it is there to spare, and no more: with the
/// registry extended by what a markup says, generating from that markup
/// reports an unresolved attribute only on a widget that was declared.
pub proof fn lemma_only_declared_fail_to_resolve(
    reg: Seq<PropsModel>,
    items: Seq<ChildModel>,
    mode: Mode,
    core: Seq<u8>,
)
    ensures
        emit_program(assumed(reg, items), items, mode, core) matches Err(e) ==> e.kind
            == GenerationErrorKind::UnresolvedAttribute ==> lookup(reg, e.subject, 0) < reg.len(),
{
    let known = reg.len() as int;
    let out = assumed(reg, items);
    lemma_assumed_covers_children(reg, known, items, items.len() as int);
    lemma_covered_children_emit(out, known, items, items.len() as int, mode);
    match emit_program(out, items, mode, core) {
        Err(e) => {
            if e.kind == GenerationErrorKind::UnresolvedAttribute {
                assert(lookup(out, e.subject, 0) < known);
                lemma_lookup_back(reg, out, e.subject, 0);
            }
        },
        Ok(_) => {},
    }
}

proof fn lemma_lookup_back(r1: Seq<PropsModel>, r2: Seq<PropsModel>, tag: Seq<u8>, from: int)
    requires
        grown(r1, r2),
        0 <= from <= r1.len(),
        lookup(r2, tag, from) < r1.len(),
    ensures
        lookup(r1, tag, from) == lookup(r2, tag, from),
    decreases r1.len() - from,
{
    lemma_lookup_bounds(r2, tag, from);
    if from < r1.len() {
        assert(r2[from].name == r1[from].name);
        if r1[from].name != tag {
            lemma_lookup_back(r1, r2, tag, from + 1);
        }
    }
}

} // verus!
