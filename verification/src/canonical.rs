//! The canonical form of a widget tree: the markup that a tree is written
//! back to, and the trees that markup can stand for.

use vstd::prelude::*;
use crate::attribute::{record_fields, value_of};
use crate::parser::{key_name, keyword_for, keyword_if, value_text};
use crate::text::{
    append, balanced, is_ident, is_space, CLOSE_BRACE, DOT, EQUALS, GT, LT, OPEN_BRACE, SLASH, SPACE,
};
use crate::widget::{
    attributes_view, children_view, Attribute, AttributeModel, AttributeValue, ChildItem,
    ChildModel, NodeModel, ValueModel, WidgetNode,
};

verus! {

/// The entry that writes a key back as the attribute it was taken from.
pub open spec fn key_entry(key: Option<Seq<u8>>) -> Seq<AttributeModel> {
    match key {
        Some(k) => seq![AttributeModel { name: key_name(), value: value_of(k) }],
        None => Seq::empty(),
    }
}

/// The attributes that a node is written with: its own, then its key.
pub open spec fn written(n: NodeModel) -> Seq<AttributeModel> {
    n.attributes + key_entry(n.key)
}

/// One attribute: ` {...source}` for a spread, ` name={value}` otherwise.
pub open spec fn attribute_text(a: AttributeModel) -> Seq<u8> {
    match a.value {
        ValueModel::Spread(source) => seq![SPACE, OPEN_BRACE, DOT, DOT, DOT] + source + seq![
            CLOSE_BRACE,
        ],
        _ => seq![SPACE] + a.name + seq![EQUALS, OPEN_BRACE] + value_text(a.value) + seq![
            CLOSE_BRACE,
        ],
    }
}

/// The attributes from index `from` on, one after the other.
pub open spec fn attributes_text(attrs: Seq<AttributeModel>, from: int) -> Seq<u8>
    decreases attrs.len() - from,
{
    if from < 0 || from >= attrs.len() {
        Seq::empty()
    } else {
        attribute_text(attrs[from]) + attributes_text(attrs, from + 1)
    }
}

/// A node: self-closing when it has no children.
pub open spec fn node_text(n: NodeModel) -> Seq<u8>
    decreases n, 0int,
{
    seq![LT] + n.tag + attributes_text(written(n), 0) + if n.children.len() == 0 {
        seq![SLASH, GT]
    } else {
        seq![GT] + items_text(n.children, 0) + seq![LT, SLASH] + n.tag + seq![GT]
    }
}

/// A child item.
pub open spec fn child_text(c: ChildModel) -> Seq<u8>
    decreases c, 0int,
{
    match c {
        ChildModel::LiteralWidget(n) => node_text(n),
        ChildModel::Expression(e) => seq![OPEN_BRACE] + e + seq![CLOSE_BRACE],
        ChildModel::Conditional(guard, inner) => seq![OPEN_BRACE, 0x69u8, 0x66u8, SPACE] + guard
            + seq![SPACE, OPEN_BRACE] + child_text(*inner) + seq![CLOSE_BRACE, CLOSE_BRACE],
        ChildModel::Iteration(source, inner) => seq![OPEN_BRACE, 0x66u8, 0x6fu8, 0x72u8, SPACE]
            + source + seq![SPACE, OPEN_BRACE] + child_text(*inner) + seq![
            CLOSE_BRACE,
            CLOSE_BRACE,
        ],
    }
}

/// The child items from index `from` on, one after the other.
pub open spec fn items_text(items: Seq<ChildModel>, from: int) -> Seq<u8>
    decreases items, items.len() - from,
{
    if from < 0 || from >= items.len() {
        Seq::empty()
    } else {
        child_text(items[from]) + items_text(items, from + 1)
    }
}

/// The canonical markup of the top-level items of a tree.
pub open spec fn canonical(items: Seq<ChildModel>) -> Seq<u8> {
    items_text(items, 0)
}

/// The head of a control form as the parser hands it out: not empty, free of
/// braces, and without white space at either end.
pub open spec fn head_ok(head: Seq<u8>) -> bool {
    &&& head.len() > 0
    &&& !is_space(head[0])
    &&& !is_space(head.last())
    &&& forall|i: int|
        0 <= i < head.len() ==> (#[trigger] head[i]) != OPEN_BRACE && head[i] != CLOSE_BRACE
}

/// An expression child as the parser hands it out: braces balance in it,
/// and it does not start as a control form does.
pub open spec fn expression_ok(e: Seq<u8>) -> bool {
    &&& balanced(e)
    &&& !keyword_if(e.push(CLOSE_BRACE), 0)
    &&& !keyword_for(e.push(CLOSE_BRACE), 0)
}

/// An attribute as the binder hands it out.
pub open spec fn attribute_ok(a: AttributeModel) -> bool {
    match a.value {
        ValueModel::Spread(source) => a.name.len() == 0 && balanced(source) && record_fields(
            source,
        ) is None,
        _ => is_ident(a.name) && balanced(value_text(a.value)) && a.value == value_of(
            value_text(a.value),
        ),
    }
}

/// An attribute mapping as the binder hands it out: only its first entry may
/// be a spread, and no two entries have one name.
pub open spec fn attributes_ok(attrs: Seq<AttributeModel>) -> bool {
    &&& forall|i: int| 0 <= i < attrs.len() ==> attribute_ok(#[trigger] attrs[i])
    &&& forall|i: int| 0 < i < attrs.len() ==> !((#[trigger] attrs[i]).value is Spread)
    &&& forall|i: int, j: int|
        0 <= i < j < attrs.len() ==> (#[trigger] attrs[i]).name != (#[trigger] attrs[j]).name
}

/// A node as the parser hands it out.
pub open spec fn node_ok(n: NodeModel) -> bool
    decreases n, 0int,
{
    &&& is_ident(n.tag)
    &&& attributes_ok(n.attributes)
    &&& forall|i: int| 0 <= i < n.attributes.len() ==> (#[trigger] n.attributes[i]).name != key_name()
    &&& (n.key matches Some(k) ==> balanced(k))
    &&& items_ok(n.children)
}

/// A child item as the parser hands it out.
pub open spec fn child_ok(c: ChildModel) -> bool
    decreases c, 0int,
{
    match c {
        ChildModel::LiteralWidget(n) => node_ok(n),
        ChildModel::Expression(e) => expression_ok(e),
        ChildModel::Conditional(guard, inner) => head_ok(guard) && child_ok(*inner),
        ChildModel::Iteration(source, inner) => head_ok(source) && child_ok(*inner),
    }
}

/// Child items as the parser hands them out.
pub open spec fn items_ok(items: Seq<ChildModel>) -> bool
    decreases items, 1int,
{
    forall|i: int| 0 <= i < items.len() ==> child_ok(#[trigger] items[i])
}

fn put_named(out: &mut Vec<u8>, name: &[u8], value: &[u8])
    ensures
        final(out)@ == old(out)@ + (seq![SPACE] + name@ + seq![EQUALS, OPEN_BRACE] + value@ + seq![
            CLOSE_BRACE,
        ]),
{
    let ghost before = out@;
    out.push(SPACE);
    append(out, name);
    out.push(EQUALS);
    out.push(OPEN_BRACE);
    append(out, value);
    out.push(CLOSE_BRACE);
    assert(out@ == before + (seq![SPACE] + name@ + seq![EQUALS, OPEN_BRACE] + value@ + seq![
        CLOSE_BRACE,
    ]));
}

fn put_attribute(out: &mut Vec<u8>, a: &Attribute)
    ensures
        final(out)@ == old(out)@ + attribute_text(a@),
{
    let ghost before = out@;
    match &a.value {
        AttributeValue::Spread(source) => {
            out.push(SPACE);
            out.push(OPEN_BRACE);
            out.push(DOT);
            out.push(DOT);
            out.push(DOT);
            append(out, source.as_slice());
            out.push(CLOSE_BRACE);
            assert(out@ == before + attribute_text(a@));
        },
        AttributeValue::Literal(e) => {
            put_named(out, a.name.as_slice(), e.as_slice());
        },
        AttributeValue::Handler(e) => {
            put_named(out, a.name.as_slice(), e.as_slice());
        },
    }
}

fn write_attributes(n: &WidgetNode, out: &mut Vec<u8>)
    ensures
        final(out)@ == old(out)@ + attributes_text(written(n@), 0),
{
    let ghost head = out@;
    let ghost w = written(n@);
    let mut i: usize = 0;
    while i < n.attributes.len()
        invariant
            i <= n.attributes.len(),
            w == written(n@),
            n@.attributes == attributes_view(n.attributes@),
            head + attributes_text(w, 0) == out@ + attributes_text(w, i as int),
        decreases n.attributes.len() - i,
    {
        let ghost so_far = out@;
        assert(w[i as int] == n.attributes[i as int]@);
        put_attribute(out, &n.attributes[i]);
        assert(so_far + (attribute_text(w[i as int]) + attributes_text(w, i + 1)) == (so_far
            + attribute_text(w[i as int])) + attributes_text(w, i + 1));
        i += 1;
    }
    let ghost so_far = out@;
    match &n.key {
        Some(k) => {
            let name: Vec<u8> = vec![0x6b, 0x65, 0x79];
            assert(name@ =~= key_name());
            put_named(out, name.as_slice(), k.as_slice());
            assert(w[n.attributes.len() as int] == key_entry(n@.key)[0]);
            assert(attributes_text(w, n.attributes.len() + 1) == Seq::<u8>::empty());
            assert(attribute_text(w[n.attributes.len() as int]) + Seq::<u8>::empty()
                == attribute_text(w[n.attributes.len() as int]));
        },
        None => {
            assert(w == n@.attributes);
            assert(so_far + Seq::<u8>::empty() == so_far);
        },
    }
}

fn write_node(n: &WidgetNode, out: &mut Vec<u8>)
    ensures
        final(out)@ == old(out)@ + node_text(n@),
    decreases n,
{
    let ghost before = out@;
    out.push(LT);
    append(out, n.tag.as_slice());
    write_attributes(n, out);
    let ghost opened = out@;
    assert(opened == before + (seq![LT] + n@.tag + attributes_text(written(n@), 0)));
    if n.children.len() == 0 {
        out.push(SLASH);
        out.push(GT);
        assert(out@ == opened + seq![SLASH, GT]);
        assert(out@ == before + node_text(n@));
    } else {
        out.push(GT);
        write_items(&n.children, out);
        out.push(LT);
        out.push(SLASH);
        append(out, n.tag.as_slice());
        out.push(GT);
        assert(out@ == opened + (seq![GT] + items_text(n@.children, 0) + seq![LT, SLASH] + n@.tag
            + seq![GT]));
        assert(out@ == before + node_text(n@));
    }
}

fn write_child(c: &ChildItem, out: &mut Vec<u8>)
    ensures
        final(out)@ == old(out)@ + child_text(c@),
    decreases c,
{
    let ghost before = out@;
    match c {
        ChildItem::LiteralWidget(n) => {
            write_node(n, out);
        },
        ChildItem::Expression(e) => {
            out.push(OPEN_BRACE);
            append(out, e.as_slice());
            out.push(CLOSE_BRACE);
            assert(out@ == before + child_text(c@));
        },
        ChildItem::Conditional(guard, inner) => {
            out.push(OPEN_BRACE);
            out.push(0x69);
            out.push(0x66);
            out.push(SPACE);
            append(out, guard.as_slice());
            out.push(SPACE);
            out.push(OPEN_BRACE);
            write_child(inner, out);
            out.push(CLOSE_BRACE);
            out.push(CLOSE_BRACE);
            assert(out@ == before + child_text(c@));
        },
        ChildItem::Iteration(source, inner) => {
            out.push(OPEN_BRACE);
            out.push(0x66);
            out.push(0x6f);
            out.push(0x72);
            out.push(SPACE);
            append(out, source.as_slice());
            out.push(SPACE);
            out.push(OPEN_BRACE);
            write_child(inner, out);
            out.push(CLOSE_BRACE);
            out.push(CLOSE_BRACE);
            assert(out@ == before + child_text(c@));
        },
    }
}

fn write_items(items: &Vec<ChildItem>, out: &mut Vec<u8>)
    ensures
        final(out)@ == old(out)@ + items_text(children_view(items@), 0),
    decreases items,
{
    let ghost before = out@;
    let ghost model = children_view(items@);
    let mut i: usize = 0;
    while i < items.len()
        invariant
            i <= items.len(),
            model == children_view(items@),
            before == old(out)@,
            before + items_text(model, 0) == out@ + items_text(model, i as int),
        decreases items.len() - i,
    {
        let ghost so_far = out@;
        assert(model[i as int] == items[i as int]@);
        write_child(&items[i], out);
        assert(so_far + (child_text(model[i as int]) + items_text(model, i + 1)) == (so_far
            + child_text(model[i as int])) + items_text(model, i + 1));
        i += 1;
    }
    assert(out@ + Seq::<u8>::empty() == out@);
}

/// Writes the top-level items of a tree back as markup, in canonical form.
pub fn serialize(items: &Vec<ChildItem>) -> (out: Vec<u8>)
    ensures
        out@ == canonical(children_view(items@)),
{
    let mut out: Vec<u8> = Vec::new();
    write_items(items, &mut out);
    assert(Seq::<u8>::empty() + canonical(children_view(items@)) == canonical(
        children_view(items@),
    ));
    out
}

} // verus!
