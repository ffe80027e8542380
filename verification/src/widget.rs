//! The widget tree that markup parses to, and its mathematical model.

use vstd::prelude::*;

verus! {

/// What an attribute carries.
#[derive(Clone, Debug, PartialEq, Eq)]
pub enum AttributeValue {
    /// A host expression whose value is copied into the property.
    Literal(Vec<u8>),
    /// A host expression whose fields are merged into the node's attributes.
    Spread(Vec<u8>),
    /// A callable host expression, bound without copying its value.
    Handler(Vec<u8>),
}

/// One entry of a node's attribute mapping.
#[derive(Clone, Debug, PartialEq, Eq)]
pub struct Attribute {
    pub name: Vec<u8>,
    pub value: AttributeValue,
}

/// A node of the widget tree.
#[derive(Debug, PartialEq, Eq)]
pub struct WidgetNode {
    pub tag: Vec<u8>,
    pub attributes: Vec<Attribute>,
    pub children: Vec<ChildItem>,
    pub key: Option<Vec<u8>>,
}

/// One item of a node's child sequence.
#[derive(Debug, PartialEq, Eq)]
pub enum ChildItem {
    /// A nested widget.
    LiteralWidget(WidgetNode),
    /// A host expression that yields any number of widgets when it runs.
    Expression(Vec<u8>),
    /// A guard and the child built when the guard holds.
    Conditional(Vec<u8>, Box<ChildItem>),
    /// An iteration source and the child built once per element.
    Iteration(Vec<u8>, Box<ChildItem>),
}

/// The model of an [`AttributeValue`]: the same cases over byte sequences.
pub enum ValueModel {
    Literal(Seq<u8>),
    Spread(Seq<u8>),
    Handler(Seq<u8>),
}

/// The model of an [`Attribute`].
pub struct AttributeModel {
    pub name: Seq<u8>,
    pub value: ValueModel,
}

/// The model of a [`WidgetNode`].
pub struct NodeModel {
    pub tag: Seq<u8>,
    pub attributes: Seq<AttributeModel>,
    pub children: Seq<ChildModel>,
    pub key: Option<Seq<u8>>,
}

/// The model of a [`ChildItem`].
pub enum ChildModel {
    LiteralWidget(NodeModel),
    Expression(Seq<u8>),
    Conditional(Seq<u8>, Box<ChildModel>),
    Iteration(Seq<u8>, Box<ChildModel>),
}

impl View for AttributeValue {
    type V = ValueModel;

    open spec fn view(&self) -> ValueModel {
        match *self {
            AttributeValue::Literal(e) => ValueModel::Literal(e@),
            AttributeValue::Spread(e) => ValueModel::Spread(e@),
            AttributeValue::Handler(e) => ValueModel::Handler(e@),
        }
    }
}

impl View for Attribute {
    type V = AttributeModel;

    open spec fn view(&self) -> AttributeModel {
        AttributeModel { name: self.name@, value: self.value@ }
    }
}

/// The models of the entries of a mapping, in order.
pub open spec fn attributes_view(s: Seq<Attribute>) -> Seq<AttributeModel> {
    Seq::new(s.len(), |i: int| s[i]@)
}

/// The model of a node: its texts as byte sequences, its attributes and
/// children by their models.
pub open spec fn node_view(n: WidgetNode) -> NodeModel
    decreases n,
{
    NodeModel {
        tag: n.tag@,
        attributes: attributes_view(n.attributes@),
        children: children_view(n.children@),
        key: match n.key {
            Some(k) => Some(k@),
            None => None,
        },
    }
}

/// The models of child items, in order.
pub open spec fn children_view(s: Seq<ChildItem>) -> Seq<ChildModel>
    decreases s,
{
    Seq::new(s.len(), |i: int| if 0 <= i < s.len() { child_view(s[i]) } else { arbitrary() })
}

/// The model of a child item.
pub open spec fn child_view(c: ChildItem) -> ChildModel
    decreases c,
{
    match c {
        ChildItem::LiteralWidget(n) => ChildModel::LiteralWidget(node_view(n)),
        ChildItem::Expression(e) => ChildModel::Expression(e@),
        ChildItem::Conditional(g, inner) => ChildModel::Conditional(g@, Box::new(child_view(*inner))),
        ChildItem::Iteration(src, inner) => ChildModel::Iteration(src@, Box::new(child_view(*inner))),
    }
}

impl View for WidgetNode {
    type V = NodeModel;

    open spec fn view(&self) -> NodeModel {
        node_view(*self)
    }
}

impl View for ChildItem {
    type V = ChildModel;

    open spec fn view(&self) -> ChildModel {
        child_view(*self)
    }
}

} // verus!
