//! The properties capability: which field of a properties structure serves
//! each of the properties that every widget has.

use vstd::prelude::*;
use crate::component::names_view;
use crate::text::bytes_eq;

verus! {

/// A field of a structure, with the tags that its `prop_field` attributes
/// give it.
#[derive(Clone, Debug, PartialEq, Eq)]
pub struct TaggedField {
    pub member: Vec<u8>,
    pub tags: Vec<Vec<u8>>,
}

/// The model of a [`TaggedField`].
pub struct TaggedFieldModel {
    pub member: Seq<u8>,
    pub tags: Seq<Seq<u8>>,
}

impl View for TaggedField {
    type V = TaggedFieldModel;

    open spec fn view(&self) -> TaggedFieldModel {
        TaggedFieldModel { member: self.member@, tags: names_view(self.tags@) }
    }
}

/// The models of fields, in order.
pub open spec fn tagged_view(s: Seq<TaggedField>) -> Seq<TaggedFieldModel> {
    Seq::new(s.len(), |i: int| s[i]@)
}

/// The field carries the tag.
pub open spec fn has_tag(f: TaggedFieldModel, tag: Seq<u8>) -> bool {
    exists|k: int| 0 <= k < f.tags.len() && #[trigger] f.tags[k] == tag
}

/// The index of the first field from `from` on that carries the tag, or
/// the number of fields where none does.
pub open spec fn first_tagged(fields: Seq<TaggedFieldModel>, tag: Seq<u8>, from: int) -> int
    decreases fields.len() - from,
{
    if from < 0 || from >= fields.len() {
        fields.len() as int
    } else if has_tag(fields[from], tag) {
        from
    } else {
        first_tagged(fields, tag, from + 1)
    }
}

/// The field that serves a property: the first that carries the tag of the
/// property, if any does.
pub open spec fn served_by(fields: Seq<TaggedFieldModel>, tag: Seq<u8>) -> Option<usize> {
    if first_tagged(fields, tag, 0) < fields.len() {
        Some(first_tagged(fields, tag, 0) as usize)
    } else {
        None
    }
}

fn carries(f: &TaggedField, tag: &[u8]) -> (r: bool)
    ensures
        r == has_tag(f@, tag@),
{
    let mut k: usize = 0;
    while k < f.tags.len()
        invariant
            k <= f.tags.len(),
            forall|j: int| 0 <= j < k ==> (#[trigger] f@.tags[j]) != tag@,
        decreases f.tags.len() - k,
    {
        if bytes_eq(f.tags[k].as_slice(), tag) {
            assert(f@.tags[k as int] == tag@);
            return true;
        }
        assert(f@.tags[k as int] == f.tags[k as int]@);
        k += 1;
    }
    false
}

/// Finds the field that serves a property: the first that carries the tag.
pub fn tagged_field(fields: &Vec<TaggedField>, tag: &[u8]) -> (found: Option<usize>)
    ensures
        match found {
            Some(i) => i < fields.len() && has_tag(fields[i as int]@, tag@) && forall|j: int|
                0 <= j < i ==> !has_tag(#[trigger] fields[j]@, tag@),
            None => forall|j: int| 0 <= j < fields.len() ==> !has_tag(#[trigger] fields[j]@, tag@),
        },
        found == served_by(tagged_view(fields@), tag@),
{
    let ghost model = tagged_view(fields@);
    let mut i: usize = 0;
    while i < fields.len()
        invariant
            i <= fields.len(),
            model == tagged_view(fields@),
            forall|j: int| 0 <= j < i ==> !has_tag(#[trigger] fields[j]@, tag@),
            first_tagged(model, tag@, 0) == first_tagged(model, tag@, i as int),
        decreases fields.len() - i,
    {
        assert(model[i as int] == fields[i as int]@);
        if carries(&fields[i], tag) {
            return Some(i);
        }
        i += 1;
    }
    None
}

/// Which field serves each of the properties that every widget has.
#[derive(Clone, Copy, Debug, PartialEq, Eq)]
pub struct WidgetProperties {
    pub children: Option<usize>,
    pub styles: Option<usize>,
    pub on_event: Option<usize>,
    pub focusable: Option<usize>,
}

/// The tag `Children`.
pub open spec fn children_tag() -> Seq<u8> {
    seq![0x43u8, 0x68u8, 0x69u8, 0x6cu8, 0x64u8, 0x72u8, 0x65u8, 0x6eu8]
}

/// The tag `Styles`.
pub open spec fn styles_tag() -> Seq<u8> {
    seq![0x53u8, 0x74u8, 0x79u8, 0x6cu8, 0x65u8, 0x73u8]
}

/// The tag `OnEvent`.
pub open spec fn on_event_tag() -> Seq<u8> {
    seq![0x4fu8, 0x6eu8, 0x45u8, 0x76u8, 0x65u8, 0x6eu8, 0x74u8]
}

/// The tag `Focusable`.
pub open spec fn focusable_tag() -> Seq<u8> {
    seq![0x46u8, 0x6fu8, 0x63u8, 0x75u8, 0x73u8, 0x61u8, 0x62u8, 0x6cu8, 0x65u8]
}

/// Derives the properties capability for a structure: each property is
/// served by the first field that carries its tag, and by none where no
/// field does.
pub fn derive_widget_props(fields: &Vec<TaggedField>) -> (out: WidgetProperties)
    ensures
        out.children == served_by(tagged_view(fields@), children_tag()),
        out.styles == served_by(tagged_view(fields@), styles_tag()),
        out.on_event == served_by(tagged_view(fields@), on_event_tag()),
        out.focusable == served_by(tagged_view(fields@), focusable_tag()),
{
    let children: Vec<u8> = vec![0x43, 0x68, 0x69, 0x6c, 0x64, 0x72, 0x65, 0x6e];
    let styles: Vec<u8> = vec![0x53, 0x74, 0x79, 0x6c, 0x65, 0x73];
    let on_event: Vec<u8> = vec![0x4f, 0x6e, 0x45, 0x76, 0x65, 0x6e, 0x74];
    let focusable: Vec<u8> = vec![0x46, 0x6f, 0x63, 0x75, 0x73, 0x61, 0x62, 0x6c, 0x65];
    assert(children@ =~= children_tag());
    assert(styles@ =~= styles_tag());
    assert(on_event@ =~= on_event_tag());
    assert(focusable@ =~= focusable_tag());
    WidgetProperties {
        children: tagged_field(fields, children.as_slice()),
        styles: tagged_field(fields, styles.as_slice()),
        on_event: tagged_field(fields, on_event.as_slice()),
        focusable: tagged_field(fields, focusable.as_slice()),
    }
}

} // verus!
