//! What the parser hands out is a tree that markup can stand for.

use vstd::prelude::*;
use crate::attribute::{
    apply_named, bound, fields_from, find_name, first_conflict, is_opaque, lemma_find_name,
    merge_spreads, opaque_before, opaque_spreads, record_fields, upsert, upsert_all, value_of,
    RawModel,
};
use crate::canonical::{
    attribute_ok, attributes_ok, child_ok, expression_ok, head_ok, items_ok, node_ok,
};
use crate::parser::{
    brace_from, key_name, key_of, keyword_for, keyword_if, lemma_brace_from_bounds,
    spec_attribute, spec_attributes, spec_child, spec_children, spec_control, spec_element,
    spec_item, spec_markup, value_text, without_key,
};
use crate::text::{
    balanced, block_end, ident_end, is_ident, is_ident_char, is_ident_start, is_space,
    lemma_block_end_bounds, lemma_ident_end_bounds, lemma_plain_is_balanced,
    lemma_skip_space_bounds, skip_space, trim,
    trim_end, CLOSE_BRACE, OPEN_BRACE,
};
use crate::widget::AttributeModel;

verus! {

/// A block that ends holds a text in which braces balance.
pub proof fn lemma_block_is_balanced(s: Seq<u8>, start: int, k: int, depth: nat, end: int)
    requires
        0 <= start <= k,
        k <= s.len(),
        block_end(s, k, depth) == Some(end),
    ensures
        k <= end < s.len(),
        block_end(s.subrange(start, end).push(CLOSE_BRACE), k - start, depth) == Some(end - start),
    decreases s.len() - k,
{
    lemma_block_end_bounds(s, k, depth);
    let closed = s.subrange(start, end).push(CLOSE_BRACE);
    assert(closed[k - start] == s[k]);
    if s[k] == OPEN_BRACE {
        lemma_block_end_bounds(s, k + 1, depth + 1);
        lemma_block_is_balanced(s, start, k + 1, depth + 1, end);
    } else if s[k] == CLOSE_BRACE {
        if depth > 0 {
            lemma_block_end_bounds(s, k + 1, (depth - 1) as nat);
            lemma_block_is_balanced(s, start, k + 1, (depth - 1) as nat, end);
        }
    } else {
        lemma_block_end_bounds(s, k + 1, depth);
        lemma_block_is_balanced(s, start, k + 1, depth, end);
    }
}

/// An identifier holds no brace, so braces balance in it.
pub proof fn lemma_ident_is_balanced(name: Seq<u8>)
    requires
        is_ident(name),
    ensures
        balanced(name),
{
    assert forall|i: int| 0 <= i < name.len() implies (#[trigger] name[i]) != OPEN_BRACE
        && name[i] != CLOSE_BRACE by {
        assert(is_ident_char(name[i]));
    }
    lemma_plain_is_balanced(name, 0);
}

/// The bytes from the start of an identifier to its end are an identifier.
pub proof fn lemma_ident_range(s: Seq<u8>, p: int)
    requires
        0 <= p < s.len(),
        is_ident_start(s[p]),
    ensures
        p < ident_end(s, p + 1) <= s.len(),
        is_ident(s.subrange(p, ident_end(s, p + 1))),
{
    lemma_ident_end_bounds(s, p + 1);
    let name = s.subrange(p, ident_end(s, p + 1));
    assert forall|i: int| 0 <= i < name.len() implies is_ident_char(#[trigger] name[i]) by {
        if i > 0 {
            assert(is_ident_char(s[p + i]));
        }
    }
}

/// An entry that is no spread and is as the binder hands it out.
pub open spec fn plain_ok(a: AttributeModel) -> bool {
    !(a.value is Spread) && attribute_ok(a)
}

/// A mapping without spreads as the binder hands it out.
pub open spec fn plain_mapping(attrs: Seq<AttributeModel>) -> bool {
    &&& forall|i: int| 0 <= i < attrs.len() ==> plain_ok(#[trigger] attrs[i])
    &&& forall|i: int, j: int|
        0 <= i < j < attrs.len() ==> (#[trigger] attrs[i]).name != (#[trigger] attrs[j]).name
}

/// Setting an entry keeps a mapping as the binder hands it out.
pub proof fn lemma_upsert_ok(attrs: Seq<AttributeModel>, a: AttributeModel)
    requires
        plain_mapping(attrs),
        plain_ok(a),
    ensures
        plain_mapping(upsert(attrs, a)),
{
    lemma_find_name(attrs, a.name, 0);
    let i = find_name(attrs, a.name, 0);
    let out = upsert(attrs, a);
    if i < attrs.len() {
        assert forall|x: int, y: int| 0 <= x < y < out.len() implies (#[trigger] out[x]).name != (
        #[trigger] out[y]).name by {
            assert(out[x].name == attrs[x].name);
            assert(out[y].name == attrs[y].name);
        }
        assert forall|x: int| 0 <= x < out.len() implies plain_ok(#[trigger] out[x]) by {
            if x != i {
                assert(out[x] == attrs[x]);
            }
        }
    } else {
        assert forall|x: int, y: int| 0 <= x < y < out.len() implies (#[trigger] out[x]).name != (
        #[trigger] out[y]).name by {
            assert(out[x] == attrs[x]);
            if y < attrs.len() {
                assert(out[y] == attrs[y]);
            }
        }
        assert forall|x: int| 0 <= x < out.len() implies plain_ok(#[trigger] out[x]) by {
            if x < attrs.len() {
                assert(out[x] == attrs[x]);
            }
        }
    }
}

proof fn lemma_upsert_all_ok(attrs: Seq<AttributeModel>, fields: Seq<AttributeModel>, n: int)
    requires
        plain_mapping(attrs),
        0 <= n <= fields.len(),
        forall|i: int| 0 <= i < fields.len() ==> plain_ok(#[trigger] fields[i]),
    ensures
        plain_mapping(upsert_all(attrs, fields, n)),
    decreases n,
{
    if n > 0 {
        lemma_upsert_all_ok(attrs, fields, n - 1);
        lemma_upsert_ok(upsert_all(attrs, fields, n - 1), fields[n - 1]);
    }
}

/// The fields of a record are entries as the binder hands them out.
pub proof fn lemma_fields_ok(body: Seq<u8>, pos: int)
    requires
        0 <= pos <= body.len(),
        fields_from(body, pos) is Some,
    ensures
        forall|i: int|
            0 <= i < fields_from(body, pos)->Some_0.len() ==> plain_ok(
                #[trigger] fields_from(body, pos)->Some_0[i],
            ),
    decreases body.len() - pos,
{
    lemma_skip_space_bounds(body, pos);
    let p = skip_space(body, pos);
    if p < body.len() {
        lemma_ident_range(body, p);
        let name_end = ident_end(body, p + 1);
        lemma_skip_space_bounds(body, name_end);
        let colon = skip_space(body, name_end);
        crate::attribute::lemma_field_end_bounds(body, colon + 1, 0);
        let end = crate::attribute::field_end(body, colon + 1, 0);
        let value = trim(body.subrange(colon + 1, end));
        let field = AttributeModel { name: body.subrange(p, name_end), value: value_of(value) };
        assert(value_text(value_of(value)) == value);
        assert(plain_ok(field));
        let fields = fields_from(body, pos)->Some_0;
        if end < body.len() {
            lemma_fields_ok(body, end + 1);
            let rest = fields_from(body, end + 1)->Some_0;
            assert(fields == seq![field] + rest);
            assert forall|i: int| 0 <= i < fields.len() implies plain_ok(#[trigger] fields[i]) by {
                if i > 0 {
                    assert(fields[i] == rest[i - 1]);
                }
            }
        } else {
            assert(fields == seq![field]);
        }
    }
}

/// A raw attribute as the parser reads it: the name of a named attribute is
/// an identifier, and braces balance in every value and source.
pub open spec fn raw_ok(r: RawModel) -> bool {
    match r {
        RawModel::Named { name, value, .. } => is_ident(name) && balanced(value),
        RawModel::Spread { source, .. } => balanced(source),
    }
}

proof fn lemma_merge_ok(raw: Seq<RawModel>, n: int)
    requires
        0 <= n <= raw.len(),
    ensures
        plain_mapping(merge_spreads(raw, n)),
    decreases n,
{
    if n > 0 {
        lemma_merge_ok(raw, n - 1);
        match raw[n - 1] {
            RawModel::Spread { source, .. } => {
                match record_fields(source) {
                    Some(fields) => {
                        let start = skip_space(source, 0);
                        let end = block_end(source, start + 1, 0)->Some_0;
                        lemma_skip_space_bounds(source, 0);
                        lemma_block_end_bounds(source, start + 1, 0);
                        lemma_fields_ok(source.subrange(start + 1, end), 0);
                        lemma_upsert_all_ok(merge_spreads(raw, n - 1), fields, fields.len() as int);
                    },
                    None => {},
                }
            },
            RawModel::Named { .. } => {},
        }
    }
}

proof fn lemma_named_ok(raw: Seq<RawModel>, n: int, base: Seq<AttributeModel>)
    requires
        0 <= n <= raw.len(),
        plain_mapping(base),
        forall|i: int| 0 <= i < raw.len() ==> raw_ok(#[trigger] raw[i]),
    ensures
        plain_mapping(apply_named(raw, n, base)),
    decreases n,
{
    if n > 0 {
        lemma_named_ok(raw, n - 1, base);
        assert(raw_ok(raw[n - 1]));
        match raw[n - 1] {
            RawModel::Named { name, value, .. } => {
                let entry = AttributeModel { name, value: value_of(value) };
                assert(value_text(value_of(value)) == value);
                lemma_upsert_ok(apply_named(raw, n - 1, base), entry);
            },
            RawModel::Spread { .. } => {},
        }
    }
}

proof fn lemma_opaque_ok(raw: Seq<RawModel>, n: int)
    requires
        0 <= n <= raw.len(),
        first_conflict(raw, n) is None,
        forall|i: int| 0 <= i < raw.len() ==> raw_ok(#[trigger] raw[i]),
    ensures
        opaque_spreads(raw, n).len() <= 1,
        (opaque_spreads(raw, n).len() == 1) == opaque_before(raw, n),
        forall|i: int|
            0 <= i < opaque_spreads(raw, n).len() ==> attribute_ok(
                #[trigger] opaque_spreads(raw, n)[i],
            ) && opaque_spreads(raw, n)[i].value is Spread,
    decreases n,
{
    if n > 0 {
        lemma_opaque_ok(raw, n - 1);
        assert(raw_ok(raw[n - 1]));
        if is_opaque(raw[n - 1]) {
            assert(!opaque_before(raw, n - 1));
            assert(opaque_before(raw, n));
        } else {
            if opaque_before(raw, n) {
                let i = choose|i: int| 0 <= i < n && is_opaque(#[trigger] raw[i]);
                assert(opaque_before(raw, n - 1));
            }
        }
    }
}

/// What binds, binds to a mapping in which only the first entry may be a
/// spread and no two entries have one name.
pub proof fn lemma_bound_ok(raw: Seq<RawModel>)
    requires
        forall|i: int| 0 <= i < raw.len() ==> raw_ok(#[trigger] raw[i]),
        bound(raw) is Ok,
    ensures
        attributes_ok(bound(raw)->Ok_0),
{
    let n = raw.len() as int;
    lemma_opaque_ok(raw, n);
    lemma_merge_ok(raw, n);
    lemma_named_ok(raw, n, merge_spreads(raw, n));
    let kept = opaque_spreads(raw, n);
    let applied = apply_named(raw, n, merge_spreads(raw, n));
    let out = kept + applied;
    assert forall|i: int| 0 <= i < out.len() implies attribute_ok(#[trigger] out[i]) by {
        if i >= kept.len() {
            assert(plain_ok(applied[i - kept.len()]));
        }
    }
    assert forall|i: int| 0 < i < out.len() implies !((#[trigger] out[i]).value is Spread) by {
        assert(plain_ok(applied[i - kept.len()]));
    }
    assert forall|i: int, j: int| 0 <= i < j < out.len() implies (#[trigger] out[i]).name != (
    #[trigger] out[j]).name by {
        assert(plain_ok(applied[j - kept.len()]));
        if i >= kept.len() {
            assert(applied[i - kept.len()].name != applied[j - kept.len()].name);
        } else {
            assert(attribute_ok(kept[i]));
            assert(out[i].name.len() == 0);
        }
    }
}

/// Taking the key out leaves a mapping as the binder hands it out, without
/// an entry named `key`; braces balance in the key.
pub proof fn lemma_key_taken(attrs: Seq<AttributeModel>)
    requires
        attributes_ok(attrs),
    ensures
        attributes_ok(without_key(attrs)),
        forall|i: int|
            0 <= i < without_key(attrs).len() ==> (#[trigger] without_key(attrs)[i]).name
                != key_name(),
        key_of(attrs) matches Some(k) ==> balanced(k),
{
    lemma_find_name(attrs, key_name(), 0);
    let i = find_name(attrs, key_name(), 0);
    let out = without_key(attrs);
    if i < attrs.len() {
        assert(attribute_ok(attrs[i]));
        assert(key_name().len() == 3);
        assert forall|x: int| 0 <= x < out.len() implies attribute_ok(#[trigger] out[x]) && out[x].name
            != key_name() by {
            if x < i {
                assert(out[x] == attrs[x]);
            } else {
                assert(out[x] == attrs[x + 1]);
                assert(attrs[i].name != attrs[x + 1].name);
            }
        }
        assert forall|x: int| 0 < x < out.len() implies !((#[trigger] out[x]).value is Spread) by {
            if x < i {
                assert(out[x] == attrs[x]);
            } else {
                assert(out[x] == attrs[x + 1]);
            }
        }
        assert forall|x: int, y: int| 0 <= x < y < out.len() implies (#[trigger] out[x]).name != (
        #[trigger] out[y]).name by {
            let ox = if x < i { x } else { x + 1 };
            let oy = if y < i { y } else { y + 1 };
            assert(out[x] == attrs[ox]);
            assert(out[y] == attrs[oy]);
        }
    }
}

/// What is left of a text without the white space at its end is its start,
/// and does not end in white space.
pub proof fn lemma_trim_end(x: Seq<u8>)
    ensures
        trim_end(x).len() <= x.len(),
        trim_end(x) == x.subrange(0, trim_end(x).len() as int),
        trim_end(x).len() > 0 ==> !is_space(trim_end(x).last()),
    decreases x.len(),
{
    if x.len() > 0 && is_space(x.last()) {
        lemma_trim_end(x.drop_last());
        let t = trim_end(x.drop_last());
        assert(x.drop_last().subrange(0, t.len() as int) == x.subrange(0, t.len() as int));
    } else {
        assert(x.subrange(0, x.len() as int) == x);
    }
}

/// An attribute that the parser reads is a raw attribute as described.
pub proof fn lemma_attribute_read(s: Seq<u8>, p: int)
    requires
        0 <= p <= s.len(),
        spec_attribute(s, p) matches Some(Ok(_)),
    ensures
        raw_ok(spec_attribute(s, p)->Some_0->Ok_0.0),
{
    if p < s.len() && is_ident_start(s[p]) {
        lemma_ident_range(s, p);
        let name_end = ident_end(s, p + 1);
        let name = s.subrange(p, name_end);
        if crate::text::has_byte(s, name_end, crate::text::EQUALS) {
            let e = block_end(s, name_end + 2, 0)->Some_0;
            lemma_block_is_balanced(s, name_end + 2, name_end + 2, 0, e);
        } else {
            lemma_ident_is_balanced(name);
        }
    } else {
        let e = block_end(s, p + 4, 0)->Some_0;
        lemma_block_is_balanced(s, p + 4, p + 4, 0, e);
    }
}

/// The attributes that the parser reads are raw attributes as described.
pub proof fn lemma_attributes_read(s: Seq<u8>, pos: int)
    requires
        0 <= pos <= s.len(),
        spec_attributes(s, pos) is Ok,
    ensures
        forall|i: int|
            0 <= i < spec_attributes(s, pos)->Ok_0.0.len() ==> raw_ok(
                #[trigger] spec_attributes(s, pos)->Ok_0.0[i],
            ),
    decreases s.len() - pos,
{
    lemma_skip_space_bounds(s, pos);
    let p = skip_space(s, pos);
    match spec_attribute(s, p) {
        None => {},
        Some(Err(e)) => {},
        Some(Ok((a, next))) => {
            lemma_attribute_read(s, p);
            lemma_attributes_read(s, next);
            let rest = spec_attributes(s, next)->Ok_0.0;
            let raw = spec_attributes(s, pos)->Ok_0.0;
            assert(raw == seq![a] + rest);
            assert forall|i: int| 0 <= i < raw.len() implies raw_ok(#[trigger] raw[i]) by {
                if i > 0 {
                    assert(raw[i] == rest[i - 1]);
                }
            }
        },
    }
}

/// An element that parses is a node that markup can stand for.
pub proof fn lemma_element_ok(s: Seq<u8>, pos: int)
    requires
        spec_element(s, pos) is Ok,
    ensures
        node_ok(spec_element(s, pos)->Ok_0.0),
    decreases s.len() - pos, 0int,
{
    lemma_ident_range(s, pos + 1);
    let name_end = ident_end(s, pos + 2);
    lemma_attributes_read(s, name_end);
    let (raw, p) = spec_attributes(s, name_end)->Ok_0;
    lemma_bound_ok(raw);
    let attrs = bound(raw)->Ok_0;
    lemma_key_taken(attrs);
    let n = spec_element(s, pos)->Ok_0.0;
    if crate::text::has_byte(s, p, crate::text::SLASH) && crate::text::has_byte(
        s,
        p + 1,
        crate::text::GT,
    ) {
        assert(items_ok(n.children));
    } else {
        lemma_children_ok(s, p + 1);
    }
}

/// A control form that parses has a head and an inner child that markup can
/// stand for.
pub proof fn lemma_control_ok(s: Seq<u8>, pos: int, kw: int)
    requires
        spec_control(s, pos, kw) is Ok,
    ensures
        head_ok(spec_control(s, pos, kw)->Ok_0.0.0),
        child_ok(spec_control(s, pos, kw)->Ok_0.0.1),
    decreases s.len() - pos, 0int,
{
    let start = pos + 1 + kw;
    let h = skip_space(s, start);
    let b = brace_from(s, h);
    let i = skip_space(s, b + 1);
    if start <= s.len() {
        lemma_skip_space_bounds(s, start);
    } else {
        assert(h == start);
    }
    assert(b < s.len());
    if h <= s.len() {
        lemma_brace_from_bounds(s, h);
    }
    let span = s.subrange(h, b);
    let head = trim_end(span);
    lemma_trim_end(span);
    assert(head[0] == s[h]);
    assert forall|k: int| 0 <= k < head.len() implies (#[trigger] head[k]) != OPEN_BRACE && head[k]
        != CLOSE_BRACE by {
        assert(head[k] == span[k]);
        assert(span[k] == s[h + k]);
    }
    lemma_item_ok(s, i);
}

/// A child item that parses is one that markup can stand for.
pub proof fn lemma_item_ok(s: Seq<u8>, pos: int)
    requires
        spec_item(s, pos) is Ok,
    ensures
        child_ok(spec_item(s, pos)->Ok_0.0),
    decreases s.len() - pos, 1int,
{
    if crate::text::has_byte(s, pos, crate::text::LT) {
        lemma_element_ok(s, pos);
    } else if keyword_if(s, pos + 1) {
        lemma_control_ok(s, pos, 2);
    } else if keyword_for(s, pos + 1) {
        lemma_control_ok(s, pos, 3);
    } else {
        let end = block_end(s, pos + 1, 0)->Some_0;
        lemma_block_is_balanced(s, pos + 1, pos + 1, 0, end);
        let e = s.subrange(pos + 1, end);
        let closed = e.push(CLOSE_BRACE);
        lemma_block_end_bounds(s, pos + 1, 0);
        assert forall|k: int| 0 <= k < closed.len() implies closed[k] == s[pos + 1 + k] by {}
        if keyword_if(closed, 0) {
            assert(closed[0] == s[pos + 1 + 0]);
            assert(closed[1] == s[pos + 1 + 1]);
            assert(closed[2] == s[pos + 1 + 2]);
        }
        if keyword_for(closed, 0) {
            assert(closed[0] == s[pos + 1 + 0]);
            assert(closed[1] == s[pos + 1 + 1]);
            assert(closed[2] == s[pos + 1 + 2]);
            assert(closed[3] == s[pos + 1 + 3]);
        }
        assert(expression_ok(e));
    }
}

/// The items that a child gives its parent are items that markup can stand
/// for.
pub proof fn lemma_child_ok(s: Seq<u8>, pos: int)
    requires
        0 <= pos <= s.len(),
        spec_child(s, pos) is Ok,
    ensures
        items_ok(spec_child(s, pos)->Ok_0.0),
    decreases s.len() - pos, 2int,
{
    if crate::text::has_byte(s, pos, crate::text::LT) && crate::text::has_byte(
        s,
        pos + 1,
        crate::text::GT,
    ) {
        lemma_children_ok(s, pos + 2);
    } else {
        lemma_item_ok(s, pos);
        let item = spec_item(s, pos)->Ok_0.0;
        assert(spec_child(s, pos)->Ok_0.0 == seq![item]);
    }
}

/// The child items that parse are items that markup can stand for.
pub proof fn lemma_children_ok(s: Seq<u8>, pos: int)
    requires
        0 <= pos <= s.len(),
        spec_children(s, pos) is Ok,
    ensures
        items_ok(spec_children(s, pos)->Ok_0.0),
    decreases s.len() - pos, 3int,
{
    lemma_skip_space_bounds(s, pos);
    let p = skip_space(s, pos);
    if p >= s.len() || (crate::text::has_byte(s, p, crate::text::LT) && crate::text::has_byte(
        s,
        p + 1,
        crate::text::SLASH,
    )) {
    } else {
        lemma_child_ok(s, p);
        let (items, next) = spec_child(s, p)->Ok_0;
        lemma_children_ok(s, next);
        let rest = spec_children(s, next)->Ok_0.0;
        let all = spec_children(s, pos)->Ok_0.0;
        assert(all == items + rest);
        assert forall|i: int| 0 <= i < all.len() implies child_ok(#[trigger] all[i]) by {
            if i < items.len() {
                assert(all[i] == items[i]);
            } else {
                assert(all[i] == rest[i - items.len()]);
            }
        }
    }
}

/// Whatever markup parses to is a tree that markup can stand for.
pub proof fn lemma_parsed_ok(input: Seq<u8>)
    requires
        spec_markup(input) is Ok,
    ensures
        items_ok(spec_markup(input)->Ok_0),
{
    lemma_children_ok(input, 0);
}

} // verus!
