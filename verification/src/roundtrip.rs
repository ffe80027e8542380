//! Parsing is faithful: the canonical markup of a tree parses back to the
//! tree.

use vstd::prelude::*;
use crate::attribute::{
    apply_named, bound, find_name, first_conflict, merge_spreads, named_before, opaque_before,
    opaque_spreads, upsert, value_of, RawModel,
};
use crate::canonical::{
    attribute_ok, attribute_text, attributes_ok, attributes_text, canonical, child_ok, child_text,
    expression_ok, head_ok, items_ok, items_text, node_ok, node_text, written,
};
use crate::error::SyntaxError;
use crate::representable::lemma_parsed_ok;
use crate::parser::{
    brace_from, key_name, key_of, keyword_for, keyword_if, spec_attribute, spec_attributes,
    spec_child, spec_children, spec_control, spec_element, spec_item, spec_markup, value_text,
    without_key,
};
use crate::text::{
    balanced, block_end, has_byte, ident_end, is_ident, is_ident_char, is_ident_start, is_space,
    occurs_at, skip_space, trim_end, CLOSE_BRACE, DOT, EQUALS, GT, LT, OPEN_BRACE, SLASH, SPACE,
};
use crate::widget::{AttributeModel, ChildModel, NodeModel, ValueModel};

verus! {

/// A text that stands in another gives it its bytes.
pub proof fn lemma_occurs_bytes(s: Seq<u8>, x: Seq<u8>, pos: int)
    requires
        occurs_at(s, x, pos),
    ensures
        forall|i: int| 0 <= i < x.len() ==> s[pos + i] == #[trigger] x[i],
{
    assert forall|i: int| 0 <= i < x.len() implies s[pos + i] == #[trigger] x[i] by {
        assert(s.subrange(pos, pos + x.len())[i] == x[i]);
    }
}

/// Where two texts stand one after the other, each of them stands.
pub proof fn lemma_occurs_split(s: Seq<u8>, a: Seq<u8>, b: Seq<u8>, pos: int)
    requires
        occurs_at(s, a + b, pos),
    ensures
        occurs_at(s, a, pos),
        occurs_at(s, b, pos + a.len()),
{
    lemma_occurs_bytes(s, a + b, pos);
    assert(s.subrange(pos, pos + a.len()) =~= a) by {
        assert forall|i: int| 0 <= i < a.len() implies s.subrange(pos, pos + a.len())[i]
            == a[i] by {
            assert((a + b)[i] == a[i]);
        }
    }
    assert(s.subrange(pos + a.len(), pos + a.len() + b.len()) =~= b) by {
        assert forall|i: int| 0 <= i < b.len() implies s.subrange(
            pos + a.len(),
            pos + a.len() + b.len(),
        )[i] == b[i] by {
            assert((a + b)[a.len() + i] == b[i]);
        }
    }
}

/// An identifier ends where its bytes end.
pub proof fn lemma_ident_end_at(s: Seq<u8>, pos: int, n: int)
    requires
        0 <= pos,
        0 <= n,
        pos + n <= s.len(),
        forall|i: int| pos <= i < pos + n ==> is_ident_char(#[trigger] s[i]),
        pos + n == s.len() || !is_ident_char(s[pos + n]),
    ensures
        ident_end(s, pos) == pos + n,
    decreases n,
{
    if n > 0 {
        assert(is_ident_char(s[pos]));
        lemma_ident_end_at(s, pos + 1, n - 1);
    }
}

/// A block ends where the text of its body says, whatever stands around it.
pub proof fn lemma_block_end_at(s: Seq<u8>, pos: int, e: Seq<u8>, k: int, depth: nat)
    requires
        0 <= k <= e.len(),
        occurs_at(s, e.push(CLOSE_BRACE), pos),
        block_end(e.push(CLOSE_BRACE), k, depth) == Some(e.len() as int),
    ensures
        block_end(s, pos + k, depth) == Some(pos + e.len()),
    decreases e.len() - k,
{
    let closed = e.push(CLOSE_BRACE);
    lemma_occurs_bytes(s, closed, pos);
    assert(s[pos + k] == closed[k]);
    if closed[k] == OPEN_BRACE {
        lemma_block_end_at(s, pos, e, k + 1, depth + 1);
    } else if closed[k] == CLOSE_BRACE {
        if depth == 0 {
            assert(k == e.len());
        } else if k == e.len() {
            assert(block_end(closed, k + 1, (depth - 1) as nat) is None);
        } else {
            lemma_block_end_at(s, pos, e, k + 1, (depth - 1) as nat);
        }
    } else {
        lemma_block_end_at(s, pos, e, k + 1, depth);
    }
}

/// The block that holds a text in which braces balance ends right after it.
pub proof fn lemma_balanced_block(s: Seq<u8>, pos: int, e: Seq<u8>)
    requires
        balanced(e),
        occurs_at(s, e, pos),
        has_byte(s, pos + e.len(), CLOSE_BRACE),
    ensures
        block_end(s, pos, 0) == Some(pos + e.len()),
{
    lemma_occurs_bytes(s, e, pos);
    assert(s.subrange(pos, pos + e.len() + 1) =~= e.push(CLOSE_BRACE));
    lemma_block_end_at(s, pos, e, 0, 0);
}

/// A text without braces is passed over up to the brace that follows it.
pub proof fn lemma_brace_from_at(s: Seq<u8>, pos: int, n: int)
    requires
        0 <= pos,
        0 <= n,
        pos + n < s.len(),
        forall|i: int| pos <= i < pos + n ==> (#[trigger] s[i]) != OPEN_BRACE && s[i] != CLOSE_BRACE,
        s[pos + n] == OPEN_BRACE || s[pos + n] == CLOSE_BRACE,
    ensures
        brace_from(s, pos) == pos + n,
    decreases n,
{
    if n > 0 {
        assert(s[pos] != OPEN_BRACE && s[pos] != CLOSE_BRACE);
        lemma_brace_from_at(s, pos + 1, n - 1);
    }
}

/// A raw attribute says what an entry of a mapping says.
pub open spec fn same_entry(raw: RawModel, a: AttributeModel) -> bool {
    match raw {
        RawModel::Named { name, value, .. } => !(a.value is Spread) && name == a.name && value
            == value_text(a.value),
        RawModel::Spread { source, .. } => a.value == ValueModel::Spread(source),
    }
}

/// The text of an attribute parses to that attribute.
pub proof fn lemma_attribute_at(s: Seq<u8>, pos: int, a: AttributeModel)
    requires
        attribute_ok(a),
        occurs_at(s, attribute_text(a), pos),
    ensures
        skip_space(s, pos) == pos + 1,
        spec_attribute(s, pos + 1) matches Some(Ok((raw, next))) && next == pos + attribute_text(
            a,
        ).len() && same_entry(raw, a),
{
    let text = attribute_text(a);
    lemma_occurs_bytes(s, text, pos);
    match a.value {
        ValueModel::Spread(source) => {
            let lead = seq![SPACE, OPEN_BRACE, DOT, DOT, DOT];
            assert(text == lead + source + seq![CLOSE_BRACE]);
            assert(text[0] == SPACE && text[1] == OPEN_BRACE && text[2] == DOT && text[3] == DOT
                && text[4] == DOT);
            assert(s[pos + 0] == SPACE && s[pos + 1] == OPEN_BRACE && s[pos + 2] == DOT && s[pos
                + 3] == DOT && s[pos + 4] == DOT);
            let m = source.len() as int;
            assert(text[5 + m] == CLOSE_BRACE);
            assert(s[pos + (5 + m)] == CLOSE_BRACE);
            assert(skip_space(s, pos + 1) == pos + 1);
            lemma_occurs_split(s, lead + source, seq![CLOSE_BRACE], pos);
            lemma_occurs_split(s, lead, source, pos);
            lemma_balanced_block(s, pos + 5, source);
        },
        _ => {
            let v = value_text(a.value);
            let lead = seq![SPACE] + a.name;
            let mid = seq![EQUALS, OPEN_BRACE];
            assert(text == lead + mid + v + seq![CLOSE_BRACE]);
            let n = a.name.len() as int;
            assert forall|i: int| 0 <= i < n implies s[pos + 1 + i] == a.name[i] by {
                assert(text[1 + i] == a.name[i]);
                assert(s[pos + (1 + i)] == text[1 + i]);
            }
            assert(text[0] == SPACE);
            assert(s[pos + 0] == text[0]);
            assert(text[1 + n] == EQUALS && text[2 + n] == OPEN_BRACE);
            assert(s[pos + (1 + n)] == EQUALS && s[pos + (2 + n)] == OPEN_BRACE);
            let m = v.len() as int;
            assert(text[3 + n + m] == CLOSE_BRACE);
            assert(s[pos + (3 + n + m)] == CLOSE_BRACE);
            assert(s[pos + 1] == a.name[0]);
            assert(skip_space(s, pos + 1) == pos + 1);
            assert forall|i: int| pos + 2 <= i < pos + 1 + n implies is_ident_char(
                #[trigger] s[i],
            ) by {
                assert(s[pos + 1 + (i - pos - 1)] == a.name[i - pos - 1]);
            }
            lemma_ident_end_at(s, pos + 2, n - 1);
            lemma_occurs_split(s, lead + mid + v, seq![CLOSE_BRACE], pos);
            lemma_occurs_split(s, lead + mid, v, pos);
            lemma_occurs_split(s, lead, mid, pos);
            lemma_occurs_split(s, seq![SPACE], a.name, pos);
            lemma_balanced_block(s, pos + 3 + n, v);
        },
    }
}

/// The text of a list of attributes parses to those attributes, where the
/// end of the tag follows it.
pub proof fn lemma_attributes_at(s: Seq<u8>, pos: int, w: Seq<AttributeModel>, from: int)
    requires
        0 <= from <= w.len(),
        forall|i: int| from <= i < w.len() ==> attribute_ok(#[trigger] w[i]),
        occurs_at(s, attributes_text(w, from), pos),
        has_byte(s, pos + attributes_text(w, from).len(), SLASH) || has_byte(
            s,
            pos + attributes_text(w, from).len(),
            GT,
        ),
    ensures
        spec_attributes(s, pos) matches Ok((raw, end)) && end == pos + attributes_text(
            w,
            from,
        ).len() && raw.len() == w.len() - from && forall|i: int|
            0 <= i < raw.len() ==> same_entry(#[trigger] raw[i], w[from + i]),
    decreases w.len() - from,
{
    if from == w.len() {
        assert(skip_space(s, pos) == pos);
        assert(spec_attribute(s, pos) is None);
    } else {
        let first = attribute_text(w[from]);
        let rest = attributes_text(w, from + 1);
        lemma_occurs_split(s, first, rest, pos);
        lemma_attribute_at(s, pos, w[from]);
        let next = pos + first.len();
        lemma_attributes_at(s, next, w, from + 1);
        let (a, found) = spec_attribute(s, pos + 1)->Some_0->Ok_0;
        let (more, end) = spec_attributes(s, next)->Ok_0;
        let raw = seq![a] + more;
        assert(spec_attributes(s, pos) == Ok::<(Seq<RawModel>, int), SyntaxError>((raw, end)));
        assert forall|i: int| 0 <= i < raw.len() implies same_entry(
            #[trigger] raw[i],
            w[from + i],
        ) by {
            if i > 0 {
                assert(raw[i] == more[i - 1]);
            }
        }
    }
}

/// A name that no entry from `from` on has is not found.
pub proof fn lemma_find_name_absent(attrs: Seq<AttributeModel>, name: Seq<u8>, from: int)
    requires
        0 <= from,
        forall|i: int| from <= i < attrs.len() ==> (#[trigger] attrs[i]).name != name,
    ensures
        find_name(attrs, name, from) == attrs.len(),
    decreases attrs.len() - from,
{
    if from < attrs.len() {
        lemma_find_name_absent(attrs, name, from + 1);
    }
}

/// A name is found at the first entry that has it.
pub proof fn lemma_find_name_first(attrs: Seq<AttributeModel>, name: Seq<u8>, from: int, k: int)
    requires
        0 <= from <= k < attrs.len(),
        attrs[k].name == name,
        forall|i: int| from <= i < k ==> (#[trigger] attrs[i]).name != name,
    ensures
        find_name(attrs, name, from) == k,
    decreases k - from,
{
    if from < k {
        lemma_find_name_first(attrs, name, from + 1, k);
    }
}

/// Where a mapping starts with a spread, the number of entries that the
/// spread takes; else none.
pub open spec fn spread_count(w: Seq<AttributeModel>) -> int {
    if w.len() > 0 && w[0].value is Spread {
        1
    } else {
        0
    }
}

proof fn lemma_bound_prefix(raw: Seq<RawModel>, w: Seq<AttributeModel>, n: int)
    requires
        raw.len() == w.len(),
        0 <= n <= raw.len(),
        forall|i: int| 0 <= i < raw.len() ==> same_entry(#[trigger] raw[i], w[i]),
        attributes_ok(w),
    ensures
        first_conflict(raw, n) is None,
        merge_spreads(raw, n) == Seq::<AttributeModel>::empty(),
        n >= spread_count(w) ==> opaque_spreads(raw, n) == w.subrange(0, spread_count(w)),
        n >= spread_count(w) ==> apply_named(raw, n, Seq::empty()) == w.subrange(
            spread_count(w),
            n,
        ),
        n < spread_count(w) ==> opaque_spreads(raw, n) == Seq::<AttributeModel>::empty()
            && apply_named(raw, n, Seq::empty()) == Seq::<AttributeModel>::empty(),
    decreases n,
{
    if n > 0 {
        lemma_bound_prefix(raw, w, n - 1);
        let k = spread_count(w);
        assert(same_entry(raw[n - 1], w[n - 1]));
        assert(attribute_ok(w[n - 1]));
        match raw[n - 1] {
            RawModel::Named { name, value, span } => {
                assert(n - 1 >= k);
                if named_before(raw, n - 1, name) {
                    let i = choose|i: int|
                        0 <= i < n - 1 && (#[trigger] raw[i]) is Named && raw[i]->Named_name
                            == name;
                    assert(same_entry(raw[i], w[i]));
                    assert(w[i].name != w[n - 1].name);
                }
                let applied = w.subrange(k, n - 1);
                let entry = AttributeModel { name, value: value_of(value) };
                assert(entry == w[n - 1]);
                assert forall|i: int| 0 <= i < applied.len() implies (#[trigger] applied[i]).name
                    != name by {
                    assert(w[k + i].name != w[n - 1].name);
                }
                lemma_find_name_absent(applied, name, 0);
                assert(upsert(applied, entry) == applied.push(entry));
                assert(applied.push(entry) == w.subrange(k, n));
                assert(opaque_spreads(raw, n) == opaque_spreads(raw, n - 1));
            },
            RawModel::Spread { source, span } => {
                assert(w[n - 1].value is Spread);
                assert(n == 1);
                assert(k == 1);
                assert(!opaque_before(raw, 0));
                assert(w[0] == AttributeModel { name: Seq::empty(), value: ValueModel::Spread(source) }) by {
                    assert(w[0].name =~= Seq::<u8>::empty());
                }
                assert(opaque_spreads(raw, 1) == Seq::<AttributeModel>::empty().push(w[0]));
                assert(Seq::<AttributeModel>::empty().push(w[0]) == w.subrange(0, 1));
                assert(w.subrange(1, 1) == Seq::<AttributeModel>::empty());
            },
        }
    } else {
        assert(w.subrange(0, 0) == Seq::<AttributeModel>::empty());
    }
}

/// Binding leaves a mapping as it is: attributes that say what the entries
/// of a bound mapping say bind to that mapping.
pub proof fn lemma_bound_plain(raw: Seq<RawModel>, w: Seq<AttributeModel>)
    requires
        raw.len() == w.len(),
        forall|i: int| 0 <= i < raw.len() ==> same_entry(#[trigger] raw[i], w[i]),
        attributes_ok(w),
    ensures
        bound(raw) == Ok::<Seq<AttributeModel>, SyntaxError>(w),
{
    lemma_bound_prefix(raw, w, raw.len() as int);
    let k = spread_count(w);
    assert(w.subrange(0, k) + w.subrange(k, w.len() as int) == w);
}

/// The attributes that a node is written with bind to the node's own
/// attributes and its key.
pub proof fn lemma_written(n: NodeModel)
    requires
        node_ok(n),
    ensures
        attributes_ok(written(n)),
        key_of(written(n)) == n.key,
        without_key(written(n)) == n.attributes,
{
    let w = written(n);
    match n.key {
        Some(k) => {
            let entry = AttributeModel { name: key_name(), value: value_of(k) };
            assert(w == n.attributes.push(entry));
            assert(value_text(value_of(k)) == k);
            assert(attribute_ok(entry));
            assert forall|i: int| 0 <= i < w.len() implies attribute_ok(#[trigger] w[i]) by {
                if i < n.attributes.len() {
                    assert(w[i] == n.attributes[i]);
                }
            }
            assert forall|i: int| 0 < i < w.len() implies !((#[trigger] w[i]).value is Spread) by {
                if i < n.attributes.len() {
                    assert(w[i] == n.attributes[i]);
                }
            }
            assert forall|i: int, j: int| 0 <= i < j < w.len() implies (#[trigger] w[i]).name != (
            #[trigger] w[j]).name by {
                assert(w[i] == n.attributes[i]);
                if j < n.attributes.len() {
                    assert(w[j] == n.attributes[j]);
                }
            }
            assert forall|i: int| 0 <= i < n.attributes.len() implies (#[trigger] w[i]).name
                != key_name() by {
                assert(w[i] == n.attributes[i]);
            }
            lemma_find_name_first(w, key_name(), 0, n.attributes.len() as int);
            assert(w.remove(n.attributes.len() as int) == n.attributes);
        },
        None => {
            assert(w == n.attributes);
            lemma_find_name_absent(w, key_name(), 0);
        },
    }
}

/// The text of an attribute starts with a space.
proof fn lemma_attributes_text_first(w: Seq<AttributeModel>, from: int)
    requires
        0 <= from < w.len(),
    ensures
        attributes_text(w, from).len() > 0,
        attributes_text(w, from)[0] == SPACE,
{
    let first = attribute_text(w[from]);
    match w[from].value {
        ValueModel::Spread(source) => {
            assert(first[0] == SPACE);
        },
        _ => {
            assert(first[0] == SPACE);
        },
    }
    assert(attributes_text(w, from)[0] == first[0]);
}

/// The text of a node starts with `<` and the first byte of its tag.
proof fn lemma_node_text_first(n: NodeModel)
    requires
        is_ident(n.tag),
    ensures
        node_text(n).len() >= 2,
        node_text(n)[0] == LT,
        node_text(n)[1] == n.tag[0],
{
    let head = seq![LT] + n.tag;
    assert(head[0] == LT && head[1] == n.tag[0]);
    let text = node_text(n);
    assert(text[0] == head[0]);
    assert(text[1] == head[1]);
}

/// The text of a child item starts with `<` followed by the start of an
/// identifier, or with `{`.
proof fn lemma_child_text_first(c: ChildModel)
    requires
        child_ok(c),
    ensures
        child_text(c).len() >= 2,
        child_text(c)[0] == OPEN_BRACE || (child_text(c)[0] == LT && is_ident_start(
            child_text(c)[1],
        )),
{
    match c {
        ChildModel::LiteralWidget(n) => {
            assert(node_ok(n));
            lemma_node_text_first(n);
        },
        ChildModel::Expression(e) => {
            let text = seq![OPEN_BRACE] + e + seq![CLOSE_BRACE];
            assert(text[0] == OPEN_BRACE);
        },
        ChildModel::Conditional(guard, inner) => {
            let lead = seq![OPEN_BRACE, 0x69u8, 0x66u8, SPACE];
            assert(lead[0] == OPEN_BRACE);
            assert(child_text(c)[0] == lead[0]);
        },
        ChildModel::Iteration(source, inner) => {
            let lead = seq![OPEN_BRACE, 0x66u8, 0x6fu8, 0x72u8, SPACE];
            assert(lead[0] == OPEN_BRACE);
            assert(child_text(c)[0] == lead[0]);
        },
    }
}

/// Without white space at its end, a text followed by a space trims to
/// itself.
proof fn lemma_trim_end_space(g: Seq<u8>)
    requires
        g.len() > 0,
        !is_space(g.last()),
    ensures
        trim_end(g.push(SPACE)) == g,
{
    assert(g.push(SPACE).drop_last() == g);
    assert(trim_end(g) == g);
}

/// The opening of a tag, up to the end of its attributes, parses to the
/// tag's name and to the attributes that the node is written with.
proof fn lemma_node_open(s: Seq<u8>, pos: int, n: NodeModel)
    requires
        node_ok(n),
        occurs_at(s, seq![LT] + n.tag + attributes_text(written(n), 0), pos),
        has_byte(s, pos + 1 + n.tag.len() + attributes_text(written(n), 0).len(), SLASH)
            || has_byte(s, pos + 1 + n.tag.len() + attributes_text(written(n), 0).len(), GT),
    ensures
        0 <= pos,
        pos + 1 < s.len(),
        is_ident_start(s[pos + 1]),
        ident_end(s, pos + 2) == pos + 1 + n.tag.len(),
        s.subrange(pos + 1, pos + 1 + n.tag.len()) == n.tag,
        spec_attributes(s, pos + 1 + n.tag.len()) matches Ok((raw, p)) && p == pos + 1
            + n.tag.len() + attributes_text(written(n), 0).len() && bound(raw) == Ok::<
            Seq<AttributeModel>,
            SyntaxError,
        >(written(n)),
        key_of(written(n)) == n.key,
        without_key(written(n)) == n.attributes,
{
    let w = written(n);
    let head = seq![LT] + n.tag;
    let attrs = attributes_text(w, 0);
    lemma_occurs_split(s, head, attrs, pos);
    lemma_occurs_split(s, seq![LT], n.tag, pos);
    lemma_occurs_bytes(s, n.tag, pos + 1);
    let t = n.tag.len() as int;
    let name_end = pos + 1 + t;
    assert(s[pos + 1 + 0] == n.tag[0]);
    if w.len() > 0 {
        lemma_attributes_text_first(w, 0);
        lemma_occurs_bytes(s, attrs, name_end);
        assert(s[name_end + 0] == attrs[0]);
    }
    assert(!is_ident_char(s[name_end]));
    assert forall|i: int| pos + 2 <= i < name_end implies is_ident_char(#[trigger] s[i]) by {
        assert(s[pos + 1 + (i - pos - 1)] == n.tag[i - pos - 1]);
    }
    lemma_ident_end_at(s, pos + 2, t - 1);
    lemma_written(n);
    lemma_attributes_at(s, name_end, w, 0);
    let (raw, found) = spec_attributes(s, name_end)->Ok_0;
    lemma_bound_plain(raw, w);
}

/// The text of a closing tag reads as the name of the tag between `</` and
/// `>`.
proof fn lemma_node_close(s: Seq<u8>, q: int, tag: Seq<u8>)
    requires
        is_ident(tag),
        occurs_at(s, seq![LT, SLASH] + tag + seq![GT], q),
    ensures
        has_byte(s, q, LT),
        has_byte(s, q + 1, SLASH),
        ident_end(s, q + 2) == q + 2 + tag.len(),
        s.subrange(q + 2, q + 2 + tag.len()) == tag,
        skip_space(s, q + 2 + tag.len()) == q + 2 + tag.len(),
        has_byte(s, q + 2 + tag.len(), GT),
{
    let close = seq![LT, SLASH] + tag + seq![GT];
    let t = tag.len() as int;
    lemma_occurs_bytes(s, close, q);
    assert(close[0] == LT && close[1] == SLASH);
    assert(s[q + 0] == close[0] && s[q + 1] == close[1]);
    lemma_occurs_split(s, seq![LT, SLASH] + tag, seq![GT], q);
    lemma_occurs_split(s, seq![LT, SLASH], tag, q);
    lemma_occurs_bytes(s, tag, q + 2);
    assert(close[2 + t] == GT);
    assert(s[q + (2 + t)] == close[2 + t]);
    assert forall|i: int| q + 2 <= i < q + 2 + t implies is_ident_char(#[trigger] s[i]) by {
        assert(s[q + 2 + (i - q - 2)] == tag[i - q - 2]);
    }
    lemma_ident_end_at(s, q + 2, t);
}

/// The text of a node parses to the node.
pub proof fn lemma_node_at(s: Seq<u8>, pos: int, n: NodeModel)
    requires
        node_ok(n),
        occurs_at(s, node_text(n), pos),
    ensures
        spec_element(s, pos) == Ok::<(NodeModel, int), SyntaxError>(
            (n, pos + node_text(n).len()),
        ),
    decreases n, 0int,
{
    let w = written(n);
    let text = node_text(n);
    let open = seq![LT] + n.tag + attributes_text(w, 0);
    let tail = if n.children.len() == 0 {
        seq![SLASH, GT]
    } else {
        seq![GT] + items_text(n.children, 0) + seq![LT, SLASH] + n.tag + seq![GT]
    };
    assert(text == open + tail);
    lemma_occurs_split(s, open, tail, pos);
    let p = pos + open.len();
    lemma_occurs_bytes(s, tail, p);
    assert(s[p + 0] == tail[0]);
    assert(tail[0] == SLASH || tail[0] == GT);
    lemma_node_open(s, pos, n);
    if n.children.len() == 0 {
        assert(tail[1] == GT);
        assert(s[p + 1] == tail[1]);
        assert(n.children == Seq::<ChildModel>::empty());
    } else {
        let items = items_text(n.children, 0);
        let close = seq![LT, SLASH] + n.tag + seq![GT];
        assert(tail == seq![GT] + items + close) by {
            assert(seq![GT] + items + seq![LT, SLASH] + n.tag + seq![GT] == seq![GT] + items + (
            seq![LT, SLASH] + n.tag + seq![GT]));
        }
        lemma_occurs_split(s, seq![GT] + items, close, p);
        lemma_occurs_split(s, seq![GT], items, p);
        let q = p + 1 + items.len();
        lemma_node_close(s, q, n.tag);
        lemma_items_at(s, p + 1, n.children, 0);
        assert(n.children.subrange(0, n.children.len() as int) == n.children);
    }
}

/// The text of a control form, from the space after its keyword on, parses
/// to the head and the inner child of the form.
pub proof fn lemma_control_at(s: Seq<u8>, pos: int, kw: int, head: Seq<u8>, inner: ChildModel)
    requires
        0 <= pos,
        kw == 2 || kw == 3,
        head_ok(head),
        child_ok(inner),
        occurs_at(s, control_rest(head, inner), pos + 1 + kw),
    ensures
        spec_control(s, pos, kw) == Ok::<((Seq<u8>, ChildModel), int), SyntaxError>(
            ((head, inner), pos + 1 + kw + 1 + head.len() + 2 + child_text(inner).len() + 2),
        ),
    decreases inner, 1int,
{
    let q = pos + 1 + kw;
    let body = child_text(inner);
    let mid = seq![SPACE, OPEN_BRACE];
    let close = seq![CLOSE_BRACE, CLOSE_BRACE];
    let text = seq![SPACE] + head + mid + body + close;
    let g = head.len() as int;
    lemma_occurs_split(s, seq![SPACE] + head + mid + body, close, q);
    lemma_occurs_split(s, seq![SPACE] + head + mid, body, q);
    lemma_occurs_split(s, seq![SPACE] + head, mid, q);
    lemma_occurs_split(s, seq![SPACE], head, q);
    lemma_occurs_bytes(s, seq![SPACE], q);
    lemma_occurs_bytes(s, head, q + 1);
    lemma_occurs_bytes(s, mid, q + 1 + g);
    lemma_occurs_bytes(s, body, q + 1 + g + 2);
    lemma_occurs_bytes(s, close, q + 1 + g + 2 + body.len());
    lemma_child_text_first(inner);
    let h = q + 1;
    assert(s[q + 0] == seq![SPACE][0]);
    assert(s[q + 1 + 0] == head[0]);
    assert(skip_space(s, h) == h);
    assert(skip_space(s, q) == h);
    let b = h + g + 1;
    assert(s[q + 1 + g + 0] == mid[0] && s[q + 1 + g + 1] == mid[1]);
    assert forall|i: int| h <= i < h + g + 1 implies (#[trigger] s[i]) != OPEN_BRACE && s[i]
        != CLOSE_BRACE by {
        if i < h + g {
            assert(s[q + 1 + (i - h)] == head[i - h]);
        }
    }
    lemma_brace_from_at(s, h, g + 1);
    assert(brace_from(s, h) == b);
    assert(s.subrange(h, b) =~= head.push(SPACE));
    lemma_trim_end_space(head);
    let i = b + 1;
    assert(s[q + 1 + g + 2 + 0] == body[0]);
    assert(skip_space(s, i) == i);
    lemma_child_at(s, i, inner);
    let next = i + body.len();
    assert(s[next + 0] == close[0] && s[next + 1] == close[1]);
    assert(skip_space(s, next) == next);
    assert(skip_space(s, next + 1) == next + 1);
}

/// The text of an expression child parses to the expression.
proof fn lemma_expression_at(s: Seq<u8>, pos: int, e: Seq<u8>)
    requires
        expression_ok(e),
        occurs_at(s, seq![OPEN_BRACE] + e + seq![CLOSE_BRACE], pos),
    ensures
        spec_item(s, pos) == Ok::<(ChildModel, int), SyntaxError>(
            (ChildModel::Expression(e), pos + e.len() + 2),
        ),
{
    let text = seq![OPEN_BRACE] + e + seq![CLOSE_BRACE];
    let closed = e.push(CLOSE_BRACE);
    let m = e.len() as int;
    lemma_occurs_bytes(s, text, pos);
    assert(s[pos + 0] == text[0]);
    assert forall|i: int| 0 <= i <= m implies s[pos + 1 + i] == closed[i] by {
        assert(text[1 + i] == closed[i]);
        assert(s[pos + (1 + i)] == text[1 + i]);
    }
    assert(s[pos + 1 + 0] == closed[0]);
    if m >= 1 {
        assert(s[pos + 1 + 1] == closed[1]);
    }
    if m >= 2 {
        assert(s[pos + 1 + 2] == closed[2]);
    }
    if m >= 3 {
        assert(s[pos + 1 + 3] == closed[3]);
    }
    assert(!keyword_if(s, pos + 1));
    assert(!keyword_for(s, pos + 1));
    lemma_occurs_split(s, seq![OPEN_BRACE] + e, seq![CLOSE_BRACE], pos);
    lemma_occurs_split(s, seq![OPEN_BRACE], e, pos);
    assert(s[pos + 1 + m] == closed[m]);
    lemma_balanced_block(s, pos + 1, e);
}

/// The text that follows the keyword of a control form.
pub open spec fn control_rest(head: Seq<u8>, inner: ChildModel) -> Seq<u8> {
    seq![SPACE] + head + seq![SPACE, OPEN_BRACE] + child_text(inner) + seq![
        CLOSE_BRACE,
        CLOSE_BRACE,
    ]
}

/// Where the text of a conditional child stands, its keyword stands, and
/// after it the rest of the form.
proof fn lemma_conditional_lead(s: Seq<u8>, pos: int, guard: Seq<u8>, inner: ChildModel)
    requires
        occurs_at(s, child_text(ChildModel::Conditional(guard, Box::new(inner))), pos),
    ensures
        has_byte(s, pos, OPEN_BRACE),
        keyword_if(s, pos + 1),
        occurs_at(s, control_rest(guard, inner), pos + 3),
        child_text(ChildModel::Conditional(guard, Box::new(inner))).len() == 3 + control_rest(
            guard,
            inner,
        ).len(),
{
    let text = child_text(ChildModel::Conditional(guard, Box::new(inner)));
    let lead = seq![OPEN_BRACE, 0x69u8, 0x66u8];
    let rest = control_rest(guard, inner);
    assert(text =~= lead + rest);
    lemma_occurs_split(s, lead, rest, pos);
    lemma_occurs_bytes(s, text, pos);
    assert(text[0] == OPEN_BRACE && text[1] == 0x69 && text[2] == 0x66 && text[3] == SPACE);
    assert(s[pos + 0] == text[0] && s[pos + 1] == text[1] && s[pos + 2] == text[2] && s[pos + 3]
        == text[3]);
}

/// Where the text of an iteration child stands, its keyword stands, and
/// after it the rest of the form.
proof fn lemma_iteration_lead(s: Seq<u8>, pos: int, source: Seq<u8>, inner: ChildModel)
    requires
        occurs_at(s, child_text(ChildModel::Iteration(source, Box::new(inner))), pos),
    ensures
        has_byte(s, pos, OPEN_BRACE),
        !keyword_if(s, pos + 1),
        keyword_for(s, pos + 1),
        occurs_at(s, control_rest(source, inner), pos + 4),
        child_text(ChildModel::Iteration(source, Box::new(inner))).len() == 4 + control_rest(
            source,
            inner,
        ).len(),
{
    let text = child_text(ChildModel::Iteration(source, Box::new(inner)));
    let lead = seq![OPEN_BRACE, 0x66u8, 0x6fu8, 0x72u8];
    let rest = control_rest(source, inner);
    assert(text =~= lead + rest);
    lemma_occurs_split(s, lead, rest, pos);
    lemma_occurs_bytes(s, text, pos);
    assert(text[0] == OPEN_BRACE && text[1] == 0x66 && text[2] == 0x6f && text[3] == 0x72
        && text[4] == SPACE);
    assert(s[pos + 0] == text[0] && s[pos + 1] == text[1] && s[pos + 2] == text[2] && s[pos + 3]
        == text[3] && s[pos + 4] == text[4]);
}

/// The text of a child item parses to the item.
pub proof fn lemma_child_at(s: Seq<u8>, pos: int, c: ChildModel)
    requires
        child_ok(c),
        occurs_at(s, child_text(c), pos),
    ensures
        spec_item(s, pos) == Ok::<(ChildModel, int), SyntaxError>((c, pos + child_text(c).len())),
    decreases c, 0int,
{
    match c {
        ChildModel::LiteralWidget(n) => {
            lemma_occurs_bytes(s, node_text(n), pos);
            assert(node_ok(n));
            lemma_node_text_first(n);
            assert(s[pos + 0] == node_text(n)[0]);
            lemma_node_at(s, pos, n);
        },
        ChildModel::Expression(e) => {
            lemma_expression_at(s, pos, e);
        },
        ChildModel::Conditional(guard, inner) => {
            lemma_conditional_lead(s, pos, guard, *inner);
            lemma_control_at(s, pos, 2, guard, *inner);
        },
        ChildModel::Iteration(source, inner) => {
            lemma_iteration_lead(s, pos, source, *inner);
            lemma_control_at(s, pos, 3, source, *inner);
        },
    }
}

/// The text of a list of child items parses to those items, where the input
/// ends after it or a closing tag follows.
pub proof fn lemma_items_at(s: Seq<u8>, pos: int, items: Seq<ChildModel>, from: int)
    requires
        0 <= from <= items.len(),
        items_ok(items),
        occurs_at(s, items_text(items, from), pos),
        pos + items_text(items, from).len() == s.len() || (has_byte(
            s,
            pos + items_text(items, from).len(),
            LT,
        ) && has_byte(s, pos + items_text(items, from).len() + 1, SLASH)),
    ensures
        spec_children(s, pos) == Ok::<(Seq<ChildModel>, int), SyntaxError>(
            (items.subrange(from, items.len() as int), pos + items_text(items, from).len()),
        ),
    decreases items, items.len() - from,
{
    if from == items.len() {
        assert(skip_space(s, pos) == pos);
        assert(items.subrange(from, items.len() as int) == Seq::<ChildModel>::empty());
    } else {
        let c = items[from];
        let first = child_text(c);
        let rest = items_text(items, from + 1);
        assert(child_ok(c));
        lemma_occurs_split(s, first, rest, pos);
        lemma_occurs_bytes(s, first, pos);
        lemma_child_text_first(c);
        assert(s[pos + 0] == first[0]);
        assert(s[pos + 1] == first[1]);
        assert(skip_space(s, pos) == pos);
        lemma_child_at(s, pos, c);
        let next = pos + first.len();
        assert(spec_child(s, pos) == Ok::<(Seq<ChildModel>, int), SyntaxError>((seq![c], next)));
        lemma_items_at(s, next, items, from + 1);
        assert(seq![c] + items.subrange(from + 1, items.len() as int) == items.subrange(
            from,
            items.len() as int,
        ));
    }
}

/// The canonical markup of child items that markup can stand for parses
/// back to those items.
pub proof fn lemma_canonical_parses_back(items: Seq<ChildModel>)
    requires
        items_ok(items),
    ensures
        spec_markup(canonical(items)) == Ok::<Seq<ChildModel>, SyntaxError>(items),
{
    let s = canonical(items);
    assert(s.subrange(0, s.len() as int) == s);
    lemma_items_at(s, 0, items, 0);
    assert(items.subrange(0, items.len() as int) == items);
}

/// Parsing is faithful: where a markup parses, the canonical markup of what
/// it parses to parses to the same.
pub proof fn lemma_parse_is_faithful(input: Seq<u8>)
    requires
        spec_markup(input) is Ok,
    ensures
        spec_markup(canonical(spec_markup(input)->Ok_0)) == spec_markup(input),
{
    lemma_parsed_ok(input);
    lemma_canonical_parses_back(spec_markup(input)->Ok_0);
}


/// A fragment is transparent: child items in a fragment parse to the same
/// as the child items alone, in the same order.
pub proof fn lemma_fragment_is_transparent(items: Seq<ChildModel>)
    requires
        items_ok(items),
    ensures
        spec_markup(seq![LT, GT] + canonical(items) + seq![LT, SLASH, GT]) == spec_markup(
            canonical(items),
        ),
{
    lemma_canonical_parses_back(items);
    let text = canonical(items);
    let open = seq![LT, GT];
    let close = seq![LT, SLASH, GT];
    let s = open + text + close;
    let q = 2 + text.len() as int;
    assert(s[0] == LT && s[1] == GT);
    assert(s[q + 0] == close[0] && s[q + 1] == close[1] && s[q + 2] == close[2]);
    assert(s.subrange(2, q) =~= text);
    lemma_items_at(s, 2, items, 0);
    assert(items.subrange(0, items.len() as int) == items);
    assert(skip_space(s, 0) == 0);
    assert(spec_child(s, 0) == Ok::<(Seq<ChildModel>, int), SyntaxError>((items, q + 3)));
    assert(skip_space(s, q + 3) == q + 3);
    assert(spec_children(s, q + 3) == Ok::<(Seq<ChildModel>, int), SyntaxError>(
        (Seq::empty(), q + 3),
    ));
    assert(items + Seq::<ChildModel>::empty() == items);
}

} // verus!
