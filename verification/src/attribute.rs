//! The attribute binder: from the attributes as written on a tag to the
//! node's attribute mapping.

use vstd::prelude::*;
use crate::error::{Span, SyntaxError, SyntaxErrorKind};
use crate::text::{
    balanced, block_end, block_end_from, byte_is_ident_start, byte_is_space, bytes_eq,
    copy_bytes, copy_range, has_byte, ident_end, ident_end_from, is_balanced, is_ident_start,
    is_space, peek, skip_space, skip_space_from, trim, trim_end, COLON, COMMA, OPEN_BRACE, PIPE,
};
use crate::widget::{attributes_view, Attribute, AttributeModel, AttributeValue, ValueModel};

verus! {

/// An attribute as it stands on a tag, before binding.
#[derive(Clone, Debug, PartialEq, Eq)]
pub enum RawAttribute {
    /// `name={value}`, or the shorthand `name`, whose value is the name.
    Named { name: Vec<u8>, value: Vec<u8>, span: Span },
    /// `{...source}`.
    Spread { source: Vec<u8>, span: Span },
}

/// The model of a [`RawAttribute`].
pub enum RawModel {
    Named { name: Seq<u8>, value: Seq<u8>, span: Span },
    Spread { source: Seq<u8>, span: Span },
}

impl View for RawAttribute {
    type V = RawModel;

    open spec fn view(&self) -> RawModel {
        match *self {
            RawAttribute::Named { name, value, span } => RawModel::Named {
                name: name@,
                value: value@,
                span,
            },
            RawAttribute::Spread { source, span } => RawModel::Spread { source: source@, span },
        }
    }
}

/// The models of raw attributes, in order.
pub open spec fn raws_view(s: Seq<RawAttribute>) -> Seq<RawModel> {
    Seq::new(s.len(), |i: int| s[i]@)
}

/// A value is callable when, after leading white space, it starts as a
/// closure does: with `|`, or with `move` followed by `|` or white space.
pub open spec fn is_callable(text: Seq<u8>) -> bool {
    let p = skip_space(text, 0);
    ||| has_byte(text, p, PIPE)
    ||| {
        &&& has_byte(text, p, 0x6d)
        &&& has_byte(text, p + 1, 0x6f)
        &&& has_byte(text, p + 2, 0x76)
        &&& has_byte(text, p + 3, 0x65)
        &&& (has_byte(text, p + 4, PIPE) || (p + 4 < text.len() && is_space(text[p + 4])))
    }
}

/// The value an expression binds as: a handler when it is callable, a
/// literal otherwise.
pub open spec fn value_of(text: Seq<u8>) -> ValueModel {
    if is_callable(text) {
        ValueModel::Handler(text)
    } else {
        ValueModel::Literal(text)
    }
}

/// `(`, `[` or `{`.
pub open spec fn is_opener(b: u8) -> bool {
    b == 0x28 || b == 0x5b || b == 0x7b
}

/// `)`, `]` or `}`.
pub open spec fn is_closer(b: u8) -> bool {
    b == 0x29 || b == 0x5d || b == 0x7d
}

/// The index of the first `,` at or after `pos` that stands outside every
/// bracket opened at or after `pos`, or the length of `s` when there is none.
pub open spec fn field_end(s: Seq<u8>, pos: int, depth: nat) -> int
    decreases s.len() - pos,
{
    if !(0 <= pos < s.len()) {
        pos
    } else if s[pos] == COMMA && depth == 0 {
        pos
    } else if is_opener(s[pos]) {
        field_end(s, pos + 1, depth + 1)
    } else if is_closer(s[pos]) {
        field_end(s, pos + 1, if depth > 0 { (depth - 1) as nat } else { 0 })
    } else {
        field_end(s, pos + 1, depth)
    }
}

/// A field ends at or after its start, at a comma or at the end of the
/// text.
pub proof fn lemma_field_end_bounds(s: Seq<u8>, pos: int, depth: nat)
    requires
        0 <= pos <= s.len(),
    ensures
        pos <= field_end(s, pos, depth) <= s.len(),
        field_end(s, pos, depth) < s.len() ==> s[field_end(s, pos, depth)] == COMMA,
    decreases s.len() - pos,
{
    if pos < s.len() {
        if s[pos] == COMMA && depth == 0 {
        } else if is_opener(s[pos]) {
            lemma_field_end_bounds(s, pos + 1, depth + 1);
        } else if is_closer(s[pos]) {
            lemma_field_end_bounds(s, pos + 1, if depth > 0 { (depth - 1) as nat } else { 0 });
        } else {
            lemma_field_end_bounds(s, pos + 1, depth);
        }
    }
}

/// The fields written in the body of a record literal from `pos` on:
/// `name: value` entries separated by commas, a trailing comma allowed, each
/// value a text in which braces balance. `None` when the text is no such
/// list. (The test that a field ends at or after `pos` holds of every input
/// and is there for the termination measure.)
pub open spec fn fields_from(body: Seq<u8>, pos: int) -> Option<Seq<AttributeModel>>
    decreases body.len() - pos,
{
    let p = skip_space(body, pos);
    let name_end = ident_end(body, p + 1);
    let colon = skip_space(body, name_end);
    let end = field_end(body, colon + 1, 0);
    let value = trim(body.subrange(colon + 1, end));
    if !(0 <= pos <= body.len()) {
        None
    } else if p >= body.len() {
        Some(Seq::empty())
    } else if !is_ident_start(body[p]) {
        None
    } else if !has_byte(body, colon, COLON) {
        None
    } else if value.len() == 0 || !balanced(value) {
        None
    } else {
        let field = AttributeModel { name: body.subrange(p, name_end), value: value_of(value) };
        if end >= body.len() {
            Some(seq![field])
        } else if end < pos {
            None
        } else {
            match fields_from(body, end + 1) {
                Some(rest) => Some(seq![field] + rest),
                None => None,
            }
        }
    }
}

/// The fields of a record literal: `source` is, apart from white space
/// around it, one block in braces whose body is a list of fields. `None`
/// when `source` is not record-shaped.
pub open spec fn record_fields(source: Seq<u8>) -> Option<Seq<AttributeModel>> {
    let start = skip_space(source, 0);
    if !has_byte(source, start, OPEN_BRACE) {
        None
    } else {
        match block_end(source, start + 1, 0) {
            None => None,
            Some(end) => if skip_space(source, end + 1) != source.len() {
                None
            } else {
                fields_from(source.subrange(start + 1, end), 0)
            },
        }
    }
}

/// Removes the white space at both ends.
pub fn trim_bytes(s: &[u8]) -> (out: Vec<u8>)
    ensures
        out@ == trim(s@),
{
    let start = skip_space_from(s, 0);
    let mut end: usize = s.len();
    while end > start && byte_is_space(s[end - 1])
        invariant
            start <= end <= s.len(),
            trim(s@) == trim_end(s@.subrange(start as int, end as int)),
        decreases end,
    {
        assert(s@.subrange(start as int, end as int).drop_last() == s@.subrange(
            start as int,
            end - 1,
        ));
        end -= 1;
    }
    copy_range(s, start, end)
}

/// Tells whether a value is bound as a handler.
pub fn callable(text: &[u8]) -> (r: bool)
    ensures
        r == is_callable(text@),
{
    let p = skip_space_from(text, 0);
    if peek(text, p, PIPE) {
        return true;
    }
    if text.len() - p < 5 {
        return false;
    }
    text[p] == 0x6d && text[p + 1] == 0x6f && text[p + 2] == 0x76 && text[p + 3] == 0x65 && (text[p
        + 4] == PIPE || byte_is_space(text[p + 4]))
}

/// Tags a value as a handler or a literal.
pub fn bind_value(text: Vec<u8>) -> (value: AttributeValue)
    ensures
        value@ == value_of(text@),
{
    if callable(text.as_slice()) {
        AttributeValue::Handler(text)
    } else {
        AttributeValue::Literal(text)
    }
}

fn field_end_from(s: &[u8], pos: usize) -> (end: usize)
    requires
        pos <= s.len(),
    ensures
        end == field_end(s@, pos as int, 0),
        pos <= end <= s.len(),
{
    let mut p: usize = pos;
    let mut depth: usize = 0;
    while p < s.len()
        invariant
            pos <= p <= s.len(),
            depth <= p - pos,
            field_end(s@, pos as int, 0) == field_end(s@, p as int, depth as nat),
        decreases s.len() - p,
    {
        let b = s[p];
        if b == COMMA && depth == 0 {
            return p;
        } else if b == 0x28 || b == 0x5b || b == 0x7b {
            depth += 1;
        } else if b == 0x29 || b == 0x5d || b == 0x7d {
            if depth > 0 {
                depth -= 1;
            }
        }
        p += 1;
    }
    p
}

/// Reads the fields of a record body.
fn read_fields(body: &[u8]) -> (fields: Option<Vec<Attribute>>)
    ensures
        match fields {
            Some(f) => fields_from(body@, 0) == Some(attributes_view(f@)),
            None => fields_from(body@, 0) is None,
        },
{
    let mut fields: Vec<Attribute> = Vec::new();
    let mut pos: usize = 0;
    loop
        invariant
            pos <= body.len(),
            fields_from(body@, 0) == match fields_from(body@, pos as int) {
                Some(rest) => Some(attributes_view(fields@) + rest),
                None => None,
            },
        decreases body.len() - pos,
    {
        let p = skip_space_from(body, pos);
        if p >= body.len() {
            assert(attributes_view(fields@) + Seq::<AttributeModel>::empty() == attributes_view(
                fields@,
            ));
            return Some(fields);
        }
        if !byte_is_ident_start(body[p]) {
            return None;
        }
        let name_end = ident_end_from(body, p + 1);
        let colon = skip_space_from(body, name_end);
        if !peek(body, colon, COLON) {
            return None;
        }
        let end = field_end_from(body, colon + 1);
        let raw_value = copy_range(body, colon + 1, end);
        let value = trim_bytes(raw_value.as_slice());
        if value.len() == 0 || !is_balanced(value.as_slice()) {
            return None;
        }
        let ghost before = attributes_view(fields@);
        let field = Attribute { name: copy_range(body, p, name_end), value: bind_value(value) };
        let ghost field_model = field@;
        fields.push(field);
        assert(attributes_view(fields@) == before + seq![field_model]);
        if end >= body.len() {
            return Some(fields);
        }
        proof {
            match fields_from(body@, end + 1) {
                Some(rest) => {
                    assert(before + (seq![field_model] + rest) == (before + seq![field_model])
                        + rest);
                },
                None => {},
            }
        }
        pos = end + 1;
    }
}

/// Reads a spread source as a record literal, if it is one.
pub fn read_record(source: &[u8]) -> (fields: Option<Vec<Attribute>>)
    ensures
        match fields {
            Some(f) => record_fields(source@) == Some(attributes_view(f@)),
            None => record_fields(source@) is None,
        },
{
    let start = skip_space_from(source, 0);
    if !peek(source, start, OPEN_BRACE) {
        return None;
    }
    match block_end_from(source, start + 1) {
        None => None,
        Some(end) => {
            if skip_space_from(source, end + 1) != source.len() {
                None
            } else {
                let body = copy_range(source, start + 1, end);
                read_fields(body.as_slice())
            }
        },
    }
}

/// The first index from `from` on at which `attrs` holds the name, or the
/// length of `attrs` when no entry from there on has it.
pub open spec fn find_name(attrs: Seq<AttributeModel>, name: Seq<u8>, from: int) -> int
    decreases attrs.len() - from,
{
    if from < 0 || from >= attrs.len() {
        attrs.len() as int
    } else if attrs[from].name == name {
        from
    } else {
        find_name(attrs, name, from + 1)
    }
}

/// Sets an attribute: in the place of the entry of that name where there is
/// one, at the end otherwise.
pub open spec fn upsert(attrs: Seq<AttributeModel>, a: AttributeModel) -> Seq<AttributeModel> {
    let i = find_name(attrs, a.name, 0);
    if i < attrs.len() {
        attrs.update(i, a)
    } else {
        attrs.push(a)
    }
}

/// Sets the first `n` of `fields`, in order.
pub open spec fn upsert_all(attrs: Seq<AttributeModel>, fields: Seq<AttributeModel>, n: int) -> Seq<
    AttributeModel,
>
    decreases n,
{
    if n <= 0 {
        attrs
    } else {
        upsert(upsert_all(attrs, fields, n - 1), fields[n - 1])
    }
}

/// A spread whose source is no record literal, and so cannot be expanded.
pub open spec fn is_opaque(r: RawModel) -> bool {
    r matches RawModel::Spread { source, .. } && record_fields(source) is None
}

/// The fields of the record spreads among the first `n` entries, merged in
/// the order met: a later field replaces an earlier one of the same name.
pub open spec fn merge_spreads(raw: Seq<RawModel>, n: int) -> Seq<AttributeModel>
    decreases n,
{
    if n <= 0 {
        Seq::empty()
    } else {
        let merged = merge_spreads(raw, n - 1);
        match raw[n - 1] {
            RawModel::Spread { source, .. } => match record_fields(source) {
                Some(fields) => upsert_all(merged, fields, fields.len() as int),
                None => merged,
            },
            RawModel::Named { .. } => merged,
        }
    }
}

/// The spreads among the first `n` entries that cannot be expanded, kept as
/// entries without a name.
pub open spec fn opaque_spreads(raw: Seq<RawModel>, n: int) -> Seq<AttributeModel>
    decreases n,
{
    if n <= 0 {
        Seq::empty()
    } else {
        let kept = opaque_spreads(raw, n - 1);
        match raw[n - 1] {
            RawModel::Spread { source, .. } => if record_fields(source) is None {
                kept.push(AttributeModel { name: Seq::empty(), value: ValueModel::Spread(source) })
            } else {
                kept
            },
            RawModel::Named { .. } => kept,
        }
    }
}

/// `base` with the named attributes among the first `n` entries set on top.
pub open spec fn apply_named(raw: Seq<RawModel>, n: int, base: Seq<AttributeModel>) -> Seq<
    AttributeModel,
>
    decreases n,
{
    if n <= 0 {
        base
    } else {
        let applied = apply_named(raw, n - 1, base);
        match raw[n - 1] {
            RawModel::Named { name, value, .. } => upsert(
                applied,
                AttributeModel { name, value: value_of(value) },
            ),
            RawModel::Spread { .. } => applied,
        }
    }
}

/// A named attribute of that name stands before index `j`.
pub open spec fn named_before(raw: Seq<RawModel>, j: int, name: Seq<u8>) -> bool {
    exists|i: int| 0 <= i < j && (#[trigger] raw[i]) is Named && raw[i]->Named_name == name
}

/// A spread that cannot be expanded stands before index `j`.
pub open spec fn opaque_before(raw: Seq<RawModel>, j: int) -> bool {
    exists|i: int| 0 <= i < j && is_opaque(#[trigger] raw[i])
}

/// What entry `j` conflicts with among the entries before it.
pub open spec fn entry_conflict(raw: Seq<RawModel>, j: int) -> Option<SyntaxError> {
    match raw[j] {
        RawModel::Named { name, span, .. } => if named_before(raw, j, name) {
            Some(SyntaxError { kind: SyntaxErrorKind::DuplicateAttribute, span })
        } else {
            None
        },
        RawModel::Spread { span, .. } => if is_opaque(raw[j]) && opaque_before(raw, j) {
            Some(SyntaxError { kind: SyntaxErrorKind::MultipleSpreads, span })
        } else {
            None
        },
    }
}

/// The conflict of the leftmost conflicting entry among the first `n`.
pub open spec fn first_conflict(raw: Seq<RawModel>, n: int) -> Option<SyntaxError>
    decreases n,
{
    if n <= 0 {
        None
    } else {
        match first_conflict(raw, n - 1) {
            Some(e) => Some(e),
            None => entry_conflict(raw, n - 1),
        }
    }
}

/// The attribute mapping of a tag: the error of the first conflict where
/// there is one; otherwise the spread that cannot be expanded, if any, then
/// the merged fields of the record spreads with the named attributes set on
/// top of them.
pub open spec fn bound(raw: Seq<RawModel>) -> Result<Seq<AttributeModel>, SyntaxError> {
    match first_conflict(raw, raw.len() as int) {
        Some(e) => Err(e),
        None => Ok(
            opaque_spreads(raw, raw.len() as int) + apply_named(
                raw,
                raw.len() as int,
                merge_spreads(raw, raw.len() as int),
            ),
        ),
    }
}

/// Copies a value.
pub fn copy_value(v: &AttributeValue) -> (out: AttributeValue)
    ensures
        out@ == v@,
{
    match v {
        AttributeValue::Literal(e) => AttributeValue::Literal(copy_bytes(e.as_slice())),
        AttributeValue::Spread(e) => AttributeValue::Spread(copy_bytes(e.as_slice())),
        AttributeValue::Handler(e) => AttributeValue::Handler(copy_bytes(e.as_slice())),
    }
}

/// Copies an entry.
pub fn copy_attribute(a: &Attribute) -> (out: Attribute)
    ensures
        out@ == a@,
{
    Attribute { name: copy_bytes(a.name.as_slice()), value: copy_value(&a.value) }
}

/// Sets one attribute in a mapping.
pub fn set_attribute(attrs: &mut Vec<Attribute>, a: Attribute)
    ensures
        attributes_view(final(attrs)@) == upsert(attributes_view(old(attrs)@), a@),
{
    let ghost before = attributes_view(attrs@);
    let mut i: usize = 0;
    while i < attrs.len()
        invariant
            i <= attrs.len(),
            attributes_view(attrs@) == before,
            before == attributes_view(old(attrs)@),
            find_name(before, a@.name, 0) == find_name(before, a@.name, i as int),
        decreases attrs.len() - i,
    {
        if bytes_eq(attrs[i].name.as_slice(), a.name.as_slice()) {
            let ghost model = a@;
            assert(before[i as int].name == model.name);
            assert(find_name(before, model.name, i as int) == i);
            attrs.set(i, a);
            assert(attributes_view(attrs@) == before.update(i as int, model));
            return ;
        }
        i += 1;
    }
    let ghost model = a@;
    attrs.push(a);
    assert(attributes_view(attrs@) == before.push(model));
}

fn has_named_before(raw: &Vec<RawAttribute>, j: usize, name: &Vec<u8>) -> (r: bool)
    requires
        j <= raw.len(),
    ensures
        r == named_before(raws_view(raw@), j as int, name@),
{
    let mut i: usize = 0;
    while i < j
        invariant
            i <= j <= raw.len(),
            forall|k: int|
                0 <= k < i ==> !((#[trigger] raws_view(raw@)[k]) is Named && raws_view(
                    raw@,
                )[k]->Named_name == name@),
        decreases j - i,
    {
        match &raw[i] {
            RawAttribute::Named { name: other, .. } => {
                if bytes_eq(other.as_slice(), name.as_slice()) {
                    assert(raws_view(raw@)[i as int] is Named);
                    return true;
                }
            },
            RawAttribute::Spread { .. } => {},
        }
        i += 1;
    }
    false
}

/// Binds the attributes of one tag, given in the order written.
pub fn bind(raw: &Vec<RawAttribute>) -> (result: Result<Vec<Attribute>, SyntaxError>)
    ensures
        match result {
            Ok(attrs) => bound(raws_view(raw@)) == Ok::<Seq<AttributeModel>, SyntaxError>(
                attributes_view(attrs@),
            ),
            Err(e) => bound(raws_view(raw@)) == Err::<Seq<AttributeModel>, SyntaxError>(e),
        },
{
    let ghost model = raws_view(raw@);
    let mut kept: Vec<Attribute> = Vec::new();
    let mut merged: Vec<Attribute> = Vec::new();
    let mut j: usize = 0;
    while j < raw.len()
        invariant
            j <= raw.len(),
            model == raws_view(raw@),
            first_conflict(model, j as int) is None,
            attributes_view(kept@) == opaque_spreads(model, j as int),
            attributes_view(merged@) == merge_spreads(model, j as int),
            (kept.len() > 0) == opaque_before(model, j as int),
        decreases raw.len() - j,
    {
        let ghost kept_before = attributes_view(kept@);
        match &raw[j] {
            RawAttribute::Named { name, span, .. } => {
                if has_named_before(raw, j, name) {
                    assert(first_conflict(model, j + 1) == entry_conflict(model, j as int));
                    proof {
                        lemma_conflict_stays(model, j + 1, raw.len() as int);
                    }
                    return Err(SyntaxError { kind: SyntaxErrorKind::DuplicateAttribute, span: *span });
                }
                assert(!is_opaque(model[j as int]));
            },
            RawAttribute::Spread { source, span } => {
                match read_record(source.as_slice()) {
                    Some(fields) => {
                        let ghost fields_model = attributes_view(fields@);
                        let ghost merged_before = attributes_view(merged@);
                        let mut k: usize = 0;
                        while k < fields.len()
                            invariant
                                k <= fields.len(),
                                fields_model == attributes_view(fields@),
                                attributes_view(merged@) == upsert_all(
                                    merged_before,
                                    fields_model,
                                    k as int,
                                ),
                            decreases fields.len() - k,
                        {
                            set_attribute(&mut merged, copy_attribute(&fields[k]));
                            k += 1;
                        }
                        assert(!is_opaque(model[j as int]));
                    },
                    None => {
                        assert(is_opaque(model[j as int]));
                        if kept.len() > 0 {
                            assert(first_conflict(model, j + 1) == entry_conflict(model, j as int));
                            proof {
                                lemma_conflict_stays(model, j + 1, raw.len() as int);
                            }
                            return Err(
                                SyntaxError { kind: SyntaxErrorKind::MultipleSpreads, span: *span },
                            );
                        }
                        let entry = Attribute {
                            name: Vec::new(),
                            value: AttributeValue::Spread(copy_bytes(source.as_slice())),
                        };
                        let ghost entry_model = entry@;
                        kept.push(entry);
                        assert(attributes_view(kept@) == kept_before.push(entry_model));
                    },
                }
            },
        }
        assert(opaque_before(model, j + 1) == (opaque_before(model, j as int) || is_opaque(
            model[j as int],
        )));
        j += 1;
    }
    let mut n: usize = 0;
    let ghost base = attributes_view(merged@);
    while n < raw.len()
        invariant
            n <= raw.len(),
            model == raws_view(raw@),
            attributes_view(merged@) == apply_named(model, n as int, base),
        decreases raw.len() - n,
    {
        match &raw[n] {
            RawAttribute::Named { name, value, .. } => {
                let entry = Attribute {
                    name: copy_bytes(name.as_slice()),
                    value: bind_value(copy_bytes(value.as_slice())),
                };
                set_attribute(&mut merged, entry);
            },
            RawAttribute::Spread { .. } => {},
        }
        n += 1;
    }
    let ghost kept_model = attributes_view(kept@);
    let ghost merged_model = attributes_view(merged@);
    let mut m: usize = 0;
    while m < merged.len()
        invariant
            m <= merged.len(),
            merged_model == attributes_view(merged@),
            attributes_view(kept@) == kept_model + merged_model.subrange(0, m as int),
        decreases merged.len() - m,
    {
        let ghost before = attributes_view(kept@);
        let entry = copy_attribute(&merged[m]);
        let ghost entry_model = entry@;
        kept.push(entry);
        assert(attributes_view(kept@) == before.push(entry_model));
        assert(merged_model.subrange(0, m + 1) == merged_model.subrange(0, m as int).push(
            entry_model,
        ));
        m += 1;
    }
    assert(merged_model.subrange(0, merged_model.len() as int) == merged_model);
    Ok(kept)
}

/// Once a conflict is found among the first entries, it stays the first.
pub proof fn lemma_conflict_stays(raw: Seq<RawModel>, n: int, m: int)
    requires
        0 <= n <= m,
        first_conflict(raw, n) is Some,
    ensures
        first_conflict(raw, m) == first_conflict(raw, n),
    decreases m - n,
{
    if n < m {
        lemma_conflict_stays(raw, n, m - 1);
    }
}

/// The value that a mapping holds under a name, if it holds the name.
pub open spec fn value_at(attrs: Seq<AttributeModel>, name: Seq<u8>) -> Option<ValueModel> {
    let i = find_name(attrs, name, 0);
    if i < attrs.len() {
        Some(attrs[i].value)
    } else {
        None
    }
}

proof fn lemma_find_name_update(
    attrs: Seq<AttributeModel>,
    name: Seq<u8>,
    from: int,
    k: int,
    a: AttributeModel,
)
    requires
        0 <= from,
        0 <= k < attrs.len(),
        attrs[k].name == a.name,
    ensures
        find_name(attrs.update(k, a), name, from) == find_name(attrs, name, from),
    decreases attrs.len() - from,
{
    if from < attrs.len() {
        assert(attrs.update(k, a)[from].name == attrs[from].name);
        if attrs[from].name != name {
            lemma_find_name_update(attrs, name, from + 1, k, a);
        }
    }
}

proof fn lemma_find_name_push(attrs: Seq<AttributeModel>, name: Seq<u8>, from: int, a: AttributeModel)
    requires
        0 <= from <= attrs.len(),
    ensures
        find_name(attrs, name, from) < attrs.len() ==> find_name(attrs.push(a), name, from)
            == find_name(attrs, name, from),
        find_name(attrs, name, from) == attrs.len() && a.name == name ==> find_name(
            attrs.push(a),
            name,
            from,
        ) == attrs.len(),
        find_name(attrs, name, from) == attrs.len() && a.name != name ==> find_name(
            attrs.push(a),
            name,
            from,
        ) == attrs.len() + 1,
    decreases attrs.len() - from,
{
    if from < attrs.len() {
        assert(attrs.push(a)[from] == attrs[from]);
        if attrs[from].name != name {
            lemma_find_name_push(attrs, name, from + 1, a);
        }
    } else {
        assert(attrs.push(a)[from] == a);
        assert(find_name(attrs.push(a), name, from + 1) == attrs.len() + 1);
    }
}

/// What is found has the name; what is not found, no entry has.
pub proof fn lemma_find_name(attrs: Seq<AttributeModel>, name: Seq<u8>, from: int)
    requires
        0 <= from <= attrs.len(),
    ensures
        from <= find_name(attrs, name, from) <= attrs.len(),
        find_name(attrs, name, from) < attrs.len() ==> attrs[find_name(attrs, name, from)].name
            == name,
        forall|i: int| from <= i < find_name(attrs, name, from) ==> (#[trigger] attrs[i]).name != name,
    decreases attrs.len() - from,
{
    if from < attrs.len() && attrs[from].name != name {
        lemma_find_name(attrs, name, from + 1);
    }
}

/// Setting an attribute makes the mapping hold its value under its name,
/// whatever the mapping held there before.
pub proof fn lemma_upsert_sets(attrs: Seq<AttributeModel>, a: AttributeModel)
    ensures
        value_at(upsert(attrs, a), a.name) == Some(a.value),
{
    lemma_find_name(attrs, a.name, 0);
    let i = find_name(attrs, a.name, 0);
    if i < attrs.len() {
        lemma_find_name_update(attrs, a.name, 0, i, a);
    } else {
        lemma_find_name_push(attrs, a.name, 0, a);
    }
}

/// Setting an attribute leaves what the mapping holds under every other
/// name.
pub proof fn lemma_upsert_keeps(attrs: Seq<AttributeModel>, a: AttributeModel, name: Seq<u8>)
    requires
        name != a.name,
    ensures
        value_at(upsert(attrs, a), name) == value_at(attrs, name),
{
    lemma_find_name(attrs, a.name, 0);
    lemma_find_name(attrs, name, 0);
    let i = find_name(attrs, a.name, 0);
    if i < attrs.len() {
        lemma_find_name_update(attrs, name, 0, i, a);
    } else {
        lemma_find_name_push(attrs, name, 0, a);
    }
}

proof fn lemma_named_applied(raw: Seq<RawModel>, j: int, n: int, base: Seq<AttributeModel>)
    requires
        0 <= j < n <= raw.len(),
        raw[j] is Named,
        first_conflict(raw, n) is None,
    ensures
        value_at(apply_named(raw, n, base), raw[j]->Named_name) == Some(
            value_of(raw[j]->Named_value),
        ),
    decreases n,
{
    let name = raw[j]->Named_name;
    let applied = apply_named(raw, n - 1, base);
    if n - 1 == j {
        lemma_upsert_sets(applied, AttributeModel { name, value: value_of(raw[j]->Named_value) });
    } else {
        lemma_named_applied(raw, j, n - 1, base);
        match raw[n - 1] {
            RawModel::Named { name: other, value, .. } => {
                if other == name {
                    assert(raw[j] is Named && raw[j]->Named_name == other);
                    assert(named_before(raw, n - 1, other));
                }
                lemma_upsert_keeps(applied, AttributeModel { name: other, value: value_of(value) }, name);
            },
            RawModel::Spread { .. } => {},
        }
    }
}

proof fn lemma_opaque_names(raw: Seq<RawModel>, n: int)
    requires
        0 <= n <= raw.len(),
    ensures
        forall|i: int|
            0 <= i < opaque_spreads(raw, n).len() ==> (#[trigger] opaque_spreads(raw, n)[i]).name.len()
                == 0,
    decreases n,
{
    if n > 0 {
        lemma_opaque_names(raw, n - 1);
    }
}

proof fn lemma_find_name_after(
    head: Seq<AttributeModel>,
    tail: Seq<AttributeModel>,
    name: Seq<u8>,
    from: int,
)
    requires
        0 <= from <= head.len(),
        forall|i: int| 0 <= i < head.len() ==> (#[trigger] head[i]).name != name,
    ensures
        find_name(head + tail, name, from) == head.len() + find_name(tail, name, 0),
    decreases head.len() + tail.len() - from,
{
    if from < head.len() {
        assert((head + tail)[from] == head[from]);
        lemma_find_name_after(head, tail, name, from + 1);
    } else {
        lemma_find_name_shift(head, tail, name, 0);
    }
}

proof fn lemma_find_name_shift(
    head: Seq<AttributeModel>,
    tail: Seq<AttributeModel>,
    name: Seq<u8>,
    k: int,
)
    requires
        0 <= k <= tail.len(),
    ensures
        find_name(head + tail, name, head.len() + k) == head.len() + find_name(tail, name, k),
    decreases tail.len() - k,
{
    if k < tail.len() {
        assert((head + tail)[head.len() + k] == tail[k]);
        if tail[k].name != name {
            lemma_find_name_shift(head, tail, name, k + 1);
        }
    }
}

/// A named attribute wins: where the attributes of a tag bind, the mapping
/// holds under the name of each named attribute the value written with it,
/// whatever the spreads say of that name and wherever they stand.
pub proof fn lemma_named_wins(raw: Seq<RawModel>, j: int)
    requires
        0 <= j < raw.len(),
        raw[j] is Named,
        raw[j]->Named_name.len() > 0,
        bound(raw) is Ok,
    ensures
        value_at(bound(raw)->Ok_0, raw[j]->Named_name) == Some(value_of(raw[j]->Named_value)),
{
    let n = raw.len() as int;
    let name = raw[j]->Named_name;
    let kept = opaque_spreads(raw, n);
    let applied = apply_named(raw, n, merge_spreads(raw, n));
    lemma_named_applied(raw, j, n, merge_spreads(raw, n));
    lemma_opaque_names(raw, n);
    assert forall|i: int| 0 <= i < kept.len() implies (#[trigger] kept[i]).name != name by {
        assert(kept[i].name.len() == 0);
    }
    lemma_find_name_after(kept, applied, name, 0);
    lemma_find_name(applied, name, 0);
    let i = find_name(applied, name, 0);
    assert((kept + applied)[kept.len() + i] == applied[i]);
}


/// The value that the last of the first `n` fields of that name has.
pub open spec fn last_field(fields: Seq<AttributeModel>, n: int, name: Seq<u8>) -> Option<ValueModel>
    decreases n,
{
    if n <= 0 || n > fields.len() {
        None
    } else if fields[n - 1].name == name {
        Some(fields[n - 1].value)
    } else {
        last_field(fields, n - 1, name)
    }
}

/// What the record spreads among the first `n` attributes say of a name:
/// the value that the last of them that has a field of that name gives it.
pub open spec fn spread_value(raw: Seq<RawModel>, n: int, name: Seq<u8>) -> Option<ValueModel>
    decreases n,
{
    if n <= 0 || n > raw.len() {
        None
    } else {
        match raw[n - 1] {
            RawModel::Spread { source, .. } => match record_fields(source) {
                Some(fields) => match last_field(fields, fields.len() as int, name) {
                    Some(v) => Some(v),
                    None => spread_value(raw, n - 1, name),
                },
                None => spread_value(raw, n - 1, name),
            },
            RawModel::Named { .. } => spread_value(raw, n - 1, name),
        }
    }
}

/// What the named attributes among the first `n` say of a name: the value
/// written with the last of them that has the name.
pub open spec fn named_value(raw: Seq<RawModel>, n: int, name: Seq<u8>) -> Option<ValueModel>
    decreases n,
{
    if n <= 0 || n > raw.len() {
        None
    } else {
        match raw[n - 1] {
            RawModel::Named { name: written, value, .. } => if written == name {
                Some(value_of(value))
            } else {
                named_value(raw, n - 1, name)
            },
            RawModel::Spread { .. } => named_value(raw, n - 1, name),
        }
    }
}

/// What is found first: the first value, or else the second.
pub open spec fn or_else(first: Option<ValueModel>, second: Option<ValueModel>) -> Option<ValueModel> {
    match first {
        Some(v) => Some(v),
        None => second,
    }
}

/// Setting fields in order leaves each name with the value of the last
/// field that has it, and every other name as it was.
pub proof fn lemma_last_field_wins(
    attrs: Seq<AttributeModel>,
    fields: Seq<AttributeModel>,
    n: int,
    name: Seq<u8>,
)
    requires
        0 <= n <= fields.len(),
    ensures
        value_at(upsert_all(attrs, fields, n), name) == or_else(
            last_field(fields, n, name),
            value_at(attrs, name),
        ),
    decreases n,
{
    if n > 0 {
        lemma_last_field_wins(attrs, fields, n - 1, name);
        if fields[n - 1].name == name {
            lemma_upsert_sets(upsert_all(attrs, fields, n - 1), fields[n - 1]);
        } else {
            lemma_upsert_keeps(upsert_all(attrs, fields, n - 1), fields[n - 1], name);
        }
    }
}

/// The last spread wins: merged, the record spreads hold under each name
/// what the last of them that has the name says, and no other name.
pub proof fn lemma_last_spread_wins(raw: Seq<RawModel>, n: int, name: Seq<u8>)
    requires
        0 <= n <= raw.len(),
    ensures
        value_at(merge_spreads(raw, n), name) == spread_value(raw, n, name),
    decreases n,
{
    if n > 0 {
        lemma_last_spread_wins(raw, n - 1, name);
        match raw[n - 1] {
            RawModel::Spread { source, .. } => match record_fields(source) {
                Some(fields) => {
                    lemma_last_field_wins(
                        merge_spreads(raw, n - 1),
                        fields,
                        fields.len() as int,
                        name,
                    );
                },
                None => {},
            },
            RawModel::Named { .. } => {},
        }
    }
}

proof fn lemma_named_on_top(raw: Seq<RawModel>, n: int, base: Seq<AttributeModel>, name: Seq<u8>)
    requires
        0 <= n <= raw.len(),
    ensures
        value_at(apply_named(raw, n, base), name) == or_else(
            named_value(raw, n, name),
            value_at(base, name),
        ),
    decreases n,
{
    if n > 0 {
        lemma_named_on_top(raw, n - 1, base, name);
        match raw[n - 1] {
            RawModel::Named { name: written, value, .. } => {
                let entry = AttributeModel { name: written, value: value_of(value) };
                if written == name {
                    lemma_upsert_sets(apply_named(raw, n - 1, base), entry);
                } else {
                    lemma_upsert_keeps(apply_named(raw, n - 1, base), entry, name);
                }
            },
            RawModel::Spread { .. } => {},
        }
    }
}

/// The merge order: where the attributes of a tag bind, the mapping holds
/// under a name the value that a named attribute gives it; where none does,
/// the value that the last record spread with a field of that name gives
/// it; and where none of those does either, nothing.
pub proof fn lemma_merge_order(raw: Seq<RawModel>, name: Seq<u8>)
    requires
        name.len() > 0,
        bound(raw) is Ok,
    ensures
        value_at(bound(raw)->Ok_0, name) == or_else(
            named_value(raw, raw.len() as int, name),
            spread_value(raw, raw.len() as int, name),
        ),
{
    let n = raw.len() as int;
    let kept = opaque_spreads(raw, n);
    let applied = apply_named(raw, n, merge_spreads(raw, n));
    lemma_last_spread_wins(raw, n, name);
    lemma_named_on_top(raw, n, merge_spreads(raw, n), name);
    lemma_opaque_names(raw, n);
    assert forall|i: int| 0 <= i < kept.len() implies (#[trigger] kept[i]).name != name by {
        assert(kept[i].name.len() == 0);
    }
    lemma_find_name_after(kept, applied, name, 0);
    lemma_find_name(applied, name, 0);
    let i = find_name(applied, name, 0);
    if i < applied.len() {
        assert((kept + applied)[kept.len() + i] == applied[i]);
    }
}

} // verus!
