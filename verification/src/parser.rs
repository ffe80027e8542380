//! The markup grammar, and the parser that follows it.
//!
//! ```text
//! markup   := children                      (to the end of the input)
//! children := ( ws child )* ws              (up to `</` or the end)
//! child    := '<>' children '</>' | item
//! item     := element | '{' expr '}'
//!           | '{if ' guard '{' ws item ws '}' ws '}'
//!           | '{for ' source '{' ws item ws '}' ws '}'
//! element  := '<' name attrs ws ( '/>' | '>' children '</' name ws '>' )
//! attrs    := ( ws attr )*
//! attr     := name | name '={' expr '}' | '{...' expr '}'
//! ```
//!
//! `name` is an identifier, `expr` any text in which braces balance, `guard`
//! and `source` any text without braces.
//!
//! The grammar is stated as functions from a text and an index to what
//! stands at that index and the index after it. Where one of them goes on at
//! an index that another has handed out, it first tests that the index lies
//! ahead and within the text. The test holds of every input and is there
//! for the termination measure.

use vstd::prelude::*;
use crate::attribute::{bind, bound, find_name, raws_view, RawAttribute, RawModel};
use crate::error::{Span, SyntaxError, SyntaxErrorKind};
use crate::text::{
    block_end, block_end_from, byte_is_ident_start, byte_is_space, bytes_eq, copy_range,
    has_byte, ident_end, ident_end_from, is_ident_start, is_space, peek, skip_space,
    skip_space_from, trim_end, CLOSE_BRACE, DOT, EQUALS, GT, LT, OPEN_BRACE, SLASH,
};
use crate::widget::{
    attributes_view, children_view, Attribute, AttributeModel, AttributeValue, ChildItem,
    ChildModel, NodeModel, ValueModel, WidgetNode,
};

verus! {

/// The error of a kind for a range of the input.
pub open spec fn error_at(kind: SyntaxErrorKind, start: int, end: int) -> SyntaxError {
    SyntaxError { kind, span: Span { start: start as usize, end: end as usize } }
}

/// The error for the byte at `pos`, or for the end of the input.
pub open spec fn error_at_byte(s: Seq<u8>, kind: SyntaxErrorKind, pos: int) -> SyntaxError {
    error_at(kind, pos, if pos < s.len() { pos + 1 } else { pos })
}

/// The name under which an attribute gives a node its key.
pub open spec fn key_name() -> Seq<u8> {
    seq![0x6bu8, 0x65u8, 0x79u8]
}

/// The text of a value, whatever it is bound as.
pub open spec fn value_text(v: ValueModel) -> Seq<u8> {
    match v {
        ValueModel::Literal(e) => e,
        ValueModel::Spread(e) => e,
        ValueModel::Handler(e) => e,
    }
}

/// The key that a bound attribute mapping gives its node.
pub open spec fn key_of(attrs: Seq<AttributeModel>) -> Option<Seq<u8>> {
    let i = find_name(attrs, key_name(), 0);
    if i < attrs.len() {
        Some(value_text(attrs[i].value))
    } else {
        None
    }
}

/// The mapping without the entry that gives the key.
pub open spec fn without_key(attrs: Seq<AttributeModel>) -> Seq<AttributeModel> {
    let i = find_name(attrs, key_name(), 0);
    if i < attrs.len() {
        attrs.remove(i)
    } else {
        attrs
    }
}

/// The attribute written at `p`, and the index after it; `None` when no
/// attribute starts there.
pub open spec fn spec_attribute(s: Seq<u8>, p: int) -> Option<Result<(RawModel, int), SyntaxError>> {
    if 0 <= p < s.len() && is_ident_start(s[p]) {
        let name_end = ident_end(s, p + 1);
        let name = s.subrange(p, name_end);
        if has_byte(s, name_end, EQUALS) {
            if !has_byte(s, name_end + 1, OPEN_BRACE) {
                Some(Err(error_at_byte(s, SyntaxErrorKind::Malformed, name_end + 1)))
            } else {
                match block_end(s, name_end + 2, 0) {
                    None => Some(
                        Err(error_at(SyntaxErrorKind::Malformed, name_end + 1, s.len() as int)),
                    ),
                    Some(e) => Some(
                        Ok(
                            (
                                RawModel::Named {
                                    name,
                                    value: s.subrange(name_end + 2, e),
                                    span: Span { start: p as usize, end: (e + 1) as usize },
                                },
                                e + 1,
                            ),
                        ),
                    ),
                }
            }
        } else {
            Some(
                Ok(
                    (
                        RawModel::Named {
                            name,
                            value: name,
                            span: Span { start: p as usize, end: name_end as usize },
                        },
                        name_end,
                    ),
                ),
            )
        }
    } else if has_byte(s, p, OPEN_BRACE) && has_byte(s, p + 1, DOT) && has_byte(s, p + 2, DOT)
        && has_byte(s, p + 3, DOT) {
        match block_end(s, p + 4, 0) {
            None => Some(Err(error_at(SyntaxErrorKind::Malformed, p, s.len() as int))),
            Some(e) => Some(
                Ok(
                    (
                        RawModel::Spread {
                            source: s.subrange(p + 4, e),
                            span: Span { start: p as usize, end: (e + 1) as usize },
                        },
                        e + 1,
                    ),
                ),
            ),
        }
    } else {
        None
    }
}

/// The attributes written from `pos` on, and the index of the first byte
/// after them and the white space that follows.
pub open spec fn spec_attributes(s: Seq<u8>, pos: int) -> Result<(Seq<RawModel>, int), SyntaxError>
    decreases s.len() - pos,
{
    let p = skip_space(s, pos);
    match spec_attribute(s, p) {
        None => Ok((Seq::empty(), p)),
        Some(Err(e)) => Err(e),
        Some(Ok((a, next))) => {
            if !(pos < next <= s.len()) {
                Err(error_at_byte(s, SyntaxErrorKind::Malformed, p))
            } else {
                match spec_attributes(s, next) {
                    Ok((rest, end)) => Ok((seq![a] + rest, end)),
                    Err(e) => Err(e),
                }
            }
        },
    }
}

/// `if` and a white-space byte stand at `q`.
pub open spec fn keyword_if(s: Seq<u8>, q: int) -> bool {
    has_byte(s, q, 0x69) && has_byte(s, q + 1, 0x66) && q + 2 < s.len() && is_space(s[q + 2])
}

/// `for` and a white-space byte stand at `q`.
pub open spec fn keyword_for(s: Seq<u8>, q: int) -> bool {
    has_byte(s, q, 0x66) && has_byte(s, q + 1, 0x6f) && has_byte(s, q + 2, 0x72) && q + 3
        < s.len() && is_space(s[q + 3])
}

/// The first index at or after `pos` that holds a brace, or the length of
/// `s` when none follows.
pub open spec fn brace_from(s: Seq<u8>, pos: int) -> int
    decreases s.len() - pos,
{
    if 0 <= pos < s.len() && s[pos] != OPEN_BRACE && s[pos] != CLOSE_BRACE {
        brace_from(s, pos + 1)
    } else {
        pos
    }
}

/// No brace stands before the first brace.
pub proof fn lemma_brace_from_bounds(s: Seq<u8>, pos: int)
    requires
        0 <= pos <= s.len(),
    ensures
        pos <= brace_from(s, pos) <= s.len(),
        forall|i: int|
            pos <= i < brace_from(s, pos) ==> (#[trigger] s[i]) != OPEN_BRACE && s[i]
                != CLOSE_BRACE,
    decreases s.len() - pos,
{
    if pos < s.len() && s[pos] != OPEN_BRACE && s[pos] != CLOSE_BRACE {
        lemma_brace_from_bounds(s, pos + 1);
    }
}

/// The element whose `<` stands at `pos`.
pub open spec fn spec_element(s: Seq<u8>, pos: int) -> Result<(NodeModel, int), SyntaxError>
    decreases s.len() - pos, 0int,
{
    let name_end = ident_end(s, pos + 2);
    let tag = s.subrange(pos + 1, name_end);
    if !(0 <= pos && pos + 1 < s.len() && is_ident_start(s[pos + 1])) {
        Err(error_at_byte(s, SyntaxErrorKind::Malformed, pos + 1))
    } else {
        match spec_attributes(s, name_end) {
            Err(e) => Err(e),
            Ok((raw, p)) => match bound(raw) {
                Err(e) => Err(e),
                Ok(attrs) => {
                    if has_byte(s, p, SLASH) && has_byte(s, p + 1, GT) {
                        Ok(
                            (
                                NodeModel {
                                    tag,
                                    attributes: without_key(attrs),
                                    children: Seq::empty(),
                                    key: key_of(attrs),
                                },
                                p + 2,
                            ),
                        )
                    } else if !has_byte(s, p, GT) {
                        Err(error_at_byte(s, SyntaxErrorKind::Malformed, p))
                    } else if p < pos {
                        Err(error_at_byte(s, SyntaxErrorKind::Malformed, p))
                    } else {
                        match spec_children(s, p + 1) {
                            Err(e) => Err(e),
                            Ok((children, q)) => {
                                let close_end = ident_end(s, q + 2);
                                let g = skip_space(s, close_end);
                                if !(has_byte(s, q, LT) && has_byte(s, q + 1, SLASH)) {
                                    Err(error_at(SyntaxErrorKind::UnmatchedTag, pos + 1, name_end))
                                } else if s.subrange(q + 2, close_end) != tag {
                                    Err(error_at(SyntaxErrorKind::UnmatchedTag, q + 2, close_end))
                                } else if !has_byte(s, g, GT) {
                                    Err(error_at_byte(s, SyntaxErrorKind::Malformed, g))
                                } else {
                                    Ok(
                                        (
                                            NodeModel {
                                                tag,
                                                attributes: without_key(attrs),
                                                children,
                                                key: key_of(attrs),
                                            },
                                            g + 1,
                                        ),
                                    )
                                }
                            },
                        }
                    }
                },
            },
        }
    }
}

/// The head and the inner child of the control form whose `{` stands at
/// `pos` and whose keyword is `kw` bytes long.
pub open spec fn spec_control(s: Seq<u8>, pos: int, kw: int) -> Result<
    ((Seq<u8>, ChildModel), int),
    SyntaxError,
>
    decreases s.len() - pos, 0int,
{
    let h = skip_space(s, pos + 1 + kw);
    let b = brace_from(s, h);
    let head = trim_end(s.subrange(h, b));
    let i = skip_space(s, b + 1);
    if !(0 <= pos && kw >= 0) {
        Err(error_at_byte(s, SyntaxErrorKind::MalformedControl, pos))
    } else if !has_byte(s, b, OPEN_BRACE) || head.len() == 0 {
        Err(error_at(SyntaxErrorKind::MalformedControl, pos, b))
    } else if !(pos < i <= s.len()) {
        Err(error_at(SyntaxErrorKind::MalformedControl, pos, b))
    } else {
        match spec_item(s, i) {
            Err(e) => Err(e),
            Ok((inner, next)) => {
                let c1 = skip_space(s, next);
                let c2 = skip_space(s, c1 + 1);
                if !has_byte(s, c1, CLOSE_BRACE) {
                    Err(error_at_byte(s, SyntaxErrorKind::MalformedControl, c1))
                } else if !has_byte(s, c2, CLOSE_BRACE) {
                    Err(error_at_byte(s, SyntaxErrorKind::MalformedControl, c2))
                } else {
                    Ok(((head, inner), c2 + 1))
                }
            },
        }
    }
}

/// The single child item that starts at `pos`.
pub open spec fn spec_item(s: Seq<u8>, pos: int) -> Result<(ChildModel, int), SyntaxError>
    decreases s.len() - pos, 1int,
{
    if has_byte(s, pos, LT) {
        match spec_element(s, pos) {
            Ok((node, next)) => Ok((ChildModel::LiteralWidget(node), next)),
            Err(e) => Err(e),
        }
    } else if has_byte(s, pos, OPEN_BRACE) {
        if keyword_if(s, pos + 1) {
            match spec_control(s, pos, 2) {
                Ok(((guard, inner), next)) => Ok(
                    (ChildModel::Conditional(guard, Box::new(inner)), next),
                ),
                Err(e) => Err(e),
            }
        } else if keyword_for(s, pos + 1) {
            match spec_control(s, pos, 3) {
                Ok(((source, inner), next)) => Ok(
                    (ChildModel::Iteration(source, Box::new(inner)), next),
                ),
                Err(e) => Err(e),
            }
        } else {
            match block_end(s, pos + 1, 0) {
                None => Err(error_at(SyntaxErrorKind::Malformed, pos, s.len() as int)),
                Some(e) => Ok((ChildModel::Expression(s.subrange(pos + 1, e)), e + 1)),
            }
        }
    } else {
        Err(error_at_byte(s, SyntaxErrorKind::Malformed, pos))
    }
}

/// The items that the child at `pos` gives its parent: those of a fragment,
/// spliced in, or the one item that stands there.
pub open spec fn spec_child(s: Seq<u8>, pos: int) -> Result<(Seq<ChildModel>, int), SyntaxError>
    decreases s.len() - pos, 2int,
{
    if has_byte(s, pos, LT) && has_byte(s, pos + 1, GT) {
        match spec_children(s, pos + 2) {
            Err(e) => Err(e),
            Ok((items, q)) => {
                if has_byte(s, q, LT) && has_byte(s, q + 1, SLASH) && has_byte(s, q + 2, GT) {
                    Ok((items, q + 3))
                } else {
                    Err(error_at(SyntaxErrorKind::UnmatchedTag, pos, pos + 2))
                }
            },
        }
    } else {
        match spec_item(s, pos) {
            Err(e) => Err(e),
            Ok((item, next)) => Ok((seq![item], next)),
        }
    }
}

/// The child items from `pos` up to the next closing tag or the end of the
/// input, and the index at which they stop.
pub open spec fn spec_children(s: Seq<u8>, pos: int) -> Result<(Seq<ChildModel>, int), SyntaxError>
    decreases s.len() - pos, 3int,
{
    let p = skip_space(s, pos);
    if p >= s.len() || (has_byte(s, p, LT) && has_byte(s, p + 1, SLASH)) {
        Ok((Seq::empty(), p))
    } else if p < pos {
        Err(error_at_byte(s, SyntaxErrorKind::Malformed, p))
    } else {
        match spec_child(s, p) {
            Err(e) => Err(e),
            Ok((items, next)) => {
                if !(p < next <= s.len()) {
                    Err(error_at_byte(s, SyntaxErrorKind::Malformed, p))
                } else {
                    match spec_children(s, next) {
                        Ok((rest, end)) => Ok((items + rest, end)),
                        Err(e) => Err(e),
                    }
                }
            },
        }
    }
}

/// What a markup text parses to: its top-level child items, or the first
/// error met.
pub open spec fn spec_markup(s: Seq<u8>) -> Result<Seq<ChildModel>, SyntaxError> {
    match spec_children(s, 0) {
        Err(e) => Err(e),
        Ok((items, q)) => {
            if q >= s.len() {
                Ok(items)
            } else {
                Err(error_at(SyntaxErrorKind::UnmatchedTag, q, q + 2))
            }
        },
    }
}

fn syntax_error(kind: SyntaxErrorKind, start: usize, end: usize) -> (e: SyntaxError)
    ensures
        e == error_at(kind, start as int, end as int),
{
    SyntaxError { kind, span: Span { start, end } }
}

fn byte_error(s: &[u8], kind: SyntaxErrorKind, pos: usize) -> (e: SyntaxError)
    requires
        pos <= s.len(),
    ensures
        e == error_at_byte(s@, kind, pos as int),
{
    if pos < s.len() {
        syntax_error(kind, pos, pos + 1)
    } else {
        syntax_error(kind, pos, pos)
    }
}

fn parse_attribute(s: &[u8], p: usize) -> (r: Option<Result<(RawAttribute, usize), SyntaxError>>)
    requires
        p <= s.len(),
    ensures
        match r {
            None => spec_attribute(s@, p as int) is None,
            Some(Err(e)) => spec_attribute(s@, p as int) == Some(
                Err::<(RawModel, int), SyntaxError>(e),
            ),
            Some(Ok((a, next))) => spec_attribute(s@, p as int) == Some(
                Ok::<(RawModel, int), SyntaxError>((a@, next as int)),
            ) && p < next <= s.len(),
        },
{
    if p < s.len() && byte_is_ident_start(s[p]) {
        let name_end = ident_end_from(s, p + 1);
        let name = copy_range(s, p, name_end);
        if peek(s, name_end, EQUALS) {
            if !peek(s, name_end + 1, OPEN_BRACE) {
                return Some(Err(byte_error(s, SyntaxErrorKind::Malformed, name_end + 1)));
            }
            match block_end_from(s, name_end + 2) {
                None => Some(Err(syntax_error(SyntaxErrorKind::Malformed, name_end + 1, s.len()))),
                Some(e) => Some(
                    Ok(
                        (
                            RawAttribute::Named {
                                name,
                                value: copy_range(s, name_end + 2, e),
                                span: Span { start: p, end: e + 1 },
                            },
                            e + 1,
                        ),
                    ),
                ),
            }
        } else {
            let value = copy_range(s, p, name_end);
            Some(Ok((RawAttribute::Named { name, value, span: Span { start: p, end: name_end } }, name_end)))
        }
    } else if peek(s, p, OPEN_BRACE) && peek(s, p + 1, DOT) && peek(s, p + 2, DOT) && peek(
        s,
        p + 3,
        DOT,
    ) {
        match block_end_from(s, p + 4) {
            None => Some(Err(syntax_error(SyntaxErrorKind::Malformed, p, s.len()))),
            Some(e) => Some(
                Ok(
                    (
                        RawAttribute::Spread {
                            source: copy_range(s, p + 4, e),
                            span: Span { start: p, end: e + 1 },
                        },
                        e + 1,
                    ),
                ),
            ),
        }
    } else {
        None
    }
}

fn parse_attributes(s: &[u8], pos: usize) -> (r: Result<(Vec<RawAttribute>, usize), SyntaxError>)
    requires
        pos <= s.len(),
    ensures
        match r {
            Ok((raw, end)) => spec_attributes(s@, pos as int) == Ok::<
                (Seq<RawModel>, int),
                SyntaxError,
            >((raws_view(raw@), end as int)) && pos <= end <= s.len(),
            Err(e) => spec_attributes(s@, pos as int) == Err::<(Seq<RawModel>, int), SyntaxError>(
                e,
            ),
        },
{
    let mut raw: Vec<RawAttribute> = Vec::new();
    let mut cur: usize = pos;
    loop
        invariant
            pos <= cur <= s.len(),
            spec_attributes(s@, pos as int) == match spec_attributes(s@, cur as int) {
                Ok((rest, end)) => Ok::<(Seq<RawModel>, int), SyntaxError>(
                    (raws_view(raw@) + rest, end),
                ),
                Err(e) => Err(e),
            },
        decreases s.len() - cur,
    {
        let p = skip_space_from(s, cur);
        match parse_attribute(s, p) {
            None => {
                assert(raws_view(raw@) + Seq::<RawModel>::empty() == raws_view(raw@));
                return Ok((raw, p));
            },
            Some(Err(e)) => {
                return Err(e);
            },
            Some(Ok((a, next))) => {
                let ghost before = raws_view(raw@);
                let ghost model = a@;
                raw.push(a);
                assert(raws_view(raw@) == before + seq![model]);
                proof {
                    match spec_attributes(s@, next as int) {
                        Ok((rest, end)) => {
                            assert(before + (seq![model] + rest) == (before + seq![model]) + rest);
                        },
                        Err(e) => {},
                    }
                }
                cur = next;
            },
        }
    }
}

fn value_bytes(v: AttributeValue) -> (text: Vec<u8>)
    ensures
        text@ == value_text(v@),
{
    match v {
        AttributeValue::Literal(e) => e,
        AttributeValue::Spread(e) => e,
        AttributeValue::Handler(e) => e,
    }
}

/// Takes the key out of a bound attribute mapping.
pub fn take_key(attrs: &mut Vec<Attribute>) -> (key: Option<Vec<u8>>)
    ensures
        attributes_view(final(attrs)@) == without_key(attributes_view(old(attrs)@)),
        match key {
            Some(k) => key_of(attributes_view(old(attrs)@)) == Some(k@),
            None => key_of(attributes_view(old(attrs)@)) is None,
        },
{
    let ghost before = attributes_view(attrs@);
    let mut i: usize = 0;
    while i < attrs.len()
        invariant
            i <= attrs.len(),
            attributes_view(attrs@) == before,
            before == attributes_view(old(attrs)@),
            find_name(before, key_name(), 0) == find_name(before, key_name(), i as int),
        decreases attrs.len() - i,
    {
        let name = &attrs[i].name;
        if name.len() == 3 && name[0] == 0x6b && name[1] == 0x65 && name[2] == 0x79 {
            assert(before[i as int].name =~= key_name());
            let entry = attrs.remove(i);
            assert(attributes_view(attrs@) == before.remove(i as int));
            return Some(value_bytes(entry.value));
        }
        assert(before[i as int].name != key_name());
        i += 1;
    }
    None
}

fn brace_from_at(s: &[u8], pos: usize) -> (b: usize)
    requires
        pos <= s.len(),
    ensures
        b == brace_from(s@, pos as int),
        pos <= b <= s.len(),
{
    let mut p: usize = pos;
    while p < s.len() && s[p] != OPEN_BRACE && s[p] != CLOSE_BRACE
        invariant
            pos <= p <= s.len(),
            brace_from(s@, pos as int) == brace_from(s@, p as int),
        decreases s.len() - p,
    {
        p += 1;
    }
    p
}

fn trimmed_end(s: &[u8], start: usize, end: usize) -> (e: usize)
    requires
        start <= end <= s.len(),
    ensures
        start <= e <= end,
        s@.subrange(start as int, e as int) == trim_end(s@.subrange(start as int, end as int)),
{
    let mut e: usize = end;
    while e > start && byte_is_space(s[e - 1])
        invariant
            start <= e <= end <= s.len(),
            trim_end(s@.subrange(start as int, end as int)) == trim_end(
                s@.subrange(start as int, e as int),
            ),
        decreases e,
    {
        assert(s@.subrange(start as int, e as int).drop_last() == s@.subrange(
            start as int,
            e - 1,
        ));
        e -= 1;
    }
    e
}

fn parse_element(s: &[u8], pos: usize) -> (r: Result<(WidgetNode, usize), SyntaxError>)
    requires
        pos < s.len(),
    ensures
        match r {
            Ok((node, next)) => spec_element(s@, pos as int) == Ok::<(NodeModel, int), SyntaxError>(
                (node@, next as int),
            ) && pos < next <= s.len(),
            Err(e) => spec_element(s@, pos as int) == Err::<(NodeModel, int), SyntaxError>(e),
        },
    decreases s.len() - pos, 0int,
{
    if !(pos + 1 < s.len() && byte_is_ident_start(s[pos + 1])) {
        return Err(byte_error(s, SyntaxErrorKind::Malformed, pos + 1));
    }
    let name_end = ident_end_from(s, pos + 2);
    let tag = copy_range(s, pos + 1, name_end);
    let (raw, p) = match parse_attributes(s, name_end) {
        Err(e) => {
            return Err(e);
        },
        Ok(found) => found,
    };
    let mut attributes = match bind(&raw) {
        Err(e) => {
            return Err(e);
        },
        Ok(attrs) => attrs,
    };
    let key = take_key(&mut attributes);
    if peek(s, p, SLASH) && peek(s, p + 1, GT) {
        let node = WidgetNode { tag, attributes, children: Vec::new(), key };
        assert(node@.children == Seq::<ChildModel>::empty());
        return Ok((node, p + 2));
    }
    if !peek(s, p, GT) {
        return Err(byte_error(s, SyntaxErrorKind::Malformed, p));
    }
    let mut children: Vec<ChildItem> = Vec::new();
    let q = match parse_children(s, p + 1, &mut children) {
        Err(e) => {
            return Err(e);
        },
        Ok(q) => q,
    };
    assert(children_view(Seq::<ChildItem>::empty()) == Seq::<ChildModel>::empty());
    if !(peek(s, q, LT) && peek(s, q + 1, SLASH)) {
        return Err(syntax_error(SyntaxErrorKind::UnmatchedTag, pos + 1, name_end));
    }
    let close_end = ident_end_from(s, q + 2);
    let closing = copy_range(s, q + 2, close_end);
    if !bytes_eq(closing.as_slice(), tag.as_slice()) {
        return Err(syntax_error(SyntaxErrorKind::UnmatchedTag, q + 2, close_end));
    }
    let g = skip_space_from(s, close_end);
    if !peek(s, g, GT) {
        return Err(byte_error(s, SyntaxErrorKind::Malformed, g));
    }
    Ok((WidgetNode { tag, attributes, children, key }, g + 1))
}

fn parse_control(s: &[u8], pos: usize, kw: usize) -> (r: Result<
    (Vec<u8>, ChildItem, usize),
    SyntaxError,
>)
    requires
        pos < s.len(),
        pos + 1 + kw < s.len(),
        kw <= 3,
    ensures
        match r {
            Ok((head, inner, next)) => spec_control(s@, pos as int, kw as int) == Ok::<
                ((Seq<u8>, ChildModel), int),
                SyntaxError,
            >(((head@, inner@), next as int)) && pos < next <= s.len(),
            Err(e) => spec_control(s@, pos as int, kw as int) == Err::<
                ((Seq<u8>, ChildModel), int),
                SyntaxError,
            >(e),
        },
    decreases s.len() - pos, 0int,
{
    let h = skip_space_from(s, pos + 1 + kw);
    let b = brace_from_at(s, h);
    let head_end = trimmed_end(s, h, b);
    if !peek(s, b, OPEN_BRACE) || head_end == h {
        return Err(syntax_error(SyntaxErrorKind::MalformedControl, pos, b));
    }
    let head = copy_range(s, h, head_end);
    let i = skip_space_from(s, b + 1);
    let (inner, next) = match parse_item(s, i) {
        Err(e) => {
            return Err(e);
        },
        Ok(found) => found,
    };
    let c1 = skip_space_from(s, next);
    if !peek(s, c1, CLOSE_BRACE) {
        return Err(byte_error(s, SyntaxErrorKind::MalformedControl, c1));
    }
    let c2 = skip_space_from(s, c1 + 1);
    if !peek(s, c2, CLOSE_BRACE) {
        return Err(byte_error(s, SyntaxErrorKind::MalformedControl, c2));
    }
    Ok((head, inner, c2 + 1))
}

fn parse_item(s: &[u8], pos: usize) -> (r: Result<(ChildItem, usize), SyntaxError>)
    requires
        pos <= s.len(),
    ensures
        match r {
            Ok((item, next)) => spec_item(s@, pos as int) == Ok::<(ChildModel, int), SyntaxError>(
                (item@, next as int),
            ) && pos < next <= s.len(),
            Err(e) => spec_item(s@, pos as int) == Err::<(ChildModel, int), SyntaxError>(e),
        },
    decreases s.len() - pos, 1int,
{
    if peek(s, pos, LT) {
        match parse_element(s, pos) {
            Ok((node, next)) => Ok((ChildItem::LiteralWidget(node), next)),
            Err(e) => Err(e),
        }
    } else if peek(s, pos, OPEN_BRACE) {
        if peek(s, pos + 1, 0x69) && peek(s, pos + 2, 0x66) && pos + 3 < s.len() && byte_is_space(
            s[pos + 3],
        ) {
            match parse_control(s, pos, 2) {
                Ok((guard, inner, next)) => Ok(
                    (ChildItem::Conditional(guard, Box::new(inner)), next),
                ),
                Err(e) => Err(e),
            }
        } else if peek(s, pos + 1, 0x66) && peek(s, pos + 2, 0x6f) && peek(s, pos + 3, 0x72) && pos
            + 4 < s.len() && byte_is_space(s[pos + 4]) {
            match parse_control(s, pos, 3) {
                Ok((source, inner, next)) => Ok(
                    (ChildItem::Iteration(source, Box::new(inner)), next),
                ),
                Err(e) => Err(e),
            }
        } else {
            match block_end_from(s, pos + 1) {
                None => Err(syntax_error(SyntaxErrorKind::Malformed, pos, s.len())),
                Some(e) => Ok((ChildItem::Expression(copy_range(s, pos + 1, e)), e + 1)),
            }
        }
    } else {
        Err(byte_error(s, SyntaxErrorKind::Malformed, pos))
    }
}

fn parse_child(s: &[u8], pos: usize, items: &mut Vec<ChildItem>) -> (r: Result<usize, SyntaxError>)
    requires
        pos <= s.len(),
    ensures
        match r {
            Ok(next) => spec_child(s@, pos as int) matches Ok((found, end)) && end == next
                && children_view(final(items)@) == children_view(old(items)@) + found && pos < next
                <= s.len(),
            Err(e) => spec_child(s@, pos as int) == Err::<(Seq<ChildModel>, int), SyntaxError>(e),
        },
    decreases s.len() - pos, 2int,
{
    if peek(s, pos, LT) && peek(s, pos + 1, GT) {
        let q = match parse_children(s, pos + 2, items) {
            Err(e) => {
                return Err(e);
            },
            Ok(q) => q,
        };
        if peek(s, q, LT) && peek(s, q + 1, SLASH) && peek(s, q + 2, GT) {
            Ok(q + 3)
        } else {
            Err(syntax_error(SyntaxErrorKind::UnmatchedTag, pos, pos + 2))
        }
    } else {
        match parse_item(s, pos) {
            Err(e) => Err(e),
            Ok((item, next)) => {
                let ghost before = children_view(items@);
                let ghost model = item@;
                items.push(item);
                assert(children_view(items@) == before + seq![model]);
                Ok(next)
            },
        }
    }
}

fn parse_children(s: &[u8], pos: usize, items: &mut Vec<ChildItem>) -> (r: Result<
    usize,
    SyntaxError,
>)
    requires
        pos <= s.len(),
    ensures
        match r {
            Ok(end) => spec_children(s@, pos as int) matches Ok((found, stop)) && stop == end
                && children_view(final(items)@) == children_view(old(items)@) + found && pos <= end
                <= s.len() && (end == s.len() || (has_byte(s@, end as int, LT) && has_byte(
                s@,
                end + 1,
                SLASH,
            ))),
            Err(e) => spec_children(s@, pos as int) == Err::<(Seq<ChildModel>, int), SyntaxError>(
                e,
            ),
        },
    decreases s.len() - pos, 3int,
{
    let ghost start = children_view(items@);
    let ghost found: Seq<ChildModel> = Seq::empty();
    let mut cur: usize = pos;
    loop
        invariant
            pos <= cur <= s.len(),
            start == children_view(old(items)@),
            children_view(items@) == start + found,
            spec_children(s@, pos as int) == match spec_children(s@, cur as int) {
                Ok((rest, end)) => Ok::<(Seq<ChildModel>, int), SyntaxError>((found + rest, end)),
                Err(e) => Err(e),
            },
        decreases s.len() - cur,
    {
        let p = skip_space_from(s, cur);
        if p >= s.len() || (peek(s, p, LT) && peek(s, p + 1, SLASH)) {
            assert(found + Seq::<ChildModel>::empty() == found);
            return Ok(p);
        }
        let ghost before = children_view(items@);
        match parse_child(s, p, items) {
            Err(e) => {
                return Err(e);
            },
            Ok(next) => {
                proof {
                    let added = spec_child(s@, p as int)->Ok_0.0;
                    assert(children_view(items@) == start + (found + added));
                    match spec_children(s@, next as int) {
                        Ok((rest, end)) => {
                            assert(found + (added + rest) == (found + added) + rest);
                        },
                        Err(e) => {},
                    }
                    found = found + added;
                }
                cur = next;
            },
        }
    }
}

/// Parses a markup text into its top-level child items.
pub fn parse(s: &[u8]) -> (r: Result<Vec<ChildItem>, SyntaxError>)
    ensures
        match r {
            Ok(items) => spec_markup(s@) == Ok::<Seq<ChildModel>, SyntaxError>(
                children_view(items@),
            ),
            Err(e) => spec_markup(s@) == Err::<Seq<ChildModel>, SyntaxError>(e),
        },
{
    let mut items: Vec<ChildItem> = Vec::new();
    match parse_children(s, 0, &mut items) {
        Err(e) => Err(e),
        Ok(q) => {
            assert(children_view(Seq::<ChildItem>::empty()) == Seq::<ChildModel>::empty());
            if q >= s.len() {
                Ok(items)
            } else {
                Err(syntax_error(SyntaxErrorKind::UnmatchedTag, q, q + 2))
            }
        },
    }
}

} // verus!
