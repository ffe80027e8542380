//! Lexical classification of tag identifiers.

use vstd::prelude::*;

verus! {

/// The two kinds of widget a tag can denote.
#[derive(Clone, Copy, Debug, PartialEq, Eq, Structural)]
pub enum TagKind {
    /// A user-defined component, built by a registered constructor.
    Component,
    /// A native element, built by a direct constructor call.
    Primitive,
}

/// `true` for the ASCII upper-case letters.
pub open spec fn is_upper(b: u8) -> bool {
    0x41 <= b <= 0x5a
}

/// A byte that continues a character in UTF-8.
pub open spec fn continues_char(b: u8) -> bool {
    0x80 <= b <= 0xbf
}

/// The scalar value that the bytes at the start of a text encode in UTF-8,
/// in the shortest form that encodes it; `None` where they encode none.
pub open spec fn first_scalar(s: Seq<u8>) -> Option<u32> {
    if s.len() == 0 {
        None
    } else if s[0] < 0x80 {
        Some(s[0] as u32)
    } else if 0xc2 <= s[0] <= 0xdf && s.len() >= 2 && continues_char(s[1]) {
        Some(((s[0] - 0xc0) * 64 + (s[1] - 0x80)) as u32)
    } else if 0xe0 <= s[0] <= 0xef && s.len() >= 3 && continues_char(s[1]) && continues_char(s[2])
        && (s[0] - 0xe0) * 4096 + (s[1] - 0x80) * 64 + (s[2] - 0x80) >= 0x800 {
        Some(((s[0] - 0xe0) * 4096 + (s[1] - 0x80) * 64 + (s[2] - 0x80)) as u32)
    } else if 0xf0 <= s[0] <= 0xf4 && s.len() >= 4 && continues_char(s[1]) && continues_char(s[2])
        && continues_char(s[3]) && (s[0] - 0xf0) * 262144 + (s[1] - 0x80) * 4096 + (s[2] - 0x80)
        * 64 + (s[3] - 0x80) >= 0x10000 {
        Some(
            ((s[0] - 0xf0) * 262144 + (s[1] - 0x80) * 4096 + (s[2] - 0x80) * 64 + (s[3]
                - 0x80)) as u32,
        )
    } else {
        None
    }
}

/// The character with a scalar value: every value up to `0x10FFFF` but the
/// surrogates has one.
pub open spec fn scalar_char(v: u32) -> Option<char> {
    if v <= 0xd7ff || 0xe000 <= v <= 0x10ffff {
        Some(v as char)
    } else {
        None
    }
}

/// Whether a character is an upper-case letter, as `char::is_uppercase`
/// tells it: whether it has the Unicode property `Uppercase`.
pub uninterp spec fn is_uppercase_char(c: char) -> bool;

/// A tag leads with an upper-case letter: its first byte is an ASCII
/// upper-case letter, or its first bytes encode a character beyond ASCII
/// that is an upper-case letter.
pub open spec fn leads_upper(tag: Seq<u8>) -> bool {
    tag.len() > 0 && if tag[0] < 0x80 {
        is_upper(tag[0])
    } else {
        match first_scalar(tag) {
            Some(v) => match scalar_char(v) {
                Some(c) => is_uppercase_char(c),
                None => false,
            },
            None => false,
        }
    }
}

/// The kind for a tag that does or does not lead with an upper-case
/// letter.
pub open spec fn kind_where(upper: bool) -> TagKind {
    if upper {
        TagKind::Component
    } else {
        TagKind::Primitive
    }
}

/// The kind a tag has: a component when it leads with an upper-case letter,
/// a primitive in every other case (the empty tag included).
pub open spec fn tag_kind(tag: Seq<u8>) -> TagKind {
    kind_where(leads_upper(tag))
}

/// `char::from_u32`: the character with a scalar value, and none for a
/// value that is a surrogate or lies beyond `0x10FFFF`.
#[verifier::external_body]
fn char_of(v: u32) -> (c: Option<char>)
    ensures
        c == scalar_char(v),
{
    char::from_u32(v)
}

/// `char::is_uppercase`: whether a character has the Unicode property
/// `Uppercase`. The property is a table of the standard library, so the
/// result goes by a name.
#[verifier::external_body]
fn char_is_uppercase(c: char) -> (r: bool)
    ensures
        r == is_uppercase_char(c),
{
    c.is_uppercase()
}

fn byte_continues(b: u8) -> (r: bool)
    ensures
        r == continues_char(b),
{
    0x80 <= b && b <= 0xbf
}

/// Decodes the character at the start of a text.
pub fn decode_first(s: &[u8]) -> (v: Option<u32>)
    ensures
        v == first_scalar(s@),
{
    if s.len() == 0 {
        return None;
    }
    let b0 = s[0];
    if b0 < 0x80 {
        Some(b0 as u32)
    } else if 0xc2 <= b0 && b0 <= 0xdf && s.len() >= 2 && byte_continues(s[1]) {
        Some((b0 as u32 - 0xc0) * 64 + (s[1] as u32 - 0x80))
    } else if 0xe0 <= b0 && b0 <= 0xef && s.len() >= 3 && byte_continues(s[1]) && byte_continues(
        s[2],
    ) {
        let v: u32 = (b0 as u32 - 0xe0) * 4096 + (s[1] as u32 - 0x80) * 64 + (s[2] as u32 - 0x80);
        if v >= 0x800 {
            Some(v)
        } else {
            None
        }
    } else if 0xf0 <= b0 && b0 <= 0xf4 && s.len() >= 4 && byte_continues(s[1]) && byte_continues(
        s[2],
    ) && byte_continues(s[3]) {
        let v: u32 = (b0 as u32 - 0xf0) * 262144 + (s[1] as u32 - 0x80) * 4096 + (s[2] as u32
            - 0x80) * 64 + (s[3] as u32 - 0x80);
        if v >= 0x10000 {
            Some(v)
        } else {
            None
        }
    } else {
        None
    }
}

/// The kind for a tag of which it is known whether it leads with an
/// upper-case letter.
pub fn kind_for(upper: bool) -> (kind: TagKind)
    ensures
        kind == kind_where(upper),
{
    if upper {
        TagKind::Component
    } else {
        TagKind::Primitive
    }
}

/// Classifies a tag from its text alone; whether anything is defined under
/// that name plays no part.
pub fn classify(tag: &[u8]) -> (kind: TagKind)
    ensures
        kind == tag_kind(tag@),
{
    if tag.len() == 0 {
        return kind_for(false);
    }
    if tag[0] < 0x80 {
        return kind_for(0x41 <= tag[0] && tag[0] <= 0x5a);
    }
    let upper = match decode_first(tag) {
        Some(v) => match char_of(v) {
            Some(c) => char_is_uppercase(c),
            None => false,
        },
        None => false,
    };
    kind_for(upper)
}

} // verus!
