//! Byte-level helpers shared by the parser, the binder and the generator.

use vstd::prelude::*;

verus! {

// The bytes that the grammar names.
pub const LT: u8 = 0x3c;
pub const GT: u8 = 0x3e;
pub const SLASH: u8 = 0x2f;
pub const EQUALS: u8 = 0x3d;
pub const OPEN_BRACE: u8 = 0x7b;
pub const CLOSE_BRACE: u8 = 0x7d;
pub const DOT: u8 = 0x2e;
pub const COLON: u8 = 0x3a;
pub const COMMA: u8 = 0x2c;
pub const PIPE: u8 = 0x7c;
pub const SPACE: u8 = 0x20;
pub const ESCAPE: u8 = 0x1b;

/// Space, tab, line feed and carriage return.
pub open spec fn is_space(b: u8) -> bool {
    b == 0x20 || b == 0x09 || b == 0x0a || b == 0x0d
}

/// A byte that may begin an identifier: an ASCII letter, `_`, or a byte of
/// a character beyond ASCII.
pub open spec fn is_ident_start(b: u8) -> bool {
    (0x41 <= b <= 0x5a) || (0x61 <= b <= 0x7a) || b == 0x5f || b >= 0x80
}

/// A byte that may continue an identifier: an ASCII letter, a digit, `_`,
/// or a byte of a character beyond ASCII.
pub open spec fn is_ident_char(b: u8) -> bool {
    is_ident_start(b) || (0x30 <= b <= 0x39)
}

/// An identifier: a start byte followed by any number of continuation bytes.
pub open spec fn is_ident(s: Seq<u8>) -> bool {
    &&& s.len() > 0
    &&& is_ident_start(s[0])
    &&& forall|i: int| 0 <= i < s.len() ==> is_ident_char(#[trigger] s[i])
}

/// `s` holds the byte `b` at index `i`.
pub open spec fn has_byte(s: Seq<u8>, i: int, b: u8) -> bool {
    0 <= i < s.len() && s[i] == b
}

/// The first index at or after `pos` that holds no white space.
pub open spec fn skip_space(s: Seq<u8>, pos: int) -> int
    decreases s.len() - pos,
{
    if 0 <= pos < s.len() && is_space(s[pos]) {
        skip_space(s, pos + 1)
    } else {
        pos
    }
}

/// The first index at or after `pos` that holds no identifier byte.
pub open spec fn ident_end(s: Seq<u8>, pos: int) -> int
    decreases s.len() - pos,
{
    if 0 <= pos < s.len() && is_ident_char(s[pos]) {
        ident_end(s, pos + 1)
    } else {
        pos
    }
}

/// The index of the `}` that closes a block whose body starts at `pos`, with
/// `depth` further blocks open at that point; `None` when the input ends
/// first.
pub open spec fn block_end(s: Seq<u8>, pos: int, depth: nat) -> Option<int>
    decreases s.len() - pos,
{
    if !(0 <= pos < s.len()) {
        None
    } else if s[pos] == OPEN_BRACE {
        block_end(s, pos + 1, depth + 1)
    } else if s[pos] == CLOSE_BRACE {
        if depth == 0 {
            Some(pos)
        } else {
            block_end(s, pos + 1, (depth - 1) as nat)
        }
    } else {
        block_end(s, pos + 1, depth)
    }
}

/// `s` without the white space at its end.
pub open spec fn trim_end(s: Seq<u8>) -> Seq<u8>
    decreases s.len(),
{
    if s.len() > 0 && is_space(s.last()) {
        trim_end(s.drop_last())
    } else {
        s
    }
}

/// `s` without the white space at either end.
pub open spec fn trim(s: Seq<u8>) -> Seq<u8> {
    trim_end(s.subrange(skip_space(s, 0), s.len() as int))
}

/// White space is skipped up to the first byte that is none, or the end.
pub proof fn lemma_skip_space_bounds(s: Seq<u8>, pos: int)
    requires
        0 <= pos <= s.len(),
    ensures
        pos <= skip_space(s, pos) <= s.len(),
        forall|i: int| pos <= i < skip_space(s, pos) ==> is_space(#[trigger] s[i]),
        skip_space(s, pos) < s.len() ==> !is_space(s[skip_space(s, pos)]),
    decreases s.len() - pos,
{
    if pos < s.len() && is_space(s[pos]) {
        lemma_skip_space_bounds(s, pos + 1);
    }
}

/// An identifier ends at the first byte that cannot continue it, or the
/// end.
pub proof fn lemma_ident_end_bounds(s: Seq<u8>, pos: int)
    requires
        0 <= pos <= s.len(),
    ensures
        pos <= ident_end(s, pos) <= s.len(),
        forall|i: int| pos <= i < ident_end(s, pos) ==> is_ident_char(#[trigger] s[i]),
        ident_end(s, pos) < s.len() ==> !is_ident_char(s[ident_end(s, pos)]),
    decreases s.len() - pos,
{
    if pos < s.len() && is_ident_char(s[pos]) {
        lemma_ident_end_bounds(s, pos + 1);
    }
}

/// A block ends at a `}` at or after its start.
pub proof fn lemma_block_end_bounds(s: Seq<u8>, pos: int, depth: nat)
    requires
        0 <= pos <= s.len(),
    ensures
        block_end(s, pos, depth) matches Some(e) ==> pos <= e < s.len() && s[e] == CLOSE_BRACE,
    decreases s.len() - pos,
{
    if pos < s.len() {
        if s[pos] == OPEN_BRACE {
            lemma_block_end_bounds(s, pos + 1, depth + 1);
        } else if s[pos] == CLOSE_BRACE {
            if depth > 0 {
                lemma_block_end_bounds(s, pos + 1, (depth - 1) as nat);
            }
        } else {
            lemma_block_end_bounds(s, pos + 1, depth);
        }
    }
}

/// Tests for white space.
pub fn byte_is_space(b: u8) -> (r: bool)
    ensures
        r == is_space(b),
{
    b == 0x20 || b == 0x09 || b == 0x0a || b == 0x0d
}

/// Tests for a byte that may begin an identifier.
pub fn byte_is_ident_start(b: u8) -> (r: bool)
    ensures
        r == is_ident_start(b),
{
    (0x41 <= b && b <= 0x5a) || (0x61 <= b && b <= 0x7a) || b == 0x5f || b >= 0x80
}

/// Tests for a byte that may continue an identifier.
pub fn byte_is_ident_char(b: u8) -> (r: bool)
    ensures
        r == is_ident_char(b),
{
    byte_is_ident_start(b) || (0x30 <= b && b <= 0x39)
}

/// Tests one byte of the input without reading past its end.
pub fn peek(s: &[u8], pos: usize, b: u8) -> (r: bool)
    ensures
        r == has_byte(s@, pos as int, b),
{
    pos < s.len() && s[pos] == b
}

/// Skips white space.
pub fn skip_space_from(s: &[u8], pos: usize) -> (next: usize)
    requires
        pos <= s.len(),
    ensures
        next == skip_space(s@, pos as int),
        pos <= next <= s.len(),
{
    let mut p: usize = pos;
    while p < s.len() && byte_is_space(s[p])
        invariant
            pos <= p <= s.len(),
            skip_space(s@, pos as int) == skip_space(s@, p as int),
        decreases s.len() - p,
    {
        p += 1;
    }
    p
}

/// Skips identifier bytes.
pub fn ident_end_from(s: &[u8], pos: usize) -> (next: usize)
    requires
        pos <= s.len(),
    ensures
        next == ident_end(s@, pos as int),
        pos <= next <= s.len(),
{
    let mut p: usize = pos;
    while p < s.len() && byte_is_ident_char(s[p])
        invariant
            pos <= p <= s.len(),
            ident_end(s@, pos as int) == ident_end(s@, p as int),
        decreases s.len() - p,
    {
        p += 1;
    }
    p
}

/// Finds the `}` that closes the block whose body starts at `pos`.
pub fn block_end_from(s: &[u8], pos: usize) -> (end: Option<usize>)
    requires
        pos <= s.len(),
    ensures
        match end {
            Some(e) => block_end(s@, pos as int, 0) == Some(e as int) && pos <= e < s.len(),
            None => block_end(s@, pos as int, 0) is None,
        },
{
    let mut p: usize = pos;
    let mut depth: usize = 0;
    while p < s.len()
        invariant
            pos <= p <= s.len(),
            depth <= p - pos,
            block_end(s@, pos as int, 0) == block_end(s@, p as int, depth as nat),
        decreases s.len() - p,
    {
        let b = s[p];
        if b == OPEN_BRACE {
            depth += 1;
        } else if b == CLOSE_BRACE {
            if depth == 0 {
                return Some(p);
            }
            depth -= 1;
        }
        p += 1;
    }
    None
}

/// Copies the bytes of `s` from `start` up to `end`.
pub fn copy_range(s: &[u8], start: usize, end: usize) -> (out: Vec<u8>)
    requires
        start <= end <= s.len(),
    ensures
        out@ == s@.subrange(start as int, end as int),
{
    let mut out: Vec<u8> = Vec::new();
    let mut i: usize = start;
    while i < end
        invariant
            start <= i <= end <= s.len(),
            out@ == s@.subrange(start as int, i as int),
        decreases end - i,
    {
        out.push(s[i]);
        i += 1;
    }
    out
}

/// Copies all of `s`.
pub fn copy_bytes(s: &[u8]) -> (out: Vec<u8>)
    ensures
        out@ == s@,
{
    let out = copy_range(s, 0, s.len());
    assert(s@.subrange(0, s@.len() as int) == s@);
    out
}

/// Byte-wise equality of two texts.
pub fn bytes_eq(a: &[u8], b: &[u8]) -> (r: bool)
    ensures
        r == (a@ == b@),
{
    if a.len() != b.len() {
        return false;
    }
    let mut i: usize = 0;
    while i < a.len()
        invariant
            a.len() == b.len(),
            i <= a.len(),
            forall|j: int| 0 <= j < i ==> a@[j] == b@[j],
        decreases a.len() - i,
    {
        if a[i] != b[i] {
            return false;
        }
        i += 1;
    }
    assert(a@ =~= b@);
    true
}

/// Tests whether a text is an identifier.
pub fn check_ident(s: &[u8]) -> (r: bool)
    ensures
        r == is_ident(s@),
{
    if s.len() == 0 || !byte_is_ident_start(s[0]) {
        return false;
    }
    let mut i: usize = 0;
    while i < s.len()
        invariant
            i <= s.len(),
            forall|j: int| 0 <= j < i ==> is_ident_char(#[trigger] s@[j]),
        decreases s.len() - i,
    {
        if !byte_is_ident_char(s[i]) {
            return false;
        }
        i += 1;
    }
    true
}

/// `needle` stands in `hay` at index `i`.
pub open spec fn occurs_at(hay: Seq<u8>, needle: Seq<u8>, i: int) -> bool {
    0 <= i && i + needle.len() <= hay.len() && hay.subrange(i, i + needle.len()) == needle
}

/// Braces balance in `e`: read as the body of a block, `e` is closed by the
/// `}` that follows it and by none of its own.
pub open spec fn balanced(e: Seq<u8>) -> bool {
    block_end(e.push(CLOSE_BRACE), 0, 0) == Some(e.len() as int)
}

/// Tests whether `needle` stands in `hay` at `i`.
pub fn has_text_at(hay: &[u8], needle: &[u8], i: usize) -> (r: bool)
    ensures
        r == occurs_at(hay@, needle@, i as int),
{
    if i > hay.len() || needle.len() > hay.len() - i {
        return false;
    }
    let mut k: usize = 0;
    while k < needle.len()
        invariant
            k <= needle.len(),
            i + needle.len() <= hay.len(),
            forall|j: int| 0 <= j < k ==> hay@[i + j] == needle@[j],
        decreases needle.len() - k,
    {
        if hay[i + k] != needle[k] {
            assert(hay@.subrange(i as int, i + needle.len())[k as int] != needle@[k as int]);
            return false;
        }
        k += 1;
    }
    assert(hay@.subrange(i as int, i + needle.len()) =~= needle@);
    true
}

/// Tests whether braces balance in `e`.
pub fn is_balanced(e: &[u8]) -> (r: bool)
    ensures
        r == balanced(e@),
{
    let ghost closed = e@.push(CLOSE_BRACE);
    let mut p: usize = 0;
    let mut depth: usize = 0;
    while p < e.len()
        invariant
            p <= e.len(),
            depth <= p,
            closed == e@.push(CLOSE_BRACE),
            block_end(closed, 0, 0) == block_end(closed, p as int, depth as nat),
        decreases e.len() - p,
    {
        let b = e[p];
        assert(closed[p as int] == b);
        if b == OPEN_BRACE {
            depth += 1;
        } else if b == CLOSE_BRACE {
            if depth == 0 {
                return false;
            }
            depth -= 1;
        }
        p += 1;
    }
    assert(closed[p as int] == CLOSE_BRACE);
    if depth > 0 {
        assert(block_end(closed, p + 1, (depth - 1) as nat) is None);
    }
    depth == 0
}

/// Braces balance in a text that holds none.
pub proof fn lemma_plain_is_balanced(e: Seq<u8>, k: int)
    requires
        0 <= k <= e.len(),
        forall|i: int| 0 <= i < e.len() ==> (#[trigger] e[i]) != OPEN_BRACE && e[i] != CLOSE_BRACE,
    ensures
        block_end(e.push(CLOSE_BRACE), k, 0) == Some(e.len() as int),
    decreases e.len() - k,
{
    let closed = e.push(CLOSE_BRACE);
    if k < e.len() {
        assert(closed[k] == e[k]);
        lemma_plain_is_balanced(e, k + 1);
    }
}


/// Reading on from a text in which braces balance is reading on from its
/// end: the text closes what it opens and nothing else.
pub proof fn lemma_balanced_passed(s: Seq<u8>, pos: int, a: Seq<u8>, k: int, depth: nat, inner: nat)
    requires
        0 <= k <= a.len(),
        occurs_at(s, a, pos),
        block_end(a.push(CLOSE_BRACE), k, inner) == Some(a.len() as int),
    ensures
        block_end(s, pos + k, depth + inner) == block_end(s, pos + a.len(), depth),
    decreases a.len() - k,
{
    let closed = a.push(CLOSE_BRACE);
    if k < a.len() {
        assert(s.subrange(pos, pos + a.len())[k] == a[k]);
        assert(closed[k] == a[k]);
        if a[k] == OPEN_BRACE {
            lemma_balanced_passed(s, pos, a, k + 1, depth, inner + 1);
        } else if a[k] == CLOSE_BRACE {
            if inner > 0 {
                lemma_balanced_passed(s, pos, a, k + 1, depth, (inner - 1) as nat);
            }
        } else {
            lemma_balanced_passed(s, pos, a, k + 1, depth, inner);
        }
    } else {
        assert(closed[k] == CLOSE_BRACE);
        if inner > 0 {
            assert(block_end(closed, k + 1, (inner - 1) as nat) is None);
        }
    }
}

/// Braces balance in two texts put together where they balance in each.
pub proof fn lemma_balanced_concat(a: Seq<u8>, b: Seq<u8>)
    requires
        balanced(a),
        balanced(b),
    ensures
        balanced(a + b),
{
    let s = (a + b).push(CLOSE_BRACE);
    let n = a.len() as int;
    let m = b.len() as int;
    assert(s.subrange(0, n) =~= a);
    assert(s.subrange(n, n + m) =~= b);
    lemma_balanced_passed(s, 0, a, 0, 0, 0);
    lemma_balanced_passed(s, n, b, 0, 0, 0);
    assert(s[n + m] == CLOSE_BRACE);
}

/// Braces balance in a text in braces where they balance in the text.
pub proof fn lemma_balanced_braced(a: Seq<u8>)
    requires
        balanced(a),
    ensures
        balanced(seq![OPEN_BRACE] + a + seq![CLOSE_BRACE]),
{
    let e = seq![OPEN_BRACE] + a + seq![CLOSE_BRACE];
    let s = e.push(CLOSE_BRACE);
    let n = a.len() as int;
    assert(s[0] == OPEN_BRACE);
    assert(s.subrange(1, 1 + n) =~= a);
    lemma_balanced_passed(s, 1, a, 0, 1, 0);
    assert(s[1 + n] == CLOSE_BRACE);
    assert(s[2 + n] == CLOSE_BRACE);
    assert(block_end(s, 2 + n, 0) == Some(2 + n));
    assert(block_end(s, 1 + n, 1) == Some(2 + n));
    assert(block_end(s, 1, 1) == Some(2 + n));
}

/// Puts a text at the end of another.
pub fn append(out: &mut Vec<u8>, text: &[u8])
    ensures
        final(out)@ == old(out)@ + text@,
{
    let mut i: usize = 0;
    while i < text.len()
        invariant
            i <= text.len(),
            out@ == old(out)@ + text@.subrange(0, i as int),
        decreases text.len() - i,
    {
        out.push(text[i]);
        assert(text@.subrange(0, i + 1) == text@.subrange(0, i as int).push(text@[i as int]));
        i += 1;
    }
    assert(text@.subrange(0, text.len() as int) == text@);
}



/// How a byte is written where braces must not stand: a brace and the
/// escape byte itself as the escape byte and a letter, every other byte as
/// it is.
pub open spec fn escaped_byte(b: u8) -> Seq<u8> {
    if b == OPEN_BRACE {
        seq![ESCAPE, 0x6fu8]
    } else if b == CLOSE_BRACE {
        seq![ESCAPE, 0x63u8]
    } else if b == ESCAPE {
        seq![ESCAPE, 0x65u8]
    } else {
        seq![b]
    }
}

/// The bytes of `x` from `from` on, each written as `escaped_byte` says.
pub open spec fn escaped(x: Seq<u8>, from: int) -> Seq<u8>
    decreases x.len() - from,
{
    if from < 0 || from >= x.len() {
        Seq::empty()
    } else {
        escaped_byte(x[from]) + escaped(x, from + 1)
    }
}

/// The byte that stands for the letter after an escape byte.
pub open spec fn unescaped_byte(code: u8) -> u8 {
    if code == 0x6f {
        OPEN_BRACE
    } else if code == 0x63 {
        CLOSE_BRACE
    } else if code == 0x65 {
        ESCAPE
    } else {
        code
    }
}

/// The text of `s` from `from` on with every escape byte and the byte after
/// it read back as the byte they stand for.
pub open spec fn unescaped(s: Seq<u8>, from: int) -> Seq<u8>
    decreases s.len() - from,
{
    if from < 0 || from >= s.len() {
        Seq::empty()
    } else if s[from] == ESCAPE && from + 1 < s.len() {
        seq![unescaped_byte(s[from + 1])] + unescaped(s, from + 2)
    } else {
        seq![s[from]] + unescaped(s, from + 1)
    }
}

/// No escape byte of `s` from `from` on lacks the byte after it: read from
/// there, `s` ends where one of its units ends.
pub open spec fn whole(s: Seq<u8>, from: int) -> bool
    decreases s.len() - from,
{
    if from < 0 || from >= s.len() {
        true
    } else if s[from] == ESCAPE {
        from + 1 < s.len() && whole(s, from + 2)
    } else {
        whole(s, from + 1)
    }
}

/// What follows a text is read back as if it stood alone.
pub proof fn lemma_unescaped_after(a: Seq<u8>, b: Seq<u8>, k: int)
    requires
        0 <= k <= b.len() + 1,
    ensures
        unescaped(a + b, a.len() + k) == unescaped(b, k),
    decreases b.len() + 1 - k,
{
    let s = a + b;
    if k < b.len() {
        assert(s[a.len() + k] == b[k]);
        if b[k] == ESCAPE && k + 1 < b.len() {
            assert(s[a.len() + k + 1] == b[k + 1]);
            lemma_unescaped_after(a, b, k + 2);
        } else {
            lemma_unescaped_after(a, b, k + 1);
        }
    }
}

/// A whole text and what follows it are read back each for itself.
pub proof fn lemma_unescaped_concat(a: Seq<u8>, b: Seq<u8>, k: int)
    requires
        0 <= k <= a.len(),
        whole(a, k),
    ensures
        unescaped(a + b, k) == unescaped(a, k) + unescaped(b, 0),
        whole(b, 0) ==> whole(a + b, k),
    decreases a.len() - k,
{
    let s = a + b;
    if k < a.len() {
        assert(s[k] == a[k]);
        if a[k] == ESCAPE {
            assert(s[k + 1] == a[k + 1]);
            lemma_unescaped_concat(a, b, k + 2);
            assert(seq![unescaped_byte(a[k + 1])] + (unescaped(a, k + 2) + unescaped(b, 0)) == (
            seq![unescaped_byte(a[k + 1])] + unescaped(a, k + 2)) + unescaped(b, 0));
        } else {
            lemma_unescaped_concat(a, b, k + 1);
            assert(seq![a[k]] + (unescaped(a, k + 1) + unescaped(b, 0)) == (seq![a[k]] + unescaped(
                a,
                k + 1,
            )) + unescaped(b, 0));
        }
    } else {
        lemma_unescaped_after(a, b, 0);
        lemma_whole_after(a, b, 0);
        assert(Seq::<u8>::empty() + unescaped(b, 0) == unescaped(b, 0));
    }
}

proof fn lemma_whole_after(a: Seq<u8>, b: Seq<u8>, k: int)
    requires
        0 <= k <= b.len() + 1,
    ensures
        whole(a + b, a.len() + k) == whole(b, k),
    decreases b.len() + 1 - k,
{
    let s = a + b;
    if k < b.len() {
        assert(s[a.len() + k] == b[k]);
        if b[k] == ESCAPE {
            if k + 1 < b.len() {
                lemma_whole_after(a, b, k + 2);
            }
        } else {
            lemma_whole_after(a, b, k + 1);
        }
    }
}

/// A text without an escape byte is whole, and is read back as it is.
pub proof fn lemma_unescaped_plain(a: Seq<u8>, k: int)
    requires
        0 <= k <= a.len(),
        forall|i: int| 0 <= i < a.len() ==> (#[trigger] a[i]) != ESCAPE,
    ensures
        whole(a, k),
        unescaped(a, k) == a.subrange(k, a.len() as int),
    decreases a.len() - k,
{
    if k < a.len() {
        lemma_unescaped_plain(a, k + 1);
        assert(a[k] != ESCAPE);
        assert(seq![a[k]] + a.subrange(k + 1, a.len() as int) == a.subrange(k, a.len() as int));
    } else {
        assert(a.subrange(k, a.len() as int) == Seq::<u8>::empty());
    }
}

/// Escaping loses nothing and leaves no brace: an escaped text is whole,
/// holds no brace, and is read back as the text it was made from.
pub proof fn lemma_escaped(x: Seq<u8>, from: int)
    requires
        0 <= from <= x.len(),
    ensures
        whole(escaped(x, from), 0),
        unescaped(escaped(x, from), 0) == x.subrange(from, x.len() as int),
        forall|i: int|
            0 <= i < escaped(x, from).len() ==> (#[trigger] escaped(x, from)[i]) != OPEN_BRACE
                && escaped(x, from)[i] != CLOSE_BRACE,
    decreases x.len() - from,
{
    if from < x.len() {
        let unit = escaped_byte(x[from]);
        let rest = escaped(x, from + 1);
        lemma_escaped(x, from + 1);
        let s = unit + rest;
        assert(s[0] == unit[0]);
        if unit.len() == 2 {
            assert(s[1] == unit[1]);
            lemma_unescaped_after(unit, rest, 0);
            lemma_whole_after(unit, rest, 0);
            assert(unescaped_byte(unit[1]) == x[from]);
        } else {
            assert(whole(unit, 1));
            assert(whole(unit, 0));
            assert(unescaped(unit, 1) == Seq::<u8>::empty());
            lemma_unescaped_concat(unit, rest, 1);
            lemma_whole_after(unit, rest, 0);
            assert(whole(s, 1) == whole(rest, 0));
        }
        assert(seq![x[from]] + x.subrange(from + 1, x.len() as int) == x.subrange(
            from,
            x.len() as int,
        ));
        assert forall|i: int| 0 <= i < s.len() implies (#[trigger] s[i]) != OPEN_BRACE && s[i]
            != CLOSE_BRACE by {
            if i >= unit.len() {
                assert(s[i] == rest[i - unit.len()]);
            } else {
                assert(s[i] == unit[i]);
            }
        }
    } else {
        assert(x.subrange(from, x.len() as int) == Seq::<u8>::empty());
    }
}

/// Writes a text with its braces and escape bytes escaped.
pub fn escape(x: &[u8]) -> (out: Vec<u8>)
    ensures
        out@ == escaped(x@, 0),
{
    let mut out: Vec<u8> = Vec::new();
    let mut i: usize = 0;
    assert(Seq::<u8>::empty() + escaped(x@, 0) == escaped(x@, 0));
    while i < x.len()
        invariant
            i <= x.len(),
            out@ + escaped(x@, i as int) == escaped(x@, 0),
        decreases x.len() - i,
    {
        let ghost before = out@;
        let b = x[i];
        if b == OPEN_BRACE {
            out.push(ESCAPE);
            out.push(0x6f);
        } else if b == CLOSE_BRACE {
            out.push(ESCAPE);
            out.push(0x63);
        } else if b == ESCAPE {
            out.push(ESCAPE);
            out.push(0x65);
        } else {
            out.push(b);
        }
        assert(out@ == before + escaped_byte(b));
        assert(before + (escaped_byte(b) + escaped(x@, i + 1)) == (before + escaped_byte(b))
            + escaped(x@, i + 1));
        i += 1;
    }
    assert(out@ + Seq::<u8>::empty() == out@);
    out
}

/// Reads an escaped text back.
pub fn unescape(s: &[u8]) -> (out: Vec<u8>)
    ensures
        out@ == unescaped(s@, 0),
{
    let mut out: Vec<u8> = Vec::new();
    let mut i: usize = 0;
    assert(Seq::<u8>::empty() + unescaped(s@, 0) == unescaped(s@, 0));
    while i < s.len()
        invariant
            i <= s.len(),
            out@ + unescaped(s@, i as int) == unescaped(s@, 0),
        decreases s.len() - i,
    {
        let ghost before = out@;
        if s[i] == ESCAPE && s.len() - i > 1 {
            let code = s[i + 1];
            let b = if code == 0x6f {
                OPEN_BRACE
            } else if code == 0x63 {
                CLOSE_BRACE
            } else if code == 0x65 {
                ESCAPE
            } else {
                code
            };
            out.push(b);
            assert(before + (seq![b] + unescaped(s@, i + 2)) == (before + seq![b]) + unescaped(
                s@,
                i + 2,
            ));
            i += 2;
        } else {
            out.push(s[i]);
            assert(before + (seq![s@[i as int]] + unescaped(s@, i + 1)) == (before + seq![
                s@[i as int],
            ]) + unescaped(s@, i + 1));
            i += 1;
        }
    }
    assert(out@ + Seq::<u8>::empty() == out@);
    out
}

} // verus!
