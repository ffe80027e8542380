//! Markup as tokens, and the text that tokens are written to.
//!
//! Markup reaches a macro as tokens. The parser reads text, so the tokens
//! are written out first: with no more white space than keeps neighbouring
//! tokens apart and marks a control form.
//!
//! The parser finds the end of an expression by its braces, and the text of
//! a literal may hold a brace without its match. So for the parser the
//! braces within words and literals are escaped: the only braces of the
//! markup text are those of the groups, and they balance. What the parser
//! has cut out of the text is read back afterwards as it was written.

use vstd::prelude::*;
use crate::text::{
    append, balanced, escape, escaped, lemma_balanced_braced, lemma_balanced_concat, lemma_escaped,
    lemma_plain_is_balanced, lemma_unescaped_concat, lemma_unescaped_plain, unescaped, whole,
    CLOSE_BRACE, ESCAPE, OPEN_BRACE, SPACE,
};

verus! {

/// The delimiters of a group.
#[derive(Clone, Copy, Debug, PartialEq, Eq, Structural)]
pub enum Delimiter {
    Parenthesis,
    Brace,
    Bracket,
    /// A group without delimiters of its own.
    Invisible,
}

/// A token.
#[derive(Debug, PartialEq, Eq)]
pub enum Token {
    /// An identifier or a keyword.
    Ident(Vec<u8>),
    /// One punctuation character; `joint` when the next token follows it
    /// without white space and is punctuation too.
    Punct { ch: u8, joint: bool },
    /// A literal, as written.
    Literal(Vec<u8>),
    /// Tokens between delimiters.
    Group { delimiter: Delimiter, tokens: Vec<Token> },
}

/// The model of a [`Token`].
pub enum TokenModel {
    Ident(Seq<u8>),
    Punct { ch: u8, joint: bool },
    Literal(Seq<u8>),
    Group { delimiter: Delimiter, tokens: Seq<TokenModel> },
}

/// The model of a token.
pub open spec fn token_view(t: Token) -> TokenModel
    decreases t, 0int,
{
    match t {
        Token::Ident(w) => TokenModel::Ident(w@),
        Token::Punct { ch, joint } => TokenModel::Punct { ch, joint },
        Token::Literal(l) => TokenModel::Literal(l@),
        Token::Group { delimiter, tokens } => TokenModel::Group {
            delimiter,
            tokens: tokens_view(tokens@),
        },
    }
}

/// The models of tokens, in order.
pub open spec fn tokens_view(s: Seq<Token>) -> Seq<TokenModel>
    decreases s, 1int,
{
    Seq::new(
        s.len(),
        |i: int|
            if 0 <= i < s.len() {
                token_view(s[i])
            } else {
                arbitrary()
            },
    )
}

impl View for Token {
    type V = TokenModel;

    open spec fn view(&self) -> TokenModel {
        token_view(*self)
    }
}

/// What was written last, as far as the next token depends on it.
#[derive(Clone, Copy, Debug, PartialEq, Eq, Structural)]
pub enum Last {
    /// Nothing that needs a separator.
    Other,
    /// An identifier or a literal.
    Word,
    /// A punctuation character that is not joined to the next.
    Alone,
    /// `if` or `for` at the start of a group in braces.
    Keyword,
}

/// The text `if`.
pub open spec fn if_word() -> Seq<u8> {
    seq![0x69u8, 0x66u8]
}

/// The text `for`.
pub open spec fn for_word() -> Seq<u8> {
    seq![0x66u8, 0x6fu8, 0x72u8]
}

/// What a token leaves behind for the next; `first` when it starts a group
/// in braces.
pub open spec fn left_by(t: TokenModel, first: bool) -> Last {
    match t {
        TokenModel::Ident(w) => if first && (w == if_word() || w == for_word()) {
            Last::Keyword
        } else {
            Last::Word
        },
        TokenModel::Punct { joint, .. } => if joint {
            Last::Other
        } else {
            Last::Alone
        },
        TokenModel::Literal(_) => Last::Word,
        TokenModel::Group { .. } => Last::Other,
    }
}

/// What the first `n` tokens leave behind.
pub open spec fn last_of(tokens: Seq<TokenModel>, n: int, in_braces: bool) -> Last {
    if n <= 0 || n > tokens.len() {
        Last::Other
    } else {
        left_by(tokens[n - 1], in_braces && n == 1)
    }
}

/// A space stands before a token where it would else run into what was
/// written last: a word after a word, punctuation after punctuation that is
/// not joined to it, and anything after the keyword of a control form.
pub open spec fn needs_space(last: Last, t: TokenModel) -> bool {
    match t {
        TokenModel::Ident(_) => last == Last::Word || last == Last::Keyword,
        TokenModel::Literal(_) => last == Last::Word || last == Last::Keyword,
        TokenModel::Punct { .. } => last == Last::Alone || last == Last::Keyword,
        TokenModel::Group { .. } => last == Last::Keyword,
    }
}

/// The separator before a token.
pub open spec fn separator(last: Last, t: TokenModel) -> Seq<u8> {
    if needs_space(last, t) {
        seq![SPACE]
    } else {
        Seq::empty()
    }
}

/// The delimiter that opens a group.
pub open spec fn opening(d: Delimiter) -> Seq<u8> {
    match d {
        Delimiter::Parenthesis => seq![0x28u8],
        Delimiter::Brace => seq![OPEN_BRACE],
        Delimiter::Bracket => seq![0x5bu8],
        Delimiter::Invisible => Seq::empty(),
    }
}

/// The delimiter that closes a group.
pub open spec fn closing(d: Delimiter) -> Seq<u8> {
    match d {
        Delimiter::Parenthesis => seq![0x29u8],
        Delimiter::Brace => seq![CLOSE_BRACE],
        Delimiter::Bracket => seq![0x5du8],
        Delimiter::Invisible => Seq::empty(),
    }
}

/// The text of one token.
pub open spec fn token_text(t: TokenModel) -> Seq<u8>
    decreases t, 0int,
{
    match t {
        TokenModel::Ident(w) => w,
        TokenModel::Punct { ch, .. } => seq![ch],
        TokenModel::Literal(l) => l,
        TokenModel::Group { delimiter, tokens } => opening(delimiter) + tokens_text(
            tokens,
            tokens.len() as int,
            delimiter == Delimiter::Brace,
        ) + closing(delimiter),
    }
}

/// The text of the first `n` tokens, each after its separator.
pub open spec fn tokens_text(tokens: Seq<TokenModel>, n: int, in_braces: bool) -> Seq<u8>
    decreases tokens, n,
{
    if n <= 0 || n > tokens.len() {
        Seq::empty()
    } else {
        tokens_text(tokens, n - 1, in_braces) + separator(
            last_of(tokens, n - 1, in_braces),
            tokens[n - 1],
        ) + token_text(tokens[n - 1])
    }
}

/// The offsets at which the tokens within a token start, in the order
/// written, where the token itself starts at `base`.
pub open spec fn starts_within(t: TokenModel, base: int) -> Seq<int>
    decreases t, 0int,
{
    match t {
        TokenModel::Group { delimiter, tokens } => tokens_starts(
            tokens,
            tokens.len() as int,
            delimiter == Delimiter::Brace,
            base + opening(delimiter).len(),
        ),
        _ => Seq::empty(),
    }
}

/// The offsets at which the first `n` tokens and the tokens within them
/// start, in the order written, where the text of the tokens starts at
/// `base`.
pub open spec fn tokens_starts(tokens: Seq<TokenModel>, n: int, in_braces: bool, base: int) -> Seq<int>
    decreases tokens, n,
{
    if n <= 0 || n > tokens.len() {
        Seq::empty()
    } else {
        let start = base + tokens_text(tokens, n - 1, in_braces).len() + separator(
            last_of(tokens, n - 1, in_braces),
            tokens[n - 1],
        ).len();
        tokens_starts(tokens, n - 1, in_braces, base) + seq![start] + starts_within(
            tokens[n - 1],
            start,
        )
    }
}

/// A token that keeps braces balanced: no word or literal opens a brace
/// that it does not close, and no punctuation is a brace.
pub open spec fn token_ok(t: TokenModel) -> bool
    decreases t, 0int,
{
    match t {
        TokenModel::Ident(w) => balanced(w),
        TokenModel::Punct { ch, .. } => ch != OPEN_BRACE && ch != CLOSE_BRACE,
        TokenModel::Literal(l) => balanced(l),
        TokenModel::Group { tokens, .. } => tokens_ok(tokens),
    }
}

/// Tokens that keep braces balanced.
pub open spec fn tokens_ok(tokens: Seq<TokenModel>) -> bool
    decreases tokens, 1int,
{
    forall|i: int| 0 <= i < tokens.len() ==> token_ok(#[trigger] tokens[i])
}

/// Tokens as text, with the offset at which each token starts.
#[derive(Debug, PartialEq, Eq)]
pub struct Written {
    pub text: Vec<u8>,
    /// One offset for each token, those within groups included, in the
    /// order written.
    pub starts: Vec<usize>,
}

/// The offsets as integers.
pub open spec fn offsets(starts: Seq<usize>) -> Seq<int> {
    Seq::new(starts.len(), |i: int| starts[i] as int)
}

fn is_keyword(w: &Vec<u8>) -> (r: bool)
    ensures
        r == (w@ == if_word() || w@ == for_word()),
{
    if w.len() == 2 {
        let r = w[0] == 0x69 && w[1] == 0x66;
        assert(r == (w@ =~= if_word()));
        r
    } else if w.len() == 3 {
        let r = w[0] == 0x66 && w[1] == 0x6f && w[2] == 0x72;
        assert(r == (w@ =~= for_word()));
        r
    } else {
        false
    }
}

fn put_delimiter(out: &mut Vec<u8>, d: Delimiter, open: bool)
    ensures
        final(out)@ == old(out)@ + (if open {
            opening(d)
        } else {
            closing(d)
        }),
{
    let ghost before = out@;
    match d {
        Delimiter::Parenthesis => {
            out.push(if open { 0x28 } else { 0x29 });
        },
        Delimiter::Brace => {
            out.push(if open { OPEN_BRACE } else { CLOSE_BRACE });
        },
        Delimiter::Bracket => {
            out.push(if open { 0x5b } else { 0x5d });
        },
        Delimiter::Invisible => {},
    }
    assert(out@ == before + (if open {
        opening(d)
    } else {
        closing(d)
    }));
}

fn write_separator(t: &Token, last: Last, written: &mut Written)
    ensures
        final(written).text@ == old(written).text@ + separator(last, t@),
        final(written).starts@ == old(written).starts@.push(final(written).text.len()),
{
    let space = match t {
        Token::Ident(_) => matches!(last, Last::Word | Last::Keyword),
        Token::Literal(_) => matches!(last, Last::Word | Last::Keyword),
        Token::Punct { .. } => matches!(last, Last::Alone | Last::Keyword),
        Token::Group { .. } => matches!(last, Last::Keyword),
    };
    if space {
        written.text.push(SPACE);
    }
    assert(written.text@ == old(written).text@ + separator(last, t@));
    written.starts.push(written.text.len());
}

fn write_token(t: &Token, last: Last, first: bool, written: &mut Written) -> (left: Last)
    ensures
        left == left_by(t@, first),
        final(written).text@ == old(written).text@ + separator(last, t@) + token_text(t@),
        offsets(final(written).starts@) == offsets(old(written).starts@) + seq![
            (old(written).text@.len() + separator(last, t@).len()) as int,
        ] + starts_within(t@, (old(written).text@.len() + separator(last, t@).len()) as int),
    decreases t, 0int,
{
    let ghost starts = offsets(written.starts@);
    write_separator(t, last, written);
    let ghost begun = written.text@;
    assert(offsets(written.starts@) == starts + seq![begun.len() as int]);
    let ghost marked = offsets(written.starts@);
    assert(marked + Seq::<int>::empty() == marked);
    match t {
        Token::Ident(w) => {
            append(&mut written.text, w.as_slice());
            if first && is_keyword(w) {
                Last::Keyword
            } else {
                Last::Word
            }
        },
        Token::Literal(l) => {
            append(&mut written.text, l.as_slice());
            Last::Word
        },
        Token::Punct { ch, joint } => {
            written.text.push(*ch);
            assert(written.text@ == begun + seq![*ch]);
            if *joint {
                Last::Other
            } else {
                Last::Alone
            }
        },
        Token::Group { delimiter, tokens } => {
            put_delimiter(&mut written.text, *delimiter, true);
            write_tokens(tokens, matches!(delimiter, Delimiter::Brace), written);
            put_delimiter(&mut written.text, *delimiter, false);
            assert(written.text@ == begun + token_text(t@)) by {
                let inner = tokens_text(
                    tokens_view(tokens@),
                    tokens.len() as int,
                    *delimiter == Delimiter::Brace,
                );
                assert(begun + opening(*delimiter) + inner + closing(*delimiter) == begun + (
                opening(*delimiter) + inner + closing(*delimiter)));
            }
            Last::Other
        },
    }
}

fn write_tokens(tokens: &Vec<Token>, in_braces: bool, written: &mut Written)
    ensures
        final(written).text@ == old(written).text@ + tokens_text(
            tokens_view(tokens@),
            tokens.len() as int,
            in_braces,
        ),
        offsets(final(written).starts@) == offsets(old(written).starts@) + tokens_starts(
            tokens_view(tokens@),
            tokens.len() as int,
            in_braces,
            old(written).text@.len() as int,
        ),
    decreases tokens, 1int,
{
    let ghost text = written.text@;
    let ghost starts = offsets(written.starts@);
    let ghost model = tokens_view(tokens@);
    let mut last = Last::Other;
    let mut i: usize = 0;
    assert(text + Seq::<u8>::empty() == text);
    assert(starts + Seq::<int>::empty() == starts);
    while i < tokens.len()
        invariant
            i <= tokens.len(),
            model == tokens_view(tokens@),
            text == old(written).text@,
            starts == offsets(old(written).starts@),
            last == last_of(model, i as int, in_braces),
            written.text@ == text + tokens_text(model, i as int, in_braces),
            offsets(written.starts@) == starts + tokens_starts(
                model,
                i as int,
                in_braces,
                text.len() as int,
            ),
        decreases tokens.len() - i,
    {
        let ghost so_far = tokens_text(model, i as int, in_braces);
        let ghost marks = tokens_starts(model, i as int, in_braces, text.len() as int);
        assert(model[i as int] == tokens[i as int]@);
        let ghost sep = separator(last, model[i as int]);
        last = write_token(&tokens[i], last, in_braces && i == 0, written);
        assert(text + so_far + sep + token_text(model[i as int]) == text + (so_far + sep
            + token_text(model[i as int])));
        let ghost start: int = (text.len() + so_far.len() + sep.len()) as int;
        assert(starts + marks + seq![start] + starts_within(model[i as int], start) == starts + (
        marks + seq![start] + starts_within(model[i as int], start)));
        i += 1;
    }
}

/// Writes tokens out as text.
pub fn to_text(tokens: &Vec<Token>) -> (written: Written)
    ensures
        written.text@ == tokens_text(tokens_view(tokens@), tokens.len() as int, false),
        offsets(written.starts@) == tokens_starts(
            tokens_view(tokens@),
            tokens.len() as int,
            false,
            0,
        ),
{
    let mut written = Written { text: Vec::new(), starts: Vec::new() };
    assert(offsets(written.starts@) == Seq::<int>::empty());
    write_tokens(tokens, false, &mut written);
    assert(Seq::<u8>::empty() + tokens_text(tokens_view(tokens@), tokens.len() as int, false)
        == tokens_text(tokens_view(tokens@), tokens.len() as int, false));
    assert(Seq::<int>::empty() + tokens_starts(tokens_view(tokens@), tokens.len() as int, false, 0)
        == tokens_starts(tokens_view(tokens@), tokens.len() as int, false, 0));
    written
}

proof fn lemma_delimiters_balanced(d: Delimiter, inner: Seq<u8>)
    requires
        balanced(inner),
    ensures
        balanced(opening(d) + inner + closing(d)),
{
    match d {
        Delimiter::Brace => {
            lemma_balanced_braced(inner);
        },
        Delimiter::Invisible => {
            assert(opening(d) + inner + closing(d) == inner);
        },
        _ => {
            lemma_plain_is_balanced(opening(d), 0);
            lemma_plain_is_balanced(closing(d), 0);
            lemma_balanced_concat(opening(d), inner);
            lemma_balanced_concat(opening(d) + inner, closing(d));
        },
    }
}

/// Braces balance in the text of a token that keeps them balanced.
pub proof fn lemma_token_balanced(t: TokenModel)
    requires
        token_ok(t),
    ensures
        balanced(token_text(t)),
    decreases t, 0int,
{
    match t {
        TokenModel::Group { delimiter, tokens } => {
            lemma_tokens_balanced(tokens, tokens.len() as int, delimiter == Delimiter::Brace);
            lemma_delimiters_balanced(
                delimiter,
                tokens_text(tokens, tokens.len() as int, delimiter == Delimiter::Brace),
            );
        },
        TokenModel::Punct { ch, .. } => {
            lemma_plain_is_balanced(seq![ch], 0);
        },
        _ => {},
    }
}

/// Braces balance in the text of tokens that keep them balanced, so a group
/// in braces is written as a block that ends where the group ends.
pub proof fn lemma_tokens_balanced(tokens: Seq<TokenModel>, n: int, in_braces: bool)
    requires
        0 <= n <= tokens.len(),
        tokens_ok(tokens),
    ensures
        balanced(tokens_text(tokens, n, in_braces)),
    decreases tokens, n,
{
    if n == 0 {
        lemma_plain_is_balanced(Seq::empty(), 0);
    } else {
        let before = tokens_text(tokens, n - 1, in_braces);
        let sep = separator(last_of(tokens, n - 1, in_braces), tokens[n - 1]);
        lemma_tokens_balanced(tokens, n - 1, in_braces);
        lemma_token_balanced(tokens[n - 1]);
        lemma_plain_is_balanced(sep, 0);
        lemma_balanced_concat(before, sep);
        lemma_balanced_concat(before + sep, token_text(tokens[n - 1]));
    }
}

/// The index of the last of the first `n` offsets that is not greater than
/// `offset`.
pub open spec fn last_start(starts: Seq<usize>, n: int, offset: usize) -> Option<int>
    decreases n,
{
    if n <= 0 || n > starts.len() {
        None
    } else if starts[n - 1] <= offset {
        Some(n - 1)
    } else {
        last_start(starts, n - 1, offset)
    }
}

impl Written {
    /// Finds the token that a byte of the text belongs to: the last token,
    /// in the order written, that starts at or before `offset`.
    pub fn token_at(&self, offset: usize) -> (found: Option<usize>)
        ensures
            match found {
                Some(i) => last_start(self.starts@, self.starts.len() as int, offset) == Some(
                    i as int,
                ),
                None => last_start(self.starts@, self.starts.len() as int, offset) is None,
            },
    {
        let mut n: usize = self.starts.len();
        while n > 0
            invariant
                n <= self.starts.len(),
                last_start(self.starts@, self.starts.len() as int, offset) == last_start(
                    self.starts@,
                    n as int,
                    offset,
                ),
            decreases n,
        {
            if self.starts[n - 1] <= offset {
                return Some(n - 1);
            }
            n -= 1;
        }
        None
    }
}


/// A token with its braces escaped: in a word or a literal each brace is
/// written as an escape, and punctuation that is a brace is written as a
/// literal that holds the escape.
pub open spec fn escaped_token(t: TokenModel) -> TokenModel
    decreases t, 0int,
{
    match t {
        TokenModel::Ident(w) => TokenModel::Ident(escaped(w, 0)),
        TokenModel::Punct { ch, joint } => if ch == OPEN_BRACE || ch == CLOSE_BRACE || ch == ESCAPE {
            TokenModel::Literal(escaped(seq![ch], 0))
        } else {
            TokenModel::Punct { ch, joint }
        },
        TokenModel::Literal(l) => TokenModel::Literal(escaped(l, 0)),
        TokenModel::Group { delimiter, tokens } => TokenModel::Group {
            delimiter,
            tokens: escaped_tokens(tokens),
        },
    }
}

/// Tokens with their braces escaped.
pub open spec fn escaped_tokens(tokens: Seq<TokenModel>) -> Seq<TokenModel>
    decreases tokens, 1int,
{
    Seq::new(
        tokens.len(),
        |i: int|
            if 0 <= i < tokens.len() {
                escaped_token(tokens[i])
            } else {
                arbitrary()
            },
    )
}

/// The text that tokens are as markup: their text with the braces within
/// words and literals escaped, so that the only braces are those of the
/// groups.
pub open spec fn markup_text(tokens: Seq<TokenModel>) -> Seq<u8> {
    tokens_text(escaped_tokens(tokens), tokens.len() as int, false)
}

fn escape_token(t: &Token) -> (out: Token)
    ensures
        out@ == escaped_token(t@),
    decreases t, 0int,
{
    match t {
        Token::Ident(w) => Token::Ident(escape(w.as_slice())),
        Token::Punct { ch, joint } => {
            if *ch == OPEN_BRACE || *ch == CLOSE_BRACE || *ch == ESCAPE {
                let one: Vec<u8> = vec![*ch];
                assert(one@ == seq![*ch]);
                Token::Literal(escape(one.as_slice()))
            } else {
                Token::Punct { ch: *ch, joint: *joint }
            }
        },
        Token::Literal(l) => Token::Literal(escape(l.as_slice())),
        Token::Group { delimiter, tokens } => Token::Group {
            delimiter: *delimiter,
            tokens: escape_tokens(tokens),
        },
    }
}

fn escape_tokens(tokens: &Vec<Token>) -> (out: Vec<Token>)
    ensures
        tokens_view(out@) == escaped_tokens(tokens_view(tokens@)),
    decreases tokens, 1int,
{
    let mut out: Vec<Token> = Vec::new();
    let mut i: usize = 0;
    while i < tokens.len()
        invariant
            i <= tokens.len(),
            out.len() == i,
            forall|j: int|
                0 <= j < i ==> (#[trigger] out[j])@ == escaped_token(tokens_view(tokens@)[j]),
        decreases tokens.len() - i,
    {
        assert(tokens_view(tokens@)[i as int] == tokens[i as int]@);
        out.push(escape_token(&tokens[i]));
        i += 1;
    }
    assert(tokens_view(out@) =~= escaped_tokens(tokens_view(tokens@)));
    out
}

/// Escaped tokens keep braces balanced.
pub proof fn lemma_escaped_token_ok(t: TokenModel)
    ensures
        token_ok(escaped_token(t)),
    decreases t, 0int,
{
    match t {
        TokenModel::Ident(w) => {
            lemma_escaped(w, 0);
            lemma_plain_is_balanced(escaped(w, 0), 0);
        },
        TokenModel::Punct { ch, .. } => {
            lemma_escaped(seq![ch], 0);
            lemma_plain_is_balanced(escaped(seq![ch], 0), 0);
        },
        TokenModel::Literal(l) => {
            lemma_escaped(l, 0);
            lemma_plain_is_balanced(escaped(l, 0), 0);
        },
        TokenModel::Group { tokens, .. } => {
            lemma_escaped_tokens_ok(tokens);
        },
    }
}

/// The same for a sequence of tokens.
pub proof fn lemma_escaped_tokens_ok(tokens: Seq<TokenModel>)
    ensures
        tokens_ok(escaped_tokens(tokens)),
    decreases tokens, 1int,
{
    assert forall|i: int| 0 <= i < tokens.len() implies token_ok(
        #[trigger] escaped_tokens(tokens)[i],
    ) by {
        lemma_escaped_token_ok(tokens[i]);
    }
}

/// Tokens as a lexer hands them out: no punctuation is a brace or the
/// escape byte.
pub open spec fn lexed(tokens: Seq<TokenModel>) -> bool
    decreases tokens, 1int,
{
    forall|i: int| 0 <= i < tokens.len() ==> lexed_token(#[trigger] tokens[i])
}

/// The same for one token.
pub open spec fn lexed_token(t: TokenModel) -> bool
    decreases t, 0int,
{
    match t {
        TokenModel::Punct { ch, .. } => ch != OPEN_BRACE && ch != CLOSE_BRACE && ch != ESCAPE,
        TokenModel::Group { tokens, .. } => lexed(tokens),
        _ => true,
    }
}

proof fn lemma_escaped_word(w: Seq<u8>, word: Seq<u8>)
    requires
        forall|i: int|
            0 <= i < word.len() ==> (#[trigger] word[i]) != ESCAPE && word[i] != OPEN_BRACE
                && word[i] != CLOSE_BRACE,
    ensures
        (escaped(w, 0) == word) == (w == word),
{
    lemma_escaped(w, 0);
    lemma_escaped(word, 0);
    lemma_unescaped_plain(word, 0);
    assert(w.subrange(0, w.len() as int) == w);
    assert(word.subrange(0, word.len() as int) == word);
    lemma_escaped_plain(word, 0);
}

proof fn lemma_escaped_plain(x: Seq<u8>, from: int)
    requires
        0 <= from <= x.len(),
        forall|i: int|
            0 <= i < x.len() ==> (#[trigger] x[i]) != ESCAPE && x[i] != OPEN_BRACE && x[i]
                != CLOSE_BRACE,
    ensures
        escaped(x, from) == x.subrange(from, x.len() as int),
    decreases x.len() - from,
{
    if from < x.len() {
        lemma_escaped_plain(x, from + 1);
        assert(seq![x[from]] + x.subrange(from + 1, x.len() as int) == x.subrange(
            from,
            x.len() as int,
        ));
    } else {
        assert(x.subrange(from, x.len() as int) == Seq::<u8>::empty());
    }
}

proof fn lemma_escaped_leaves_behind(t: TokenModel, first: bool)
    requires
        lexed_token(t),
    ensures
        left_by(escaped_token(t), first) == left_by(t, first),
        forall|last: Last| separator(last, escaped_token(t)) == separator(last, t),
{
    match t {
        TokenModel::Ident(w) => {
            lemma_escaped_word(w, if_word());
            lemma_escaped_word(w, for_word());
        },
        _ => {},
    }
}

/// Nothing is lost in the markup text: read back, the text that a token is
/// written to as markup is the text of the token as it is.
pub proof fn lemma_token_read_back(t: TokenModel)
    requires
        lexed_token(t),
    ensures
        whole(token_text(escaped_token(t)), 0),
        unescaped(token_text(escaped_token(t)), 0) == token_text(t),
    decreases t, 0int,
{
    match t {
        TokenModel::Ident(w) => {
            lemma_escaped(w, 0);
            assert(w.subrange(0, w.len() as int) == w);
        },
        TokenModel::Literal(l) => {
            lemma_escaped(l, 0);
            assert(l.subrange(0, l.len() as int) == l);
        },
        TokenModel::Punct { ch, .. } => {
            lemma_unescaped_plain(seq![ch], 0);
            assert(seq![ch].subrange(0, 1) == seq![ch]);
        },
        TokenModel::Group { delimiter, tokens } => {
            let inside = delimiter == Delimiter::Brace;
            let inner = tokens_text(escaped_tokens(tokens), tokens.len() as int, inside);
            let open = opening(delimiter);
            let close = closing(delimiter);
            lemma_tokens_read_back(tokens, tokens.len() as int, inside);
            lemma_unescaped_plain(open, 0);
            lemma_unescaped_plain(close, 0);
            assert(open.subrange(0, open.len() as int) == open);
            assert(close.subrange(0, close.len() as int) == close);
            lemma_unescaped_concat(open, inner, 0);
            lemma_unescaped_concat(open + inner, close, 0);
        },
    }
}

/// The same for the first `n` of a sequence of tokens.
pub proof fn lemma_tokens_read_back(tokens: Seq<TokenModel>, n: int, in_braces: bool)
    requires
        0 <= n <= tokens.len(),
        lexed(tokens),
    ensures
        whole(tokens_text(escaped_tokens(tokens), n, in_braces), 0),
        unescaped(tokens_text(escaped_tokens(tokens), n, in_braces), 0) == tokens_text(
            tokens,
            n,
            in_braces,
        ),
    decreases tokens, n,
{
    let other = escaped_tokens(tokens);
    if n > 0 {
        lemma_tokens_read_back(tokens, n - 1, in_braces);
        lemma_token_read_back(tokens[n - 1]);
        assert(other[n - 1] == escaped_token(tokens[n - 1]));
        lemma_escaped_leaves_behind(tokens[n - 1], in_braces && n == 1);
        if n > 1 {
            assert(other[n - 2] == escaped_token(tokens[n - 2]));
            lemma_escaped_leaves_behind(tokens[n - 2], in_braces && n == 2);
        }
        let before = tokens_text(other, n - 1, in_braces);
        let sep = separator(last_of(tokens, n - 1, in_braces), tokens[n - 1]);
        assert(sep == separator(last_of(other, n - 1, in_braces), other[n - 1]));
        let text = token_text(other[n - 1]);
        lemma_unescaped_plain(sep, 0);
        assert(sep.subrange(0, sep.len() as int) == sep);
        lemma_unescaped_concat(before, sep, 0);
        lemma_unescaped_concat(before + sep, text, 0);
    } else {
        lemma_unescaped_plain(Seq::empty(), 0);
    }
}

/// Writes tokens out as markup for the parser, which finds the end of an
/// expression by its braces: the braces within words and literals are
/// escaped, so braces balance in the text whatever the tokens hold.
/// `unescape` reads a piece of the text back as it was written in the
/// tokens.
pub fn markup(tokens: &Vec<Token>) -> (written: Written)
    ensures
        written.text@ == markup_text(tokens_view(tokens@)),
        offsets(written.starts@) == tokens_starts(
            escaped_tokens(tokens_view(tokens@)),
            tokens.len() as int,
            false,
            0,
        ),
        balanced(written.text@),
{
    let escaped = escape_tokens(tokens);
    proof {
        lemma_escaped_tokens_ok(tokens_view(tokens@));
        lemma_tokens_balanced(escaped_tokens(tokens_view(tokens@)), tokens.len() as int, false);
    }
    to_text(&escaped)
}

} // verus!
