//! The tokenizer of the assembly language.
//!
//! The language has these tokens, each the longest match at its position:
//! whitespace `[ \t\r\n]+` and comments `#` ... newline, both skipped;
//! numbers `[0-9]+`; strings `"([^"\\]|\\.)*"`, whose text is what stands
//! between the quotes; meta operators `@[a-zA-Z]+`; operators `[a-zA-Z]+`;
//! and `;`. Where nothing matches, an error token covers the bytes that were
//! read before the match failed, and at least the next character.
use vstd::prelude::*;
use vstd::string::StringSliceAdditionalSpecFns;
use vstd::utf8::*;

verus! {

broadcast use vstd::utf8::encode_utf8_valid_utf8, vstd::utf8::encode_utf8_decode_utf8;

/// A token of the assembly language.
#[derive(Debug, Clone, PartialEq, Eq)]
pub enum Token {
    Whitespace,
    Number(String),
    Text(String),
    Comment,
    MetaOperator(String),
    Operator(String),
    Semicolon,
}

/// The kind of a token found in the source, or an error.
#[derive(Debug, Clone, Copy, PartialEq, Eq, Structural)]
pub enum TokenKind {
    Number,
    Text,
    MetaOperator,
    Operator,
    Semicolon,
    Error,
}

/// A token with the byte range of the source it was read from. `token` is
/// `Err` where the source holds no token.
#[derive(Debug, PartialEq, Eq)]
pub struct Lexeme {
    pub token: Result<Token, ()>,
    pub start: usize,
    pub end: usize,
}

/// A token found in the source: its kind and byte range.
pub ghost struct Span {
    pub kind: TokenKind,
    pub start: int,
    pub end: int,
}

/// A class of bytes that a token is a run of.
#[derive(Debug, Clone, Copy, PartialEq, Eq, Structural)]
pub enum ByteClass {
    Space,
    Digit,
    Letter,
}

pub open spec fn in_class(c: u8, k: ByteClass) -> bool {
    match k {
        ByteClass::Space => c == 32 || c == 9 || c == 13 || c == 10,
        ByteClass::Digit => 48 <= c <= 57,
        ByteClass::Letter => (65 <= c <= 90) || (97 <= c <= 122),
    }
}

/// The end of the run of bytes of class `k` that starts at `i`.
pub open spec fn run_end(b: Seq<u8>, i: int, k: ByteClass) -> int
    decreases b.len() - i,
{
    if 0 <= i < b.len() && in_class(b[i], k) {
        run_end(b, i + 1, k)
    } else {
        i
    }
}

/// The position of the first newline at or after `i`, or the end of `b`.
pub open spec fn newline_from(b: Seq<u8>, i: int) -> int
    decreases b.len() - i,
{
    if 0 <= i < b.len() && b[i] != 10 {
        newline_from(b, i + 1)
    } else {
        i
    }
}

/// Reads the body of a string literal from `i` on: whether the closing quote
/// was found, and the position after it, or else where reading stopped.
pub open spec fn string_from(b: Seq<u8>, i: int) -> (bool, int)
    decreases b.len() - i,
{
    if i < 0 || i >= b.len() {
        (false, b.len() as int)
    } else if b[i] == 34 {
        (true, i + 1)
    } else if b[i] == 92 {
        if i + 1 >= b.len() {
            (false, b.len() as int)
        } else if b[i + 1] == 10 {
            (false, i + 1)
        } else {
            string_from(b, i + 2)
        }
    } else {
        string_from(b, i + 1)
    }
}

/// The first position at or after `i` where a character starts, or the end
/// of `b`.
pub open spec fn char_start_from(b: Seq<u8>, i: int) -> int
    decreases b.len() - i,
{
    if 0 <= i < b.len() && is_continuation_byte(b[i]) {
        char_start_from(b, i + 1)
    } else {
        i
    }
}

/// What the tokenizer does at position `i`: the token it reads there
/// (`None` for skipped whitespace and comments) and where that ends.
pub open spec fn lex_one(b: Seq<u8>, i: int) -> (Option<TokenKind>, int) {
    let c = b[i];
    if in_class(c, ByteClass::Space) {
        (None, run_end(b, i, ByteClass::Space))
    } else if in_class(c, ByteClass::Digit) {
        (Some(TokenKind::Number), run_end(b, i, ByteClass::Digit))
    } else if in_class(c, ByteClass::Letter) {
        (Some(TokenKind::Operator), run_end(b, i, ByteClass::Letter))
    } else if c == 64 {
        if i + 1 < b.len() && in_class(b[i + 1], ByteClass::Letter) {
            (Some(TokenKind::MetaOperator), run_end(b, i + 1, ByteClass::Letter))
        } else {
            (Some(TokenKind::Error), i + 1)
        }
    } else if c == 59 {
        (Some(TokenKind::Semicolon), i + 1)
    } else if c == 35 {
        let e = newline_from(b, i + 1);
        if e < b.len() {
            (None, e + 1)
        } else {
            (Some(TokenKind::Error), b.len() as int)
        }
    } else if c == 34 {
        let (closed, e) = string_from(b, i + 1);
        if closed {
            (Some(TokenKind::Text), e)
        } else {
            (Some(TokenKind::Error), e)
        }
    } else {
        (Some(TokenKind::Error), char_start_from(b, i + 1))
    }
}

proof fn lemma_run_end(b: Seq<u8>, i: int, k: ByteClass)
    requires
        0 <= i <= b.len(),
    ensures
        i <= run_end(b, i, k) <= b.len(),
        forall|j: int| i <= j < run_end(b, i, k) ==> in_class(#[trigger] b[j], k),
        run_end(b, i, k) < b.len() ==> !in_class(b[run_end(b, i, k)], k),
    decreases b.len() - i,
{
    if i < b.len() && in_class(b[i], k) {
        lemma_run_end(b, i + 1, k);
    }
}

proof fn lemma_newline_from(b: Seq<u8>, i: int)
    requires
        0 <= i <= b.len(),
    ensures
        i <= newline_from(b, i) <= b.len(),
        newline_from(b, i) < b.len() ==> b[newline_from(b, i)] == 10,
        forall|j: int| i <= j < newline_from(b, i) ==> #[trigger] b[j] != 10,
    decreases b.len() - i,
{
    if i < b.len() && b[i] != 10 {
        lemma_newline_from(b, i + 1);
    }
}

proof fn lemma_string_from(b: Seq<u8>, i: int)
    requires
        0 <= i <= b.len(),
    ensures
        i <= string_from(b, i).1 <= b.len(),
        string_from(b, i).0 ==> string_from(b, i).1 >= i + 1 && b[string_from(b, i).1 - 1] == 34,
        !string_from(b, i).0 ==> string_from(b, i).1 == b.len() || b[string_from(b, i).1] == 10,
    decreases b.len() - i,
{
    if i < b.len() && b[i] != 34 {
        if b[i] == 92 {
            if i + 1 < b.len() && b[i + 1] != 10 {
                lemma_string_from(b, i + 2);
            }
        } else {
            lemma_string_from(b, i + 1);
        }
    }
}

proof fn lemma_char_start_from(b: Seq<u8>, i: int)
    requires
        0 <= i <= b.len(),
    ensures
        i <= char_start_from(b, i) <= b.len(),
        char_start_from(b, i) < b.len() ==> !is_continuation_byte(b[char_start_from(b, i)]),
    decreases b.len() - i,
{
    if i < b.len() && is_continuation_byte(b[i]) {
        lemma_char_start_from(b, i + 1);
    }
}

/// Each step of the tokenizer reads at least one byte and stays in bounds.
pub proof fn lemma_lex_one_advances(b: Seq<u8>, i: int)
    requires
        0 <= i < b.len(),
    ensures
        i < lex_one(b, i).1 <= b.len(),
{
    lemma_run_end(b, i, ByteClass::Space);
    lemma_run_end(b, i, ByteClass::Digit);
    lemma_run_end(b, i, ByteClass::Letter);
    lemma_run_end(b, i + 1, ByteClass::Letter);
    lemma_newline_from(b, i + 1);
    lemma_string_from(b, i + 1);
    lemma_char_start_from(b, i + 1);
}

/// The tokens of `b` from position `i` on.
pub open spec fn lex_from(b: Seq<u8>, i: int) -> Seq<Span>
    decreases b.len() - i,
{
    if i < 0 || i >= b.len() {
        Seq::empty()
    } else {
        let (kind, e) = lex_one(b, i);
        proof {
            lemma_lex_one_advances(b, i);
        }
        match kind {
            None => lex_from(b, e),
            Some(k) => seq![Span { kind: k, start: i, end: e }] + lex_from(b, e),
        }
    }
}

/// The tokens of a source text, in order.
pub open spec fn lex(b: Seq<u8>) -> Seq<Span> {
    lex_from(b, 0)
}

/// The byte range of a token's text: a string's text lies between its quotes.
pub open spec fn text_range(sp: Span) -> (int, int) {
    if sp.kind == TokenKind::Text {
        (sp.start + 1, sp.end - 1)
    } else {
        (sp.start, sp.end)
    }
}

/// The text of a token read from `b`.
pub open spec fn span_text(b: Seq<u8>, sp: Span) -> Seq<char> {
    decode_utf8(b.subrange(text_range(sp).0, text_range(sp).1))
}

/// A lexeme is the token that `sp` describes in source `b`.
pub open spec fn lexeme_is(l: Lexeme, sp: Span, b: Seq<u8>) -> bool {
    &&& l.start == sp.start
    &&& l.end == sp.end
    &&& match sp.kind {
        TokenKind::Number => l.token matches Ok(Token::Number(s)) && s@ == span_text(b, sp),
        TokenKind::Text => l.token matches Ok(Token::Text(s)) && s@ == span_text(b, sp),
        TokenKind::MetaOperator => l.token matches Ok(Token::MetaOperator(s)) && s@ == span_text(
            b,
            sp,
        ),
        TokenKind::Operator => l.token matches Ok(Token::Operator(s)) && s@ == span_text(b, sp),
        TokenKind::Semicolon => l.token == Ok::<Token, ()>(Token::Semicolon),
        TokenKind::Error => l.token is Err,
    }
}

/// A position where a character starts, or the end.
pub open spec fn at_char_start(b: Seq<u8>, j: int) -> bool {
    j == b.len() || (0 <= j < b.len() && !is_continuation_byte(b[j]))
}

/// In valid UTF-8, the byte after an ASCII byte starts a character.
proof fn lemma_after_ascii(b: Seq<u8>, j: int)
    requires
        valid_utf8(b),
        0 < j <= b.len(),
        b[j - 1] < 0x80,
    ensures
        at_char_start(b, j),
{
    if j < b.len() {
        is_char_boundary_iff_not_is_continuation_byte(b, j - 1);
        valid_utf8_split(b, j - 1);
        let x = b.subrange(j - 1, b.len() as int);
        let y = b.subrange(j, b.len() as int);
        assert(pop_first_scalar(x) =~= y);
        assert(valid_utf8(y));
        assert(y[0] == b[j]);
    }
}

/// Every lexeme of a source starts and ends where characters start.
proof fn lemma_lex_one_boundaries(b: Seq<u8>, i: int)
    requires
        valid_utf8(b),
        0 <= i < b.len(),
        at_char_start(b, i),
    ensures
        at_char_start(b, lex_one(b, i).1),
        lex_one(b, i).0 == Some(TokenKind::Text) ==> i + 2 <= lex_one(b, i).1 && at_char_start(
            b,
            i + 1,
        ) && at_char_start(b, lex_one(b, i).1 - 1),
{
    let e = lex_one(b, i).1;
    lemma_lex_one_advances(b, i);
    lemma_run_end(b, i, ByteClass::Space);
    lemma_run_end(b, i, ByteClass::Digit);
    lemma_run_end(b, i, ByteClass::Letter);
    lemma_run_end(b, i + 1, ByteClass::Letter);
    lemma_newline_from(b, i + 1);
    lemma_string_from(b, i + 1);
    lemma_char_start_from(b, i + 1);
    if e < b.len() {
        if b[e - 1] < 0x80 {
            lemma_after_ascii(b, e);
        }
    }
    if lex_one(b, i).0 == Some(TokenKind::Text) {
        lemma_after_ascii(b, i + 1);
    }
}

/// What every token of `lex_from(b, i)` satisfies.
pub open spec fn span_well_placed(b: Seq<u8>, sp: Span) -> bool {
    &&& 0 <= sp.start < sp.end <= b.len()
    &&& at_char_start(b, sp.start)
    &&& at_char_start(b, sp.end)
    &&& sp.kind == TokenKind::Text ==> sp.start + 2 <= sp.end && at_char_start(b, sp.start + 1)
        && at_char_start(b, sp.end - 1)
    &&& sp.kind == TokenKind::Number ==> forall|j: int|
        sp.start <= j < sp.end ==> 48 <= #[trigger] b[j] <= 57
}

/// The tokens from position `i` on lie inside the source, in order, without
/// overlap, and begin and end where characters start.
pub proof fn lemma_lex_from_placed(b: Seq<u8>, i: int)
    requires
        valid_utf8(b),
        0 <= i <= b.len(),
        at_char_start(b, i),
    ensures
        forall|k: int|
            0 <= k < lex_from(b, i).len() ==> span_well_placed(b, #[trigger] lex_from(b, i)[k])
                && i <= lex_from(b, i)[k].start,
        forall|k: int|
            0 <= k < lex_from(b, i).len() - 1 ==> #[trigger] lex_from(b, i)[k].end <= lex_from(
                b,
                i,
            )[k + 1].start,
    decreases b.len() - i,
{
    if i < b.len() {
        let (kind, e) = lex_one(b, i);
        lemma_lex_one_advances(b, i);
        lemma_lex_one_boundaries(b, i);
        lemma_lex_from_placed(b, e);
        lemma_run_end(b, i, ByteClass::Digit);
        let rest = lex_from(b, e);
        match kind {
            None => {},
            Some(k) => {
                let sp = Span { kind: k, start: i, end: e };
                let all = lex_from(b, i);
                assert(all == seq![sp] + rest);
                assert forall|j: int| 0 <= j < all.len() implies span_well_placed(b, #[trigger] all[j])
                    && i <= all[j].start by {
                    if j > 0 {
                        assert(all[j] == rest[j - 1]);
                    }
                }
                assert forall|j: int| 0 <= j < all.len() - 1 implies #[trigger] all[j].end <= all[j
                    + 1].start by {
                    if j > 0 {
                        assert(all[j] == rest[j - 1]);
                    }
                    assert(all[j + 1] == rest[j]);
                }
            },
        }
    }
}

/// Byte `x` lies in a comment: after a `#` with no newline in between.
pub open spec fn in_comment(b: Seq<u8>, x: int) -> bool {
    exists|c: int|
        0 <= c <= x && #[trigger] b[c] == 35 && forall|y: int| c < y < x ==> #[trigger] b[y] != 10
}

/// Byte `x` lies inside one of the tokens `spans`.
pub open spec fn in_some_token(spans: Seq<Span>, x: int) -> bool {
    exists|k: int| 0 <= k < spans.len() && #[trigger] spans[k].start <= x < spans[k].end
}

/// The tokenizer leaves out nothing but whitespace and comments: every byte
/// from position `i` on lies inside a token, is whitespace, or lies in a
/// comment.
pub proof fn lemma_lex_from_covers(b: Seq<u8>, i: int)
    requires
        0 <= i <= b.len(),
    ensures
        forall|x: int|
            i <= x < b.len() ==> in_some_token(lex_from(b, i), x) || in_class(
                #[trigger] b[x],
                ByteClass::Space,
            ) || in_comment(b, x),
    decreases b.len() - i,
{
    if i < b.len() {
        let (kind, e) = lex_one(b, i);
        lemma_lex_one_advances(b, i);
        lemma_lex_from_covers(b, e);
        lemma_run_end(b, i, ByteClass::Space);
        lemma_newline_from(b, i + 1);
        let all = lex_from(b, i);
        let rest = lex_from(b, e);
        assert forall|x: int|
            i <= x < b.len() implies in_some_token(all, x) || in_class(
                #[trigger] b[x],
                ByteClass::Space,
            ) || in_comment(b, x) by {
            match kind {
                None => {
                    assert(all == rest);
                    if x < e {
                        if !in_class(b[i], ByteClass::Space) {
                            assert(b[i] == 35);
                            if x == e - 1 {
                                assert(b[x] == 10);
                            } else {
                                assert(forall|y: int| i < y < x ==> #[trigger] b[y] != 10);
                                assert(in_comment(b, x));
                            }
                        }
                    }
                },
                Some(k) => {
                    let sp = Span { kind: k, start: i, end: e };
                    assert(all == seq![sp] + rest);
                    if x < e {
                        assert(all[0] == sp);
                        assert(all[0].start <= x < all[0].end);
                    } else if in_some_token(rest, x) {
                        let kk = choose|kk: int| 0 <= kk < rest.len() && #[trigger] rest[kk].start <= x
                            < rest[kk].end;
                        assert(all[kk + 1] == rest[kk]);
                        assert(in_some_token(all, x));
                    }
                },
            }
        }
    }
}

/// Every byte of a source lies inside a token, is whitespace, or lies in a
/// comment.
pub proof fn lemma_lex_covers(b: Seq<u8>)
    ensures
        forall|x: int|
            0 <= x < b.len() ==> in_some_token(lex(b), x) || in_class(
                #[trigger] b[x],
                ByteClass::Space,
            ) || in_comment(b, x),
{
    lemma_lex_from_covers(b, 0);
}

/// A letter (`A`-`Z`, `a`-`z`) where a token starts begins an operator
/// made of the whole run of letters from there.
pub proof fn lemma_letters_form_operator(b: Seq<u8>, i: int)
    requires
        0 <= i < b.len(),
        (65 <= b[i] <= 90 || 97 <= b[i] <= 122),
    ensures
        lex_from(b, i).len() > 0,
        lex_from(b, i)[0].kind == TokenKind::Operator,
        lex_from(b, i)[0].start == i,
        forall|j: int| i <= j < lex_from(b, i)[0].end ==> (65 <= #[trigger] b[j] <= 90 || 97 <= b[j] <= 122),
        lex_from(b, i)[0].end == b.len() || !(65 <= b[lex_from(b, i)[0].end] <= 90 || 97 <= b[lex_from(b, i)[0].end] <= 122),
{
    lemma_run_end(b, i, ByteClass::Letter);
    lemma_lex_one_advances(b, i);
}

/// `@` followed by a letter where a token starts begins a meta operator made
/// of the `@` and the whole run of letters after it.
pub proof fn lemma_at_letters_form_meta_operator(b: Seq<u8>, i: int)
    requires
        0 <= i,
        i + 1 < b.len(),
        b[i] == 64,
        (65 <= b[i + 1] <= 90 || 97 <= b[i + 1] <= 122),
    ensures
        lex_from(b, i).len() > 0,
        lex_from(b, i)[0].kind == TokenKind::MetaOperator,
        lex_from(b, i)[0].start == i,
        forall|j: int| i < j < lex_from(b, i)[0].end ==> (65 <= #[trigger] b[j] <= 90 || 97 <= b[j] <= 122),
        lex_from(b, i)[0].end == b.len() || !(65 <= b[lex_from(b, i)[0].end] <= 90 || 97 <= b[lex_from(b, i)[0].end] <= 122),
{
    lemma_run_end(b, i + 1, ByteClass::Letter);
    lemma_lex_one_advances(b, i);
}

/// A digit (`0`-`9`) where a token starts begins a number made of the whole
/// run of digits from there.
pub proof fn lemma_digits_form_number(b: Seq<u8>, i: int)
    requires
        0 <= i < b.len(),
        48 <= b[i] <= 57,
    ensures
        lex_from(b, i).len() > 0,
        lex_from(b, i)[0].kind == TokenKind::Number,
        lex_from(b, i)[0].start == i,
        forall|j: int| i <= j < lex_from(b, i)[0].end ==> 48 <= #[trigger] b[j] <= 57,
        lex_from(b, i)[0].end == b.len() || !(48 <= b[lex_from(b, i)[0].end] <= 57),
{
    lemma_run_end(b, i, ByteClass::Digit);
    lemma_lex_one_advances(b, i);
}

/// `;` is a token of its own.
pub proof fn lemma_semicolon(b: Seq<u8>, i: int)
    requires
        0 <= i < b.len(),
        b[i] == 59,
    ensures
        lex_from(b, i) == seq![Span { kind: TokenKind::Semicolon, start: i, end: i + 1 }]
            + lex_from(b, i + 1),
{
}

/// A space, tab, carriage return or newline where a token would start is
/// passed over.
pub proof fn lemma_whitespace_skipped(b: Seq<u8>, i: int)
    requires
        0 <= i < b.len(),
        b[i] == 32 || b[i] == 9 || b[i] == 13 || b[i] == 10,
    ensures
        lex_from(b, i) == lex_from(b, i + 1),
{
    lemma_run_end(b, i + 1, ByteClass::Space);
    if i + 1 < b.len() && in_class(b[i + 1], ByteClass::Space) {
        lemma_lex_one_advances(b, i + 1);
    }
}

/// A comment, from `#` up to and with the next newline, is passed over.
pub proof fn lemma_comment_skipped(b: Seq<u8>, i: int, e: int)
    requires
        0 <= i < e < b.len(),
        b[i] == 35,
        b[e] == 10,
        forall|j: int| i < j < e ==> #[trigger] b[j] != 10,
    ensures
        lex_from(b, i) == lex_from(b, e + 1),
{
    lemma_newline_until(b, i + 1, e);
}

proof fn lemma_newline_until(b: Seq<u8>, k: int, e: int)
    requires
        0 <= k <= e < b.len(),
        b[e] == 10,
        forall|j: int| k <= j < e ==> #[trigger] b[j] != 10,
    ensures
        newline_from(b, k) == e,
    decreases e - k,
{
    if k < e {
        lemma_newline_until(b, k + 1, e);
    }
}

proof fn lemma_string_until(b: Seq<u8>, k: int, e: int)
    requires
        0 <= k <= e < b.len(),
        b[e] == 34,
        forall|j: int| k <= j < e ==> #[trigger] b[j] != 34 && b[j] != 92,
    ensures
        string_from(b, k) == (true, e + 1),
    decreases e - k,
{
    if k < e {
        lemma_string_until(b, k + 1, e);
    }
}

/// A quote, text without quotes or backslashes, and a closing quote form one
/// string token, whose text is what stands between the quotes.
pub proof fn lemma_plain_string(b: Seq<u8>, i: int, e: int)
    requires
        0 <= i < e < b.len(),
        b[i] == 34,
        b[e] == 34,
        forall|j: int| i < j < e ==> #[trigger] b[j] != 34 && b[j] != 92,
    ensures
        lex_from(b, i) == seq![Span { kind: TokenKind::Text, start: i, end: e + 1 }]
            + lex_from(b, e + 1),
        text_range(lex_from(b, i)[0]) == (i + 1, e),
{
    lemma_string_until(b, i + 1, e);
}

/// An ASCII character that starts no token (not whitespace, a digit, a
/// letter, `@`, `;`, `#` or `"`) is an error token of its own, and so is an
/// `@` that no letter follows.
pub proof fn lemma_stray_character(b: Seq<u8>, i: int)
    requires
        valid_utf8(b),
        0 <= i < b.len(),
        b[i] < 0x80,
        !(b[i] == 32 || b[i] == 9 || b[i] == 13 || b[i] == 10),
        !(48 <= b[i] <= 57),
        !(65 <= b[i] <= 90 || 97 <= b[i] <= 122),
        b[i] != 59 && b[i] != 35 && b[i] != 34,
        b[i] == 64 ==> i + 1 == b.len() || !(65 <= b[i + 1] <= 90 || 97 <= b[i + 1] <= 122),
    ensures
        lex_from(b, i) == seq![Span { kind: TokenKind::Error, start: i, end: i + 1 }]
            + lex_from(b, i + 1),
{
    lemma_after_ascii(b, i + 1);
    lemma_char_start_from(b, i + 1);
    if i + 1 < b.len() {
        assert(!is_continuation_byte(b[i + 1]));
    }
}

/// The text of the source between two character starts, as a string.
pub(crate) fn substring(s: &str, start: usize, end: usize) -> (r: String)
    requires
        start <= end <= s.spec_bytes().len(),
        at_char_start(s.spec_bytes(), start as int),
        at_char_start(s.spec_bytes(), end as int),
    ensures
        r@ == decode_utf8(s.spec_bytes().subrange(start as int, end as int)),
{
    let ghost b = s.spec_bytes();
    proof {
        is_char_boundary_start_end_of_seq(b);
        if start < b.len() {
            is_char_boundary_iff_not_is_continuation_byte(b, start as int);
        }
    }
    let (_, rest) = s.split_at(start);
    let ghost rb = rest.spec_bytes();
    proof {
        is_char_boundary_start_end_of_seq(rb);
        if end < b.len() {
            assert(rb[end - start] == b[end as int]);
            is_char_boundary_iff_not_is_continuation_byte(rb, end - start);
        }
    }
    let (mid, _) = rest.split_at(end - start);
    proof {
        assert(mid.spec_bytes() =~= b.subrange(start as int, end as int));
    }
    mid.to_owned()
}


fn in_class_exec(c: u8, k: ByteClass) -> (r: bool)
    ensures
        r == in_class(c, k),
{
    match k {
        ByteClass::Space => c == 32 || c == 9 || c == 13 || c == 10,
        ByteClass::Digit => 48 <= c && c <= 57,
        ByteClass::Letter => (65 <= c && c <= 90) || (97 <= c && c <= 122),
    }
}

fn scan_run(b: &[u8], i: usize, k: ByteClass) -> (r: usize)
    requires
        i <= b@.len(),
    ensures
        r == run_end(b@, i as int, k),
{
    let mut j: usize = i;
    while j < b.len() && in_class_exec(b[j], k)
        invariant
            i <= j <= b@.len(),
            run_end(b@, i as int, k) == run_end(b@, j as int, k),
        decreases b@.len() - j,
    {
        j = j + 1;
    }
    j
}

fn scan_newline(b: &[u8], i: usize) -> (r: usize)
    requires
        i <= b@.len(),
    ensures
        r == newline_from(b@, i as int),
{
    let mut j: usize = i;
    while j < b.len() && b[j] != 10
        invariant
            i <= j <= b@.len(),
            newline_from(b@, i as int) == newline_from(b@, j as int),
        decreases b@.len() - j,
    {
        j = j + 1;
    }
    j
}

fn scan_string(b: &[u8], i: usize) -> (r: (bool, usize))
    requires
        i <= b@.len(),
    ensures
        r.0 == string_from(b@, i as int).0,
        r.1 == string_from(b@, i as int).1,
{
    let mut j: usize = i;
    while j < b.len()
        invariant
            i <= j <= b@.len() + 1,
            string_from(b@, i as int) == string_from(b@, j as int),
        decreases b@.len() + 1 - j,
    {
        if b[j] == 34 {
            return (true, j + 1);
        } else if b[j] == 92 {
            if j + 1 >= b.len() {
                return (false, b.len());
            } else if b[j + 1] == 10 {
                return (false, j + 1);
            }
            j = j + 2;
        } else {
            j = j + 1;
        }
    }
    (false, b.len())
}

fn scan_char_start(b: &[u8], i: usize) -> (r: usize)
    requires
        i <= b@.len(),
    ensures
        r == char_start_from(b@, i as int),
{
    let mut j: usize = i;
    while j < b.len() && 0x80 <= b[j] && b[j] <= 0xbf
        invariant
            i <= j <= b@.len(),
            char_start_from(b@, i as int) == char_start_from(b@, j as int),
        decreases b@.len() - j,
    {
        j = j + 1;
    }
    j
}

/// The token read at position `i` of `b` (`None` when it is skipped) and
/// where it ends.
fn next_token(b: &[u8], i: usize) -> (r: (Option<TokenKind>, usize))
    requires
        i < b@.len(),
    ensures
        r.0 == lex_one(b@, i as int).0,
        r.1 == lex_one(b@, i as int).1,
{
    let c = b[i];
    if in_class_exec(c, ByteClass::Space) {
        (None, scan_run(b, i, ByteClass::Space))
    } else if in_class_exec(c, ByteClass::Digit) {
        (Some(TokenKind::Number), scan_run(b, i, ByteClass::Digit))
    } else if in_class_exec(c, ByteClass::Letter) {
        (Some(TokenKind::Operator), scan_run(b, i, ByteClass::Letter))
    } else if c == 64 {
        if i + 1 < b.len() && in_class_exec(b[i + 1], ByteClass::Letter) {
            (Some(TokenKind::MetaOperator), scan_run(b, i + 1, ByteClass::Letter))
        } else {
            (Some(TokenKind::Error), i + 1)
        }
    } else if c == 59 {
        (Some(TokenKind::Semicolon), i + 1)
    } else if c == 35 {
        let e = scan_newline(b, i + 1);
        if e < b.len() {
            (None, e + 1)
        } else {
            (Some(TokenKind::Error), b.len())
        }
    } else if c == 34 {
        let (closed, e) = scan_string(b, i + 1);
        if closed {
            (Some(TokenKind::Text), e)
        } else {
            (Some(TokenKind::Error), e)
        }
    } else {
        (Some(TokenKind::Error), scan_char_start(b, i + 1))
    }
}

/// Splits a source text into its tokens, in order, each with its byte range.
/// Whitespace and comments are left out; where the text holds no token, a
/// lexeme with an error stands for the bytes that could not be read.
pub fn tokenize(source: &str) -> (r: Vec<Lexeme>)
    ensures
        r@.len() == lex(source.spec_bytes()).len(),
        forall|k: int|
            0 <= k < r@.len() ==> lexeme_is(#[trigger] r@[k], lex(source.spec_bytes())[k], source.spec_bytes()),
{
    let b = source.as_bytes();
    let ghost bs = source.spec_bytes();
    let mut out: Vec<Lexeme> = Vec::new();
    let mut pos: usize = 0;
    let ghost mut done: Seq<Span> = Seq::empty();
    while pos < b.len()
        invariant
            b@ == bs,
            bs == source.spec_bytes(),
            valid_utf8(bs),
            pos <= bs.len(),
            at_char_start(bs, pos as int),
            lex(bs) == done + lex_from(bs, pos as int),
            out@.len() == done.len(),
            forall|k: int| 0 <= k < out@.len() ==> lexeme_is(#[trigger] out@[k], done[k], bs),
        decreases bs.len() - pos,
    {
        proof {
            lemma_lex_one_advances(bs, pos as int);
            lemma_lex_one_boundaries(bs, pos as int);
        }
        let (kind, end) = next_token(b, pos);
        match kind {
            None => {
                proof {
                    assert(lex_from(bs, pos as int) == lex_from(bs, end as int));
                }
            },
            Some(k) => {
                let token: Result<Token, ()> = match k {
                    TokenKind::Number => Ok(Token::Number(substring(source, pos, end))),
                    TokenKind::Text => Ok(Token::Text(substring(source, pos + 1, end - 1))),
                    TokenKind::MetaOperator => Ok(Token::MetaOperator(substring(source, pos, end))),
                    TokenKind::Operator => Ok(Token::Operator(substring(source, pos, end))),
                    TokenKind::Semicolon => Ok(Token::Semicolon),
                    TokenKind::Error => Err(()),
                };
                let ghost sp = Span { kind: k, start: pos as int, end: end as int };
                let lexeme = Lexeme { token, start: pos, end };
                assert(lexeme_is(lexeme, sp, bs));
                out.push(lexeme);
                proof {
                    assert(lex_from(bs, pos as int) == seq![sp] + lex_from(bs, end as int));
                    done = done.push(sp);
                    assert(lex(bs) =~= done + lex_from(bs, end as int));
                }
            },
        }
        pos = end;
    }
    proof {
        assert(lex_from(bs, pos as int) =~= Seq::<Span>::empty());
        assert(done =~= lex(bs));
    }
    out
}
} // verus!
