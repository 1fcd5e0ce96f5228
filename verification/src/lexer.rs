//! The lexer: from the bytes of a source text to its tokens.
//!
//! What the tokens of a text are is defined by [`lex_from`], a function
//! of the bytes alone; [`lex`] is proved to compute it.

use vstd::prelude::*;
use vstd::slice::slice_subrange;
use vstd::utf8::{decode_utf8, valid_utf8};

verus! {

/// A lexical unit.
#[derive(Debug, PartialEq)]
pub enum Token {
    /// The marker `/dts-v` that opens the version record.
    HeaderMark,
    /// A name.
    Ident(String),
    /// A text literal, without its quotes and with its escapes as written.
    Text(String),
    /// A number, in decimal or after `0x` in hexadecimal.
    Integer(i64),
    /// Two hexadecimal digits inside `[ ]`.
    Byte(u8),
    OpenBrace,
    CloseBrace,
    OpenAngle,
    CloseAngle,
    OpenBracket,
    CloseBracket,
    Semicolon,
    Comma,
    Equals,
}

/// A token with the bytes it spans: from `start` up to, not including, `end`.
#[derive(Debug, PartialEq)]
pub struct Spanned {
    pub token: Token,
    pub start: usize,
    pub end: usize,
}

/// The byte offset at which no token could be read.
#[derive(Debug, Clone, Copy, PartialEq, Eq, Structural)]
pub struct LexicalError {
    pub at: usize,
}

/// Mathematical value of a [`Token`].
pub enum TokenView {
    HeaderMark,
    Ident(Seq<char>),
    Text(Seq<char>),
    Integer(i64),
    Byte(u8),
    OpenBrace,
    CloseBrace,
    OpenAngle,
    CloseAngle,
    OpenBracket,
    CloseBracket,
    Semicolon,
    Comma,
    Equals,
}

/// Mathematical value of a [`Spanned`].
pub struct SpannedView {
    pub token: TokenView,
    pub start: int,
    pub end: int,
}

impl View for Token {
    type V = TokenView;

    open spec fn view(&self) -> TokenView {
        match self {
            Token::HeaderMark => TokenView::HeaderMark,
            Token::Ident(name) => TokenView::Ident(name@),
            Token::Text(text) => TokenView::Text(text@),
            Token::Integer(v) => TokenView::Integer(*v),
            Token::Byte(b) => TokenView::Byte(*b),
            Token::OpenBrace => TokenView::OpenBrace,
            Token::CloseBrace => TokenView::CloseBrace,
            Token::OpenAngle => TokenView::OpenAngle,
            Token::CloseAngle => TokenView::CloseAngle,
            Token::OpenBracket => TokenView::OpenBracket,
            Token::CloseBracket => TokenView::CloseBracket,
            Token::Semicolon => TokenView::Semicolon,
            Token::Comma => TokenView::Comma,
            Token::Equals => TokenView::Equals,
        }
    }
}

impl View for Spanned {
    type V = SpannedView;

    open spec fn view(&self) -> SpannedView {
        SpannedView { token: self.token@, start: self.start as int, end: self.end as int }
    }
}

impl Clone for Token {
    fn clone(&self) -> (res: Self)
        ensures
            res@ == self@,
    {
        match self {
            Token::HeaderMark => Token::HeaderMark,
            Token::Ident(name) => Token::Ident(name.clone()),
            Token::Text(text) => Token::Text(text.clone()),
            Token::Integer(v) => Token::Integer(*v),
            Token::Byte(b) => Token::Byte(*b),
            Token::OpenBrace => Token::OpenBrace,
            Token::CloseBrace => Token::CloseBrace,
            Token::OpenAngle => Token::OpenAngle,
            Token::CloseAngle => Token::CloseAngle,
            Token::OpenBracket => Token::OpenBracket,
            Token::CloseBracket => Token::CloseBracket,
            Token::Semicolon => Token::Semicolon,
            Token::Comma => Token::Comma,
            Token::Equals => Token::Equals,
        }
    }
}

/// The views of a sequence of tokens, element by element.
pub open spec fn spanned_views(tokens: Seq<Spanned>) -> Seq<SpannedView> {
    Seq::new(tokens.len(), |i: int| tokens[i]@)
}

/// The kinds of bytes that make up runs.
#[derive(Debug, Clone, Copy, PartialEq, Eq, Structural)]
pub enum ByteClass {
    /// A byte that may continue a name.
    Name,
    /// A decimal digit.
    Digit,
    /// A hexadecimal digit.
    Hex,
}

/// Blank, tab, line feed or carriage return.
pub open spec fn is_space(b: u8) -> bool {
    b == 32 || b == 9 || b == 10 || b == 13
}

/// A decimal digit.
pub open spec fn is_digit(b: u8) -> bool {
    48 <= b <= 57
}

/// A hexadecimal digit, in either case.
pub open spec fn is_hex_digit(b: u8) -> bool {
    is_digit(b) || 97 <= b <= 102 || 65 <= b <= 70
}

/// A byte that may open a name: a letter, or one of `_ / # ?`.
pub open spec fn is_name_start(b: u8) -> bool {
    97 <= b <= 122 || 65 <= b <= 90 || b == 95 || b == 47 || b == 35 || b == 63
}

/// A byte that may continue a name: one that may open it, a digit, or
/// one of `, . + - @`.
pub open spec fn is_name_byte(b: u8) -> bool {
    is_name_start(b) || is_digit(b) || b == 44 || b == 46 || b == 43 || b == 45 || b == 64
}

/// Whether a byte belongs to a class.
pub open spec fn in_class(class: ByteClass, b: u8) -> bool {
    match class {
        ByteClass::Name => is_name_byte(b),
        ByteClass::Digit => is_digit(b),
        ByteClass::Hex => is_hex_digit(b),
    }
}

/// The number that a hexadecimal digit stands for.
pub open spec fn digit_value(b: u8) -> nat {
    if is_digit(b) {
        (b - 48) as nat
    } else if 97 <= b <= 102 {
        (b - 87) as nat
    } else {
        (b - 55) as nat
    }
}

/// The number that a run of digits stands for in a base.
pub open spec fn digits_value(digits: Seq<u8>, base: nat) -> nat
    decreases digits.len(),
{
    if digits.len() == 0 {
        0
    } else {
        digits_value(digits.drop_last(), base) * base + digit_value(digits.last())
    }
}

/// The cell that holds the sixty-four bits of `v`, read in two's complement.
pub open spec fn signed_cell(v: nat) -> i64 {
    if v < 0x8000_0000_0000_0000 {
        v as i64
    } else {
        (v - 0x1_0000_0000_0000_0000) as i64
    }
}

/// Whether `pattern` stands in `s` at `pos`.
pub open spec fn starts_with(s: Seq<u8>, pos: int, pattern: Seq<u8>) -> bool {
    0 <= pos && pos + pattern.len() <= s.len() && s.subrange(pos, pos + pattern.len()) == pattern
}

/// The bytes of `/dts-v`.
pub open spec fn header_mark() -> Seq<u8> {
    seq![47u8, 100u8, 116u8, 115u8, 45u8, 118u8]
}

/// The end of the run of bytes of a class that starts at `pos`.
pub open spec fn run_end(s: Seq<u8>, pos: int, class: ByteClass) -> int
    decreases s.len() - pos,
{
    if 0 <= pos < s.len() && in_class(class, s[pos]) {
        run_end(s, pos + 1, class)
    } else {
        pos
    }
}

/// The first line feed at or after `pos`, or the end of the text.
pub open spec fn line_end(s: Seq<u8>, pos: int) -> int
    decreases s.len() - pos,
{
    if 0 <= pos < s.len() && s[pos] != 10 {
        line_end(s, pos + 1)
    } else {
        pos
    }
}

/// Where the first `*/` at or after `pos` starts, or `-1` without one.
pub open spec fn comment_close(s: Seq<u8>, pos: int) -> int
    decreases s.len() - pos,
{
    if pos < 0 || pos + 1 >= s.len() {
        -1
    } else if s[pos] == 42 && s[pos + 1] == 47 {
        pos
    } else {
        comment_close(s, pos + 1)
    }
}

/// Where the quote that closes a text literal stands, given that the
/// literal's content starts at `pos`; `-1` where the text ends first.
/// A backslash takes the byte after it along.
pub open spec fn string_close(s: Seq<u8>, pos: int) -> int
    decreases s.len() - pos,
{
    if pos < 0 || pos >= s.len() {
        -1
    } else if s[pos] == 34 {
        pos
    } else if s[pos] == 92 {
        if pos + 1 < s.len() {
            string_close(s, pos + 2)
        } else {
            -1
        }
    } else {
        string_close(s, pos + 1)
    }
}

/// The first position at or after `pos` that is neither white space nor
/// inside a comment. A `/*` that is never closed is not skipped.
pub open spec fn skip_blank(s: Seq<u8>, pos: int) -> int
    decreases s.len() - pos,
{
    if pos < 0 || pos >= s.len() {
        pos
    } else if is_space(s[pos]) {
        skip_blank(s, pos + 1)
    } else if starts_with(s, pos, seq![47u8, 47u8]) {
        let end = line_end(s, pos + 2);
        if pos < end <= s.len() {
            skip_blank(s, end)
        } else {
            pos
        }
    } else if starts_with(s, pos, seq![47u8, 42u8]) {
        let close = comment_close(s, pos + 2);
        if pos < close && close + 2 <= s.len() {
            skip_blank(s, close + 2)
        } else {
            pos
        }
    } else {
        pos
    }
}

/// What stands at a position of the text.
pub enum Scan {
    /// Nothing but white space and comments up to the end.
    End,
    /// A token.
    Found(SpannedView),
    /// No token can be read at this offset.
    Stuck(int),
}

/// A token whose text is the decoding of the bytes from `from` to `to`,
/// spanning `start` to `end`; no token where those bytes are not UTF-8.
pub open spec fn text_token(
    s: Seq<u8>,
    from: int,
    to: int,
    name: bool,
    start: int,
    end: int,
) -> Scan {
    let bytes = s.subrange(from, to);
    if valid_utf8(bytes) {
        Scan::Found(
            SpannedView {
                token: if name {
                    TokenView::Ident(decode_utf8(bytes))
                } else {
                    TokenView::Text(decode_utf8(bytes))
                },
                start,
                end,
            },
        )
    } else {
        Scan::Stuck(start)
    }
}

/// The number that starts at `pos`: hexadecimal after `0x` or `0X`,
/// decimal otherwise. A number above sixty-four bits is no token.
pub open spec fn scan_number(s: Seq<u8>, pos: int) -> Scan {
    let hex = pos + 2 < s.len() && s[pos] == 48 && (s[pos + 1] == 120 || s[pos + 1] == 88)
        && is_hex_digit(s[pos + 2]);
    let from = if hex {
        pos + 2
    } else {
        pos
    };
    let end = run_end(
        s,
        from,
        if hex {
            ByteClass::Hex
        } else {
            ByteClass::Digit
        },
    );
    let value = digits_value(
        s.subrange(from, end),
        if hex {
            16
        } else {
            10
        },
    );
    if value > u64::MAX {
        Scan::Stuck(pos)
    } else {
        Scan::Found(SpannedView { token: TokenView::Integer(signed_cell(value)), start: pos, end })
    }
}

/// The token of one byte that a punctuation byte stands for.
pub open spec fn punctuation(b: u8) -> Option<TokenView> {
    if b == 123 {
        Some(TokenView::OpenBrace)
    } else if b == 125 {
        Some(TokenView::CloseBrace)
    } else if b == 60 {
        Some(TokenView::OpenAngle)
    } else if b == 62 {
        Some(TokenView::CloseAngle)
    } else if b == 91 {
        Some(TokenView::OpenBracket)
    } else if b == 93 {
        Some(TokenView::CloseBracket)
    } else if b == 59 {
        Some(TokenView::Semicolon)
    } else if b == 44 {
        Some(TokenView::Comma)
    } else if b == 61 {
        Some(TokenView::Equals)
    } else {
        None
    }
}

/// The token that starts at `pos`, outside a byte list.
pub open spec fn scan_token(s: Seq<u8>, pos: int) -> Scan {
    let b = s[pos];
    if starts_with(s, pos, seq![47u8, 42u8]) {
        Scan::Stuck(pos)
    } else if starts_with(s, pos, header_mark()) {
        Scan::Found(SpannedView { token: TokenView::HeaderMark, start: pos, end: pos + 6 })
    } else if punctuation(b) is Some {
        Scan::Found(SpannedView { token: punctuation(b)->0, start: pos, end: pos + 1 })
    } else if b == 34 {
        let close = string_close(s, pos + 1);
        if close < 0 {
            Scan::Stuck(pos)
        } else {
            text_token(s, pos + 1, close, false, pos, close + 1)
        }
    } else if is_digit(b) {
        scan_number(s, pos)
    } else if is_name_start(b) {
        let end = run_end(s, pos, ByteClass::Name);
        text_token(s, pos, end, true, pos, end)
    } else {
        Scan::Stuck(pos)
    }
}

/// The token that starts at `pos`, inside a byte list: the closing
/// bracket, or a byte of two hexadecimal digits.
pub open spec fn scan_byte(s: Seq<u8>, pos: int) -> Scan {
    if s[pos] == 93 {
        Scan::Found(SpannedView { token: TokenView::CloseBracket, start: pos, end: pos + 1 })
    } else if pos + 1 < s.len() && is_hex_digit(s[pos]) && is_hex_digit(s[pos + 1]) {
        Scan::Found(
            SpannedView {
                token: TokenView::Byte((digit_value(s[pos]) * 16 + digit_value(s[pos + 1])) as u8),
                start: pos,
                end: pos + 2,
            },
        )
    } else {
        Scan::Stuck(pos)
    }
}

/// What stands at or after `pos`, white space and comments skipped.
pub open spec fn scan(s: Seq<u8>, pos: int, in_bytes: bool) -> Scan {
    let at = skip_blank(s, pos);
    if at < 0 || at >= s.len() {
        Scan::End
    } else if in_bytes {
        scan_byte(s, at)
    } else {
        scan_token(s, at)
    }
}

/// Whether the lexer is inside a byte list after a token.
pub open spec fn bytes_after(token: TokenView, in_bytes: bool) -> bool {
    match token {
        TokenView::OpenBracket => true,
        TokenView::CloseBracket => false,
        _ => in_bytes,
    }
}

/// The tokens of the text from `pos` on, or the offset at which no
/// token can be read.
pub open spec fn lex_from(s: Seq<u8>, pos: int, in_bytes: bool) -> Result<Seq<SpannedView>, int>
    decreases s.len() - pos,
{
    match scan(s, pos, in_bytes) {
        Scan::End => Ok(Seq::empty()),
        Scan::Stuck(at) => Err(at),
        Scan::Found(found) => if pos < found.end <= s.len() {
            match lex_from(s, found.end, bytes_after(found.token, in_bytes)) {
                Ok(rest) => Ok(seq![found] + rest),
                Err(at) => Err(at),
            }
        } else {
            Err(pos)
        },
    }
}

/// `String::from_utf8`: the text that the bytes encode in UTF-8, or
/// `None` where they are not valid UTF-8.
#[verifier::external_body]
pub(crate) fn text_of(bytes: &[u8]) -> (text: Option<String>)
    ensures
        match text {
            Some(t) => valid_utf8(bytes@) && t@ == decode_utf8(bytes@),
            None => !valid_utf8(bytes@),
        },
{
    String::from_utf8(bytes.to_vec()).ok()
}

/// A pattern of two bytes stands at `pos` exactly where its two bytes do.
pub proof fn lemma_starts_with_pair(s: Seq<u8>, pos: int, first: u8, second: u8)
    ensures
        starts_with(s, pos, seq![first, second]) <==> (0 <= pos && pos + 2 <= s.len() && s[pos]
            == first && s[pos + 1] == second),
{
    if 0 <= pos && pos + 2 <= s.len() {
        let part = s.subrange(pos, pos + 2);
        assert(part[0] == s[pos] && part[1] == s[pos + 1]);
        if s[pos] == first && s[pos + 1] == second {
            assert(part =~= seq![first, second]);
        }
    }
}

/// The header marker stands at `pos` exactly where its six bytes do.
pub proof fn lemma_starts_with_header(s: Seq<u8>, pos: int)
    ensures
        starts_with(s, pos, header_mark()) <==> (0 <= pos && pos + 6 <= s.len() && s[pos] == 47
            && s[pos + 1] == 100 && s[pos + 2] == 116 && s[pos + 3] == 115 && s[pos + 4] == 45
            && s[pos + 5] == 118),
{
    if 0 <= pos && pos + 6 <= s.len() {
        let part = s.subrange(pos, pos + 6);
        assert(part[0] == s[pos] && part[1] == s[pos + 1] && part[2] == s[pos + 2] && part[3]
            == s[pos + 3] && part[4] == s[pos + 4] && part[5] == s[pos + 5]);
        if s[pos] == 47 && s[pos + 1] == 100 && s[pos + 2] == 116 && s[pos + 3] == 115 && s[pos
            + 4] == 45 && s[pos + 5] == 118 {
            assert(part =~= header_mark());
        }
    }
}

/// A run of digits stands for no less than any of its prefixes.
pub proof fn lemma_digits_value_grows(digits: Seq<u8>, k: int, base: nat)
    requires
        0 <= k <= digits.len(),
        base >= 1,
    ensures
        digits_value(digits.take(k), base) <= digits_value(digits, base),
    decreases digits.len() - k,
{
    if k == digits.len() {
        assert(digits.take(k) =~= digits);
    } else {
        lemma_digits_value_grows(digits, k + 1, base);
        let longer = digits.take(k + 1);
        assert(longer.drop_last() =~= digits.take(k));
        let shorter = digits_value(digits.take(k), base);
        assert(shorter <= shorter * base) by (nonlinear_arith)
            requires
                base >= 1,
                shorter >= 0,
        ;
    }
}

fn class_holds(class: ByteClass, b: u8) -> (holds: bool)
    ensures
        holds == in_class(class, b),
{
    let digit = 48 <= b && b <= 57;
    match class {
        ByteClass::Digit => digit,
        ByteClass::Hex => digit || (97 <= b && b <= 102) || (65 <= b && b <= 70),
        ByteClass::Name => digit || (97 <= b && b <= 122) || (65 <= b && b <= 90) || b == 95
            || b == 47 || b == 35 || b == 63 || b == 44 || b == 46 || b == 43 || b == 45 || b
            == 64,
    }
}

fn digit_of(b: u8) -> (value: u8)
    requires
        is_hex_digit(b),
    ensures
        value == digit_value(b),
        value < 16,
        is_digit(b) ==> value < 10,
{
    if 48 <= b && b <= 57 {
        b - 48
    } else if 97 <= b && b <= 102 {
        b - 87
    } else {
        b - 55
    }
}

fn find_run_end(data: &[u8], pos: usize, class: ByteClass) -> (end: usize)
    requires
        pos <= data@.len(),
    ensures
        end == run_end(data@, pos as int, class),
        pos <= end <= data@.len(),
        forall|k: int| pos <= k < end ==> in_class(class, #[trigger] data@[k]),
        pos < data@.len() && in_class(class, data@[pos as int]) ==> pos < end,
{
    let mut i = pos;
    while i < data.len() && class_holds(class, data[i])
        invariant
            pos <= i <= data@.len(),
            run_end(data@, pos as int, class) == run_end(data@, i as int, class),
            forall|k: int| pos <= k < i ==> in_class(class, #[trigger] data@[k]),
        decreases data@.len() - i,
    {
        i += 1;
    }
    i
}

fn find_line_end(data: &[u8], pos: usize) -> (end: usize)
    requires
        pos <= data@.len(),
    ensures
        end == line_end(data@, pos as int),
        pos <= end <= data@.len(),
{
    let mut i = pos;
    while i < data.len() && data[i] != 10
        invariant
            pos <= i <= data@.len(),
            line_end(data@, pos as int) == line_end(data@, i as int),
        decreases data@.len() - i,
    {
        i += 1;
    }
    i
}

fn find_comment_close(data: &[u8], pos: usize) -> (close: Option<usize>)
    requires
        pos <= data@.len(),
    ensures
        match close {
            Some(at) => at == comment_close(data@, pos as int) && pos <= at && at + 2
                <= data@.len(),
            None => comment_close(data@, pos as int) == -1,
        },
{
    let mut i = pos;
    while data.len() - i > 1
        invariant
            pos <= i <= data@.len(),
            comment_close(data@, pos as int) == comment_close(data@, i as int),
        decreases data@.len() - i,
    {
        if data[i] == 42 && data[i + 1] == 47 {
            return Some(i);
        }
        i += 1;
    }
    None
}

fn find_string_close(data: &[u8], pos: usize) -> (close: Option<usize>)
    requires
        pos <= data@.len(),
    ensures
        match close {
            Some(at) => at == string_close(data@, pos as int) && pos <= at < data@.len(),
            None => string_close(data@, pos as int) == -1,
        },
{
    let mut i = pos;
    while i < data.len()
        invariant
            pos <= i <= data@.len(),
            string_close(data@, pos as int) == string_close(data@, i as int),
        decreases data@.len() - i,
    {
        if data[i] == 34 {
            return Some(i);
        }
        if data[i] == 92 {
            if data.len() - i > 1 {
                i += 2;
            } else {
                return None;
            }
        } else {
            i += 1;
        }
    }
    None
}

fn skip(data: &[u8], pos: usize) -> (at: usize)
    requires
        pos <= data@.len(),
    ensures
        at == skip_blank(data@, pos as int),
        pos <= at <= data@.len(),
{
    let mut i = pos;
    while i < data.len()
        invariant
            pos <= i <= data@.len(),
            skip_blank(data@, pos as int) == skip_blank(data@, i as int),
        decreases data@.len() - i,
    {
        let b = data[i];
        proof {
            lemma_starts_with_pair(data@, i as int, 47, 47);
            lemma_starts_with_pair(data@, i as int, 47, 42);
        }
        if b == 32 || b == 9 || b == 10 || b == 13 {
            i += 1;
        } else if b == 47 && data.len() - i > 1 && data[i + 1] == 47 {
            i = find_line_end(data, i + 2);
        } else if b == 47 && data.len() - i > 1 && data[i + 1] == 42 {
            match find_comment_close(data, i + 2) {
                Some(close) => {
                    i = close + 2;
                },
                None => {
                    return i;
                },
            }
        } else {
            return i;
        }
    }
    i
}

/// The view of what reading a token gave.
pub open spec fn read_view(read: Result<Spanned, usize>) -> Scan {
    match read {
        Ok(found) => Scan::Found(found@),
        Err(at) => Scan::Stuck(at as int),
    }
}

fn make_text(data: &[u8], from: usize, to: usize, name: bool, start: usize, end: usize) -> (read:
    Result<Spanned, usize>)
    requires
        from <= to <= data@.len(),
    ensures
        read_view(read) == text_token(
            data@,
            from as int,
            to as int,
            name,
            start as int,
            end as int,
        ),
{
    match text_of(slice_subrange(data, from, to)) {
        Some(text) => Ok(
            Spanned {
                token: if name {
                    Token::Ident(text)
                } else {
                    Token::Text(text)
                },
                start,
                end,
            },
        ),
        None => Err(start),
    }
}

fn number_value(data: &[u8], from: usize, end: usize, hex: bool) -> (value: Option<u64>)
    requires
        from <= end <= data@.len(),
        forall|k: int|
            from <= k < end ==> in_class(
                if hex {
                    ByteClass::Hex
                } else {
                    ByteClass::Digit
                },
                #[trigger] data@[k],
            ),
    ensures
        match value {
            Some(v) => v == digits_value(
                data@.subrange(from as int, end as int),
                if hex {
                    16
                } else {
                    10
                },
            ),
            None => digits_value(
                data@.subrange(from as int, end as int),
                if hex {
                    16
                } else {
                    10
                },
            ) > u64::MAX,
        },
{
    let ghost digits = data@.subrange(from as int, end as int);
    let ghost base: nat = if hex {
        16
    } else {
        10
    };
    let mut acc: u64 = 0;
    let mut i = from;
    assert(digits.take(0) =~= Seq::<u8>::empty());
    while i < end
        invariant
            from <= i <= end <= data@.len(),
            digits == data@.subrange(from as int, end as int),
            base == if hex {
                16nat
            } else {
                10nat
            },
            forall|k: int|
                from <= k < end ==> in_class(
                    if hex {
                        ByteClass::Hex
                    } else {
                        ByteClass::Digit
                    },
                    #[trigger] data@[k],
                ),
            acc == digits_value(digits.take(i - from), base),
        decreases end - i,
    {
        assert(in_class(
            if hex {
                ByteClass::Hex
            } else {
                ByteClass::Digit
            },
            data@[i as int],
        ));
        let d = digit_of(data[i]) as u64;
        proof {
            let longer = digits.take(i + 1 - from);
            assert(longer.drop_last() =~= digits.take(i - from));
            assert(longer.last() == data@[i as int]);
            assert(digits_value(longer, base) == acc * base + d);
        }
        let limit: u64 = if hex {
            (u64::MAX - d) / 16
        } else {
            (u64::MAX - d) / 10
        };
        if acc > limit {
            proof {
                lemma_digits_value_grows(digits, i + 1 - from, base);
            }
            return None;
        }
        acc = if hex {
            acc * 16 + d
        } else {
            acc * 10 + d
        };
        i += 1;
    }
    assert(digits.take(i - from) =~= digits);
    Some(acc)
}

fn to_cell(v: u64) -> (cell: i64)
    ensures
        cell == signed_cell(v as nat),
{
    if v <= 0x7fff_ffff_ffff_ffff {
        v as i64
    } else {
        ((v - 0x8000_0000_0000_0000) as i64) + i64::MIN
    }
}

fn read_number(data: &[u8], pos: usize) -> (read: Result<Spanned, usize>)
    requires
        pos < data@.len(),
        is_digit(data@[pos as int]),
    ensures
        read_view(read) == scan_number(data@, pos as int),
        read matches Ok(found) ==> pos < found.end <= data@.len(),
{
    let hex = data.len() - pos > 2 && data[pos] == 48 && (data[pos + 1] == 120 || data[pos + 1]
        == 88) && class_holds(ByteClass::Hex, data[pos + 2]);
    let from = if hex {
        pos + 2
    } else {
        pos
    };
    let class = if hex {
        ByteClass::Hex
    } else {
        ByteClass::Digit
    };
    let end = find_run_end(data, from, class);
    match number_value(data, from, end, hex) {
        Some(v) => Ok(Spanned { token: Token::Integer(to_cell(v)), start: pos, end }),
        None => Err(pos),
    }
}

fn punctuation_of(b: u8) -> (token: Option<Token>)
    ensures
        match token {
            Some(t) => punctuation(b) == Some(t@),
            None => punctuation(b) is None,
        },
{
    if b == 123 {
        Some(Token::OpenBrace)
    } else if b == 125 {
        Some(Token::CloseBrace)
    } else if b == 60 {
        Some(Token::OpenAngle)
    } else if b == 62 {
        Some(Token::CloseAngle)
    } else if b == 91 {
        Some(Token::OpenBracket)
    } else if b == 93 {
        Some(Token::CloseBracket)
    } else if b == 59 {
        Some(Token::Semicolon)
    } else if b == 44 {
        Some(Token::Comma)
    } else if b == 61 {
        Some(Token::Equals)
    } else {
        None
    }
}

fn read_token(data: &[u8], pos: usize) -> (read: Result<Spanned, usize>)
    requires
        pos < data@.len(),
    ensures
        read_view(read) == scan_token(data@, pos as int),
        read matches Ok(found) ==> pos < found.end <= data@.len(),
{
    let b = data[pos];
    let room = data.len() - pos;
    proof {
        lemma_starts_with_pair(data@, pos as int, 47, 42);
        lemma_starts_with_header(data@, pos as int);
    }
    if b == 47 && room > 1 && data[pos + 1] == 42 {
        return Err(pos);
    }
    if room >= 6 && b == 47 && data[pos + 1] == 100 && data[pos + 2] == 116 && data[pos + 3]
        == 115 && data[pos + 4] == 45 && data[pos + 5] == 118 {
        return Ok(Spanned { token: Token::HeaderMark, start: pos, end: pos + 6 });
    }
    match punctuation_of(b) {
        Some(token) => {
            return Ok(Spanned { token, start: pos, end: pos + 1 });
        },
        None => {},
    }
    if b == 34 {
        match find_string_close(data, pos + 1) {
            Some(close) => make_text(data, pos + 1, close, false, pos, close + 1),
            None => Err(pos),
        }
    } else if 48 <= b && b <= 57 {
        read_number(data, pos)
    } else if (97 <= b && b <= 122) || (65 <= b && b <= 90) || b == 95 || b == 47 || b == 35 || b
        == 63 {
        let end = find_run_end(data, pos, ByteClass::Name);
        make_text(data, pos, end, true, pos, end)
    } else {
        Err(pos)
    }
}

fn read_byte(data: &[u8], pos: usize) -> (read: Result<Spanned, usize>)
    requires
        pos < data@.len(),
    ensures
        read_view(read) == scan_byte(data@, pos as int),
        read matches Ok(found) ==> pos < found.end <= data@.len(),
{
    if data[pos] == 93 {
        Ok(Spanned { token: Token::CloseBracket, start: pos, end: pos + 1 })
    } else if data.len() - pos > 1 && class_holds(ByteClass::Hex, data[pos]) && class_holds(
        ByteClass::Hex,
        data[pos + 1],
    ) {
        let high = digit_of(data[pos]);
        let low = digit_of(data[pos + 1]);
        Ok(Spanned { token: Token::Byte(high * 16 + low), start: pos, end: pos + 2 })
    } else {
        Err(pos)
    }
}

/// The tokens of a text, in order, each with the bytes it spans.
///
/// Fails at the first offset at which no token can be read: a byte
/// that opens none, a text literal or a comment that is not closed, a
/// text literal or a name that is not UTF-8, a number above sixty-four
/// bits, or anything but pairs of hexadecimal digits inside `[ ]`.
pub fn lex(data: &[u8]) -> (result: Result<Vec<Spanned>, LexicalError>)
    ensures
        match result {
            Ok(tokens) => lex_from(data@, 0, false) == Ok::<Seq<SpannedView>, int>(
                spanned_views(tokens@),
            ),
            Err(e) => lex_from(data@, 0, false) == Err::<Seq<SpannedView>, int>(e.at as int),
        },
{
    let mut tokens: Vec<Spanned> = Vec::new();
    let mut pos: usize = 0;
    let mut in_bytes = false;
    let ghost whole = lex_from(data@, 0, false);
    assert(spanned_views(tokens@) =~= Seq::<SpannedView>::empty());
    loop
        invariant
            pos <= data@.len(),
            whole == lex_from(data@, 0, false),
            match lex_from(data@, pos as int, in_bytes) {
                Ok(rest) => whole == Ok::<Seq<SpannedView>, int>(spanned_views(tokens@) + rest),
                Err(at) => whole == Err::<Seq<SpannedView>, int>(at),
            },
        decreases data@.len() - pos,
    {
        let at = skip(data, pos);
        if at >= data.len() {
            assert(spanned_views(tokens@) + Seq::<SpannedView>::empty() =~= spanned_views(
                tokens@,
            ));
            return Ok(tokens);
        }
        let read = if in_bytes {
            read_byte(data, at)
        } else {
            read_token(data, at)
        };
        match read {
            Err(stuck) => {
                return Err(LexicalError { at: stuck });
            },
            Ok(found) => {
                let ghost before = spanned_views(tokens@);
                let ghost after = lex_from(data@, found.end as int, bytes_after(found@.token, in_bytes));
                match &found.token {
                    Token::OpenBracket => {
                        in_bytes = true;
                    },
                    Token::CloseBracket => {
                        in_bytes = false;
                    },
                    _ => {},
                }
                pos = found.end;
                tokens.push(found);
                proof {
                    assert(spanned_views(tokens@) =~= before + seq![found@]);
                    match after {
                        Ok(rest) => {
                            assert(before + (seq![found@] + rest) =~= spanned_views(tokens@)
                                + rest);
                        },
                        Err(_) => {},
                    }
                }
            },
        }
    }
}

} // verus!
