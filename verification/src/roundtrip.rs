//! Rendering and reading agree: what the serializer writes, the lexer
//! and the parser read back.

use vstd::prelude::*;
use vstd::utf8::{encode_utf8, is_ascii_chars};
use crate::lexer::{
    ByteClass, Scan, SpannedView, TokenView, bytes_after, comment_close, digit_value, digits_value,
    header_mark, in_class, is_digit, is_hex_digit, is_name_byte, is_name_start, is_space,
    lemma_starts_with_header, lemma_starts_with_pair, lex_from, line_end, punctuation, run_end,
    scan, scan_number, signed_cell, skip_blank, starts_with, string_close,
};
use crate::ast::{BranchView, EntryView, FileEntryView, ValueView};
use crate::grammar::{
    branch_ok, branch_tokens, byte_tokens, entries_tokens, entry_ok, entry_tokens,
    file_entry_tokens, file_ok, file_tokens, integer_tokens, lemma_parse_complete, text_tokens,
    value_ok, value_tokens,
};
use crate::parser::{kinds, parse_spec};
use crate::render::{
    branch_text, entry_text, entry_texts, file_entry_text, file_text, header_text, quoted_text,
    value_text,
};
use crate::text::{
    byte_text, cell_text, cell_value, concat_text, dec_digits, digit_char, hex_digits,
    indent_text, join_text, pad_two,
};

verus! {

/// The bytes of a text of ASCII characters, one for each character.
pub open spec fn ascii_bytes(text: Seq<char>) -> Seq<u8> {
    Seq::new(text.len(), |i: int| text[i] as u8)
}

/// A cell is the signed reading of the number it stands for, which
/// fits in sixty-four bits.
pub proof fn lemma_cell_value_inverse(v: i64)
    ensures
        cell_value(v) <= u64::MAX,
        signed_cell(cell_value(v)) == v,
{
}

/// A digit character reads back as its digit.
pub proof fn lemma_digit_char_value(d: nat)
    requires
        d < 16,
    ensures
        is_hex_digit(digit_char(d) as u8),
        d < 10 ==> is_digit(digit_char(d) as u8),
        digit_value(digit_char(d) as u8) == d,
        digit_char(d) as u8 != 120,
        digit_char(d) as u8 != 88,
{
}

/// A zero in front changes no number.
pub proof fn lemma_leading_zero(digits: Seq<u8>, base: nat)
    ensures
        digits_value(seq![48u8] + digits, base) == digits_value(digits, base),
    decreases digits.len(),
{
    let all = seq![48u8] + digits;
    if digits.len() == 0 {
        assert(all.drop_last() =~= Seq::<u8>::empty());
        assert(digits_value(all.drop_last(), base) == 0);
        assert(digits_value(all, base) == 0 * base + 0);
    } else {
        assert(all.drop_last() =~= seq![48u8] + digits.drop_last());
        assert(all.last() == digits.last());
        lemma_leading_zero(digits.drop_last(), base);
    }
}

/// The hexadecimal digits of a number are hexadecimal digits, and read
/// back as the number.
pub proof fn lemma_hex_digits_value(n: nat)
    ensures
        hex_digits(n).len() >= 1,
        forall|i: int|
            0 <= i < hex_digits(n).len() ==> is_hex_digit(#[trigger] ascii_bytes(hex_digits(n))[i]),
        digits_value(ascii_bytes(hex_digits(n)), 16) == n,
        n < 256 ==> hex_digits(n).len() <= 2,
        is_ascii_chars(hex_digits(n)),
    decreases n,
{
    let bytes = ascii_bytes(hex_digits(n));
    if n < 16 {
        lemma_digit_char_value(n);
        assert(bytes.drop_last() =~= Seq::<u8>::empty());
        assert(bytes.last() == digit_char(n) as u8);
        assert(digits_value(bytes.drop_last(), 16) == 0);
        assert(digits_value(bytes, 16) == 0 * 16 + digit_value(bytes.last()));
    } else {
        lemma_hex_digits_value(n / 16);
        lemma_digit_char_value(n % 16);
        let shorter = ascii_bytes(hex_digits(n / 16));
        assert(bytes.drop_last() =~= shorter);
        assert(bytes.last() == digit_char(n % 16) as u8);
        assert(digits_value(bytes, 16) == digits_value(bytes.drop_last(), 16) * 16 + digit_value(
            bytes.last(),
        ));
        assert(digits_value(bytes, 16) == (n / 16) * 16 + n % 16);
        assert forall|i: int| 0 <= i < hex_digits(n).len() implies is_hex_digit(
            #[trigger] bytes[i],
        ) by {
            if i < shorter.len() {
                assert(bytes[i] == shorter[i]);
            }
        }
        if n < 256 {
            assert(n / 16 < 16);
        }
    }
}

/// The decimal digits of a number are decimal digits, and read back as
/// the number.
pub proof fn lemma_dec_digits_value(n: nat)
    ensures
        dec_digits(n).len() >= 1,
        forall|i: int|
            0 <= i < dec_digits(n).len() ==> is_digit(#[trigger] ascii_bytes(dec_digits(n))[i]),
        digits_value(ascii_bytes(dec_digits(n)), 10) == n,
        is_ascii_chars(dec_digits(n)),
    decreases n,
{
    let bytes = ascii_bytes(dec_digits(n));
    if n < 10 {
        lemma_digit_char_value(n);
        assert(bytes.drop_last() =~= Seq::<u8>::empty());
        assert(bytes.last() == digit_char(n) as u8);
        assert(digits_value(bytes.drop_last(), 10) == 0);
        assert(digits_value(bytes, 10) == 0 * 10 + digit_value(bytes.last()));
    } else {
        lemma_dec_digits_value(n / 10);
        lemma_digit_char_value(n % 10);
        let shorter = ascii_bytes(dec_digits(n / 10));
        assert(bytes.drop_last() =~= shorter);
        assert(bytes.last() == digit_char(n % 10) as u8);
        assert(digits_value(bytes, 10) == digits_value(bytes.drop_last(), 10) * 10 + digit_value(
            bytes.last(),
        ));
        assert(digits_value(bytes, 10) == (n / 10) * 10 + n % 10);
        assert forall|i: int| 0 <= i < dec_digits(n).len() implies is_digit(
            #[trigger] bytes[i],
        ) by {
            if i < shorter.len() {
                assert(bytes[i] == shorter[i]);
            }
        }
    }
}

/// The digits of a number with their padding are two at least, are
/// hexadecimal digits, and read back as the number.
pub proof fn lemma_padded_value(n: nat)
    ensures
        pad_two(hex_digits(n)).len() >= 2,
        n < 256 ==> pad_two(hex_digits(n)).len() == 2,
        forall|i: int|
            0 <= i < pad_two(hex_digits(n)).len() ==> is_hex_digit(
                #[trigger] ascii_bytes(pad_two(hex_digits(n)))[i],
            ),
        digits_value(ascii_bytes(pad_two(hex_digits(n))), 16) == n,
        is_ascii_chars(pad_two(hex_digits(n))),
{
    lemma_hex_digits_value(n);
    let plain = ascii_bytes(hex_digits(n));
    let padded = ascii_bytes(pad_two(hex_digits(n)));
    if hex_digits(n).len() < 2 {
        assert(padded =~= seq![48u8] + plain);
        lemma_leading_zero(plain, 16);
        assert forall|i: int| 0 <= i < padded.len() implies is_hex_digit(
            #[trigger] padded[i],
        ) by {
            if i > 0 {
                assert(padded[i] == plain[i - 1]);
            }
        }
    }
}

/// The encoding of two texts one after the other is the encoding of the
/// first followed by that of the second.
pub proof fn lemma_encode_concat(first: Seq<char>, second: Seq<char>)
    ensures
        encode_utf8(first + second) == encode_utf8(first) + encode_utf8(second),
    decreases first.len(),
{
    if first.len() == 0 {
        assert(first + second =~= second);
        assert(encode_utf8(first) + encode_utf8(second) =~= encode_utf8(second));
    } else {
        let whole = first + second;
        assert(whole[0] == first[0]);
        assert(whole.drop_first() =~= first.drop_first() + second);
        lemma_encode_concat(first.drop_first(), second);
        assert(encode_utf8(whole) =~= encode_utf8(first) + encode_utf8(second));
    }
}

/// A text of ASCII characters is encoded by one byte for each character.
pub proof fn lemma_encode_ascii(text: Seq<char>)
    requires
        is_ascii_chars(text),
    ensures
        encode_utf8(text) == ascii_bytes(text),
{
    vstd::utf8::is_ascii_chars_encode_utf8(text);
    assert(encode_utf8(text) =~= ascii_bytes(text));
}

/// Whether the encoding of `text` stands in `b` at `pos`.
pub open spec fn stands(b: Seq<u8>, pos: int, text: Seq<char>) -> bool {
    0 <= pos && pos + encode_utf8(text).len() <= b.len() && b.subrange(
        pos,
        pos + encode_utf8(text).len(),
    ) == encode_utf8(text)
}

/// Where two texts stand one after the other, each of them stands.
pub proof fn lemma_stands_split(b: Seq<u8>, pos: int, first: Seq<char>, second: Seq<char>)
    requires
        stands(b, pos, first + second),
    ensures
        stands(b, pos, first),
        stands(b, pos + encode_utf8(first).len(), second),
        encode_utf8(first + second).len() == encode_utf8(first).len() + encode_utf8(second).len(),
{
    lemma_encode_concat(first, second);
    let one = encode_utf8(first);
    let two = encode_utf8(second);
    let whole = b.subrange(pos, pos + one.len() + two.len());
    assert(whole == one + two);
    assert(b.subrange(pos, pos + one.len()) =~= whole.subrange(0, one.len() as int));
    assert(whole.subrange(0, one.len() as int) =~= one);
    assert(b.subrange(pos + one.len(), pos + one.len() + two.len()) =~= whole.subrange(
        one.len() as int,
        whole.len() as int,
    ));
    assert(whole.subrange(one.len() as int, whole.len() as int) =~= two);
}

/// Where a text of ASCII characters stands, each byte is its character.
pub proof fn lemma_stands_ascii(b: Seq<u8>, pos: int, text: Seq<char>, i: int)
    requires
        stands(b, pos, text),
        is_ascii_chars(text),
        0 <= i < text.len(),
    ensures
        encode_utf8(text).len() == text.len(),
        b[pos + i] == text[i] as u8,
{
    lemma_encode_ascii(text);
    assert(b.subrange(pos, pos + text.len())[i] == b[pos + i]);
}

/// The end of a run lies at or after its start, within the text.
pub proof fn lemma_run_end_bounds(b: Seq<u8>, pos: int, class: ByteClass)
    requires
        0 <= pos <= b.len(),
    ensures
        pos <= run_end(b, pos, class) <= b.len(),
    decreases b.len() - pos,
{
    if pos < b.len() && in_class(class, b[pos]) {
        lemma_run_end_bounds(b, pos + 1, class);
    }
}

/// A run of bytes of a class that another byte closes ends there.
pub proof fn lemma_run_end_at(b: Seq<u8>, from: int, to: int, class: ByteClass)
    requires
        0 <= from <= to <= b.len(),
        forall|k: int| from <= k < to ==> in_class(class, #[trigger] b[k]),
        to < b.len() ==> !in_class(class, b[to]),
    ensures
        run_end(b, from, class) == to,
    decreases to - from,
{
    if from < to {
        assert(in_class(class, b[from]));
        lemma_run_end_at(b, from + 1, to, class);
    }
}

/// The end of a line lies at or after its start, within the text.
pub proof fn lemma_line_end_bounds(b: Seq<u8>, pos: int)
    requires
        0 <= pos <= b.len(),
    ensures
        pos <= line_end(b, pos) <= b.len(),
    decreases b.len() - pos,
{
    if pos < b.len() && b[pos] != 10 {
        lemma_line_end_bounds(b, pos + 1);
    }
}

/// The quote that closes a text literal stands at or after the start of
/// its content, within the text.
pub proof fn lemma_string_close_bounds(b: Seq<u8>, pos: int)
    requires
        0 <= pos,
    ensures
        string_close(b, pos) == -1 || pos <= string_close(b, pos) < b.len(),
    decreases b.len() - pos,
{
    if pos < b.len() && b[pos] != 34 {
        if b[pos] == 92 {
            if pos + 1 < b.len() {
                lemma_string_close_bounds(b, pos + 2);
            }
        } else {
            lemma_string_close_bounds(b, pos + 1);
        }
    }
}

/// Skipping never goes back, nor beyond the end.
pub proof fn lemma_skip_blank_bounds(b: Seq<u8>, pos: int)
    requires
        0 <= pos <= b.len(),
    ensures
        pos <= skip_blank(b, pos) <= b.len(),
    decreases b.len() - pos,
{
    if pos < b.len() {
        if is_space(b[pos]) {
            lemma_skip_blank_bounds(b, pos + 1);
        } else if starts_with(b, pos, seq![47u8, 47u8]) {
            let end = line_end(b, pos + 2);
            if pos < end <= b.len() {
                lemma_skip_blank_bounds(b, end);
            }
        } else if starts_with(b, pos, seq![47u8, 42u8]) {
            let close = comment_close(b, pos + 2);
            if pos < close && close + 2 <= b.len() {
                lemma_skip_blank_bounds(b, close + 2);
            }
        }
    }
}

/// Nothing is skipped at a byte that is no white space and opens no comment.
pub proof fn lemma_skip_blank_stops(b: Seq<u8>, pos: int)
    requires
        0 <= pos < b.len(),
        !is_space(b[pos]),
        b[pos] == 47 ==> pos + 1 < b.len() && b[pos + 1] != 47 && b[pos + 1] != 42,
    ensures
        skip_blank(b, pos) == pos,
{
    lemma_starts_with_pair(b, pos, 47, 47);
    lemma_starts_with_pair(b, pos, 47, 42);
}

/// A token ends after the place where it was looked for.
pub proof fn lemma_scan_progress(b: Seq<u8>, pos: int, mode: bool)
    requires
        0 <= pos <= b.len(),
        scan(b, pos, mode) is Found,
    ensures
        pos < scan(b, pos, mode)->Found_0.end,
        skip_blank(b, pos) < scan(b, pos, mode)->Found_0.end,
        scan(b, pos, mode)->Found_0.end <= b.len(),
{
    lemma_skip_blank_bounds(b, pos);
    let at = skip_blank(b, pos);
    if !mode {
        if starts_with(b, at, seq![47u8, 42u8]) {
        } else if starts_with(b, at, header_mark()) {
        } else if punctuation(b[at]) is Some {
        } else if b[at] == 34 {
            lemma_string_close_bounds(b, at + 1);
        } else if is_digit(b[at]) {
            let hex = at + 2 < b.len() && b[at] == 48 && (b[at + 1] == 120 || b[at + 1] == 88)
                && is_hex_digit(b[at + 2]);
            if hex {
                lemma_run_end_bounds(b, at + 2, ByteClass::Hex);
            } else {
                lemma_run_end_bounds(b, at + 1, ByteClass::Digit);
            }
        } else if is_name_start(b[at]) {
            lemma_run_end_bounds(b, at + 1, ByteClass::Name);
        }
    }
}

/// Lexing reads the tokens of kinds `tokens` from `from` and then goes
/// on as from `to`.
pub open spec fn reads(
    b: Seq<u8>,
    from: int,
    mode: bool,
    tokens: Seq<TokenView>,
    to: int,
    after: bool,
) -> bool {
    match lex_from(b, to, after) {
        Ok(rest) => lex_from(b, from, mode) is Ok && kinds(lex_from(b, from, mode)->Ok_0)
            == tokens + kinds(rest),
        Err(at) => lex_from(b, from, mode) == Err::<Seq<SpannedView>, int>(at),
    }
}

/// Reading nothing leaves the lexer where it is.
pub proof fn lemma_reads_nothing(b: Seq<u8>, pos: int, mode: bool)
    ensures
        reads(b, pos, mode, Seq::empty(), pos, mode),
{
    match lex_from(b, pos, mode) {
        Ok(rest) => {
            assert(Seq::<TokenView>::empty() + kinds(rest) =~= kinds(rest));
        },
        Err(_) => {},
    }
}

/// Reading goes on from where it stopped.
pub proof fn lemma_reads_chain(
    b: Seq<u8>,
    from: int,
    mode: bool,
    first: Seq<TokenView>,
    mid: int,
    between: bool,
    second: Seq<TokenView>,
    to: int,
    after: bool,
)
    requires
        reads(b, from, mode, first, mid, between),
        reads(b, mid, between, second, to, after),
    ensures
        reads(b, from, mode, first + second, to, after),
{
    match lex_from(b, to, after) {
        Ok(rest) => {
            assert(first + (second + kinds(rest)) =~= (first + second) + kinds(rest));
        },
        Err(_) => {},
    }
}

/// One token is read where it is found.
pub proof fn lemma_reads_token(b: Seq<u8>, pos: int, mode: bool, found: SpannedView)
    requires
        scan(b, pos, mode) == Scan::Found(found),
        pos < found.end <= b.len(),
    ensures
        reads(b, pos, mode, seq![found.token], found.end, bytes_after(found.token, mode)),
{
    match lex_from(b, found.end, bytes_after(found.token, mode)) {
        Ok(rest) => {
            assert(kinds(seq![found] + rest) =~= seq![found.token] + kinds(rest));
        },
        Err(_) => {},
    }
}

/// White space is read over.
pub proof fn lemma_reads_spaces(b: Seq<u8>, from: int, to: int, mode: bool)
    requires
        0 <= from <= to <= b.len(),
        forall|k: int| from <= k < to ==> is_space(#[trigger] b[k]),
    ensures
        lex_from(b, from, mode) == lex_from(b, to, mode),
        reads(b, from, mode, Seq::empty(), to, mode),
    decreases to - from,
{
    if from < to {
        assert(is_space(b[from]));
        lemma_reads_spaces(b, from + 1, to, mode);
        assert(skip_blank(b, from) == skip_blank(b, from + 1));
        assert(scan(b, from, mode) == scan(b, from + 1, mode));
        if scan(b, from, mode) is Found {
            lemma_scan_progress(b, from + 1, mode);
        }
        assert(lex_from(b, from, mode) == lex_from(b, from + 1, mode));
    }
    lemma_reads_nothing(b, to, mode);
}

/// A name that reads back as one token: ASCII characters that may stand
/// in a name, the first of which may open one, and neither a comment
/// nor the header marker at its start.
pub open spec fn name_ok(name: Seq<char>) -> bool {
    &&& name.len() >= 1
    &&& is_ascii_chars(name)
    &&& is_name_start(name[0] as u8)
    &&& forall|i: int| 0 <= i < name.len() ==> is_name_byte(#[trigger] name[i] as u8)
    &&& !(name.len() >= 2 && name[0] == '/' && name[1] == '/')
    &&& !(name.len() >= 6 && name[0] == '/' && name[1] == 'd' && name[2] == 't' && name[3] == 's'
        && name[4] == '-' && name[5] == 'v')
}

/// The content of a text literal that reads back as written: its
/// closing quote is the first that no backslash takes along.
pub open spec fn text_ok(text: Seq<char>) -> bool {
    string_close(encode_utf8(text) + seq![34u8], 0) == encode_utf8(text).len()
}

/// Where the closing quote is found does not depend on what stands
/// before the literal or after its closing quote.
pub proof fn lemma_string_close_shift(b: Seq<u8>, base: int, content: Seq<u8>, k: int)
    requires
        0 <= base,
        base + content.len() <= b.len(),
        b.subrange(base, base + content.len()) == content,
        0 <= k <= content.len(),
        string_close(content, k) >= 0,
    ensures
        string_close(b, base + k) == base + string_close(content, k),
    decreases content.len() - k,
{
    if k < content.len() {
        assert(b[base + k] == content[k]) by {
            assert(b.subrange(base, base + content.len())[k] == b[base + k]);
        }
        if content[k] == 34 {
        } else if content[k] == 92 {
            if k + 1 < content.len() {
                lemma_string_close_shift(b, base, content, k + 2);
            }
        } else {
            lemma_string_close_shift(b, base, content, k + 1);
        }
    }
}

/// A punctuation byte is read as its token.
pub proof fn lemma_reads_punctuation(b: Seq<u8>, pos: int, token: TokenView)
    requires
        0 <= pos < b.len(),
        punctuation(b[pos]) == Some(token),
    ensures
        reads(b, pos, false, seq![token], pos + 1, bytes_after(token, false)),
{
    lemma_skip_blank_stops(b, pos);
    lemma_starts_with_pair(b, pos, 47, 42);
    lemma_starts_with_header(b, pos);
    lemma_reads_token(b, pos, false, SpannedView { token, start: pos, end: pos + 1 });
}

/// The bracket that closes a byte list is read as its token.
pub proof fn lemma_reads_close_bracket(b: Seq<u8>, pos: int)
    requires
        0 <= pos < b.len(),
        b[pos] == 93,
    ensures
        reads(b, pos, true, seq![TokenView::CloseBracket], pos + 1, false),
{
    lemma_skip_blank_stops(b, pos);
    lemma_reads_token(
        b,
        pos,
        true,
        SpannedView { token: TokenView::CloseBracket, start: pos, end: pos + 1 },
    );
}

/// The header marker is read as its token.
pub proof fn lemma_reads_header_mark(b: Seq<u8>, pos: int)
    requires
        0 <= pos,
        pos + 6 <= b.len(),
        b.subrange(pos, pos + 6) == header_mark(),
    ensures
        reads(b, pos, false, seq![TokenView::HeaderMark], pos + 6, false),
{
    lemma_starts_with_header(b, pos);
    lemma_skip_blank_stops(b, pos);
    lemma_starts_with_pair(b, pos, 47, 42);
    lemma_reads_token(
        b,
        pos,
        false,
        SpannedView { token: TokenView::HeaderMark, start: pos, end: pos + 6 },
    );
}

/// A name that a blank or a semicolon follows is read as one token.
pub proof fn lemma_reads_name(b: Seq<u8>, pos: int, name: Seq<char>)
    requires
        name_ok(name),
        stands(b, pos, name),
        pos + encode_utf8(name).len() < b.len(),
        b[pos + encode_utf8(name).len()] == 32 || b[pos + encode_utf8(name).len()] == 59,
    ensures
        reads(b, pos, false, seq![TokenView::Ident(name)], pos + encode_utf8(name).len(), false),
{
    let n = name.len() as int;
    lemma_encode_ascii(name);
    assert forall|k: int| pos <= k < pos + n implies in_class(ByteClass::Name, #[trigger] b[k]) by {
        lemma_stands_ascii(b, pos, name, k - pos);
        assert(is_name_byte(name[k - pos] as u8));
    }
    lemma_stands_ascii(b, pos, name, 0);
    if n >= 2 {
        lemma_stands_ascii(b, pos, name, 1);
        assert(is_name_byte(name[1] as u8));
    }
    lemma_skip_blank_stops(b, pos);
    lemma_starts_with_pair(b, pos, 47, 42);
    lemma_starts_with_header(b, pos);
    assert(!starts_with(b, pos, header_mark())) by {
        if n >= 6 {
            lemma_stands_ascii(b, pos, name, 2);
            lemma_stands_ascii(b, pos, name, 3);
            lemma_stands_ascii(b, pos, name, 4);
            lemma_stands_ascii(b, pos, name, 5);
        }
    }
    lemma_run_end_at(b, pos, pos + n, ByteClass::Name);
    vstd::utf8::encode_utf8_valid_utf8(name);
    vstd::utf8::encode_utf8_decode_utf8(name);
    assert(b.subrange(pos, pos + n) == encode_utf8(name));
    lemma_reads_token(
        b,
        pos,
        false,
        SpannedView { token: TokenView::Ident(name), start: pos, end: pos + n },
    );
}

/// A text literal between its quotes is read as one token.
pub proof fn lemma_reads_text(b: Seq<u8>, pos: int, text: Seq<char>)
    requires
        text_ok(text),
        0 <= pos < b.len(),
        b[pos] == 34,
        stands(b, pos + 1, text),
        pos + 1 + encode_utf8(text).len() < b.len(),
        b[pos + 1 + encode_utf8(text).len()] == 34,
    ensures
        reads(
            b,
            pos,
            false,
            seq![TokenView::Text(text)],
            pos + 2 + encode_utf8(text).len(),
            false,
        ),
{
    let w = encode_utf8(text).len() as int;
    let content = encode_utf8(text) + seq![34u8];
    assert(b.subrange(pos + 1, pos + 1 + content.len()) =~= content) by {
        assert forall|i: int| 0 <= i < w implies b[pos + 1 + i] == encode_utf8(text)[i] by {
            assert(b.subrange(pos + 1, pos + 1 + w)[i] == b[pos + 1 + i]);
        }
    }
    lemma_string_close_shift(b, pos + 1, content, 0);
    lemma_skip_blank_stops(b, pos);
    lemma_starts_with_pair(b, pos, 47, 42);
    lemma_starts_with_header(b, pos);
    vstd::utf8::encode_utf8_valid_utf8(text);
    vstd::utf8::encode_utf8_decode_utf8(text);
    lemma_reads_token(
        b,
        pos,
        false,
        SpannedView { token: TokenView::Text(text), start: pos, end: pos + 2 + w },
    );
}

/// The text of a cell is ASCII.
pub proof fn lemma_cell_text_ascii(v: i64)
    ensures
        is_ascii_chars(cell_text(v)),
        cell_text(v).len() >= 4,
        cell_text(v)[0] == '0',
        cell_text(v)[1] == 'x',
        cell_text(v).subrange(2, cell_text(v).len() as int) == pad_two(hex_digits(cell_value(v))),
{
    lemma_padded_value(cell_value(v));
    let digits = pad_two(hex_digits(cell_value(v)));
    let text = cell_text(v);
    assert(text.subrange(2, text.len() as int) =~= digits);
    assert forall|i: int| 0 <= i < text.len() implies '\0' <= #[trigger] text[i] <= '\u{7f}' by {
        if i >= 2 {
            assert(text[i] == digits[i - 2]);
        }
    }
}

/// A cell that a blank or `>` follows is read as its number.
pub proof fn lemma_reads_cell(b: Seq<u8>, pos: int, v: i64)
    requires
        stands(b, pos, cell_text(v)),
        pos + encode_utf8(cell_text(v)).len() < b.len(),
        b[pos + encode_utf8(cell_text(v)).len()] == 32 || b[pos + encode_utf8(
            cell_text(v),
        ).len()] == 62,
    ensures
        reads(
            b,
            pos,
            false,
            seq![TokenView::Integer(v)],
            pos + encode_utf8(cell_text(v)).len(),
            false,
        ),
{
    let text = cell_text(v);
    let w = text.len() as int;
    let digits = pad_two(hex_digits(cell_value(v)));
    lemma_cell_text_ascii(v);
    lemma_padded_value(cell_value(v));
    lemma_cell_value_inverse(v);
    lemma_encode_ascii(text);
    lemma_stands_ascii(b, pos, text, 0);
    lemma_stands_ascii(b, pos, text, 1);
    assert forall|k: int| pos + 2 <= k < pos + w implies in_class(
        ByteClass::Hex,
        #[trigger] b[k],
    ) && b[k] == ascii_bytes(digits)[k - pos - 2] by {
        lemma_stands_ascii(b, pos, text, k - pos);
        assert(text[k - pos] == digits[k - pos - 2]);
        assert(is_hex_digit(ascii_bytes(digits)[k - pos - 2]));
    }
    assert(in_class(ByteClass::Hex, b[pos + 2]));
    lemma_skip_blank_stops(b, pos);
    lemma_starts_with_pair(b, pos, 47, 42);
    lemma_starts_with_header(b, pos);
    lemma_run_end_at(b, pos + 2, pos + w, ByteClass::Hex);
    assert(b.subrange(pos + 2, pos + w) =~= ascii_bytes(digits));
    assert(scan_number(b, pos) == Scan::Found(
        SpannedView { token: TokenView::Integer(v), start: pos, end: pos + w },
    ));
    lemma_reads_token(
        b,
        pos,
        false,
        SpannedView { token: TokenView::Integer(v), start: pos, end: pos + w },
    );
}

/// A version in decimal that `/` follows is read as its number.
pub proof fn lemma_reads_version(b: Seq<u8>, pos: int, version: u32)
    requires
        stands(b, pos, dec_digits(version as nat)),
        pos + encode_utf8(dec_digits(version as nat)).len() < b.len(),
        b[pos + encode_utf8(dec_digits(version as nat)).len()] == 47,
    ensures
        reads(
            b,
            pos,
            false,
            seq![TokenView::Integer(version as i64)],
            pos + encode_utf8(dec_digits(version as nat)).len(),
            false,
        ),
{
    let text = dec_digits(version as nat);
    let w = text.len() as int;
    lemma_dec_digits_value(version as nat);
    lemma_encode_ascii(text);
    assert forall|k: int| pos <= k < pos + w implies in_class(ByteClass::Digit, #[trigger] b[k])
        && b[k] == ascii_bytes(text)[k - pos] by {
        lemma_stands_ascii(b, pos, text, k - pos);
        assert(is_digit(ascii_bytes(text)[k - pos]));
    }
    assert(in_class(ByteClass::Digit, b[pos]));
    if w >= 2 {
        assert(in_class(ByteClass::Digit, b[pos + 1]));
    }
    lemma_skip_blank_stops(b, pos);
    lemma_starts_with_pair(b, pos, 47, 42);
    lemma_starts_with_header(b, pos);
    lemma_run_end_at(b, pos, pos + w, ByteClass::Digit);
    assert(b.subrange(pos, pos + w) =~= ascii_bytes(text));
    assert(scan_number(b, pos) == Scan::Found(
        SpannedView { token: TokenView::Integer(version as i64), start: pos, end: pos + w },
    ));
    lemma_reads_token(
        b,
        pos,
        false,
        SpannedView { token: TokenView::Integer(version as i64), start: pos, end: pos + w },
    );
}

/// Inside a byte list, the two digits of a byte are read as the byte.
pub proof fn lemma_reads_byte(b: Seq<u8>, pos: int, v: u8)
    requires
        stands(b, pos, byte_text(v)),
    ensures
        encode_utf8(byte_text(v)).len() == 2,
        reads(b, pos, true, seq![TokenView::Byte(v)], pos + 2, true),
{
    let text = byte_text(v);
    lemma_padded_value(v as nat);
    lemma_encode_ascii(text);
    lemma_stands_ascii(b, pos, text, 0);
    lemma_stands_ascii(b, pos, text, 1);
    let bytes = ascii_bytes(text);
    assert(is_hex_digit(bytes[0]) && is_hex_digit(bytes[1]));
    assert(digits_value(bytes, 16) == digit_value(bytes[0]) * 16 + digit_value(bytes[1])) by {
        let one = bytes.drop_last();
        assert(one.drop_last() =~= Seq::<u8>::empty());
        assert(digits_value(one.drop_last(), 16) == 0);
        assert(digits_value(one, 16) == 0 * 16 + digit_value(one.last()));
        assert(one.last() == bytes[0]);
        assert(bytes.last() == bytes[1]);
    }
    lemma_skip_blank_stops(b, pos);
    lemma_reads_token(
        b,
        pos,
        true,
        SpannedView { token: TokenView::Byte(v), start: pos, end: pos + 2 },
    );
}

/// Where one ASCII character stands, its byte stands.
pub proof fn lemma_stands_char(b: Seq<u8>, pos: int, c: char)
    requires
        stands(b, pos, seq![c]),
        '\0' <= c <= '\u{7f}',
    ensures
        encode_utf8(seq![c]).len() == 1,
        0 <= pos < b.len(),
        b[pos] == c as u8,
{
    lemma_stands_ascii(b, pos, seq![c], 0);
}

/// The texts of the cells of a list.
pub open spec fn cell_texts(cells: Seq<i64>) -> Seq<Seq<char>> {
    Seq::new(cells.len(), |i: int| cell_text(cells[i]))
}

/// The texts of the bytes of a list.
pub open spec fn byte_texts(bytes: Seq<u8>) -> Seq<Seq<char>> {
    Seq::new(bytes.len(), |i: int| byte_text(bytes[i]))
}

/// The quoted texts of a list.
pub open spec fn quoted_texts(texts: Seq<Seq<char>>) -> Seq<Seq<char>> {
    Seq::new(texts.len(), |i: int| quoted_text(texts[i]))
}

/// Cells joined by blanks, with a blank or `>` after them, are read as
/// their numbers.
pub proof fn lemma_reads_cells(b: Seq<u8>, pos: int, cells: Seq<i64>)
    requires
        stands(b, pos, join_text(cell_texts(cells), seq![' '])),
        pos + encode_utf8(join_text(cell_texts(cells), seq![' '])).len() < b.len(),
        b[pos + encode_utf8(join_text(cell_texts(cells), seq![' '])).len()] == 32 || b[pos
            + encode_utf8(join_text(cell_texts(cells), seq![' '])).len()] == 62,
    ensures
        reads(
            b,
            pos,
            false,
            integer_tokens(cells),
            pos + encode_utf8(join_text(cell_texts(cells), seq![' '])).len(),
            false,
        ),
    decreases cells.len(),
{
    let parts = cell_texts(cells);
    let joined = join_text(parts, seq![' ']);
    if cells.len() == 0 {
        assert(integer_tokens(cells) =~= Seq::<TokenView>::empty());
        lemma_reads_nothing(b, pos, false);
    } else if cells.len() == 1 {
        lemma_reads_cell(b, pos, cells[0]);
        assert(integer_tokens(cells) =~= seq![TokenView::Integer(cells[0])]);
    } else {
        let init = cells.drop_last();
        let last = cells.last();
        assert(parts.drop_last() =~= cell_texts(init));
        let before = join_text(cell_texts(init), seq![' ']);
        assert(joined == before + seq![' '] + cell_text(last));
        lemma_stands_split(b, pos, before + seq![' '], cell_text(last));
        lemma_stands_split(b, pos, before, seq![' ']);
        let mid = pos + encode_utf8(before).len();
        lemma_stands_char(b, mid, ' ');
        lemma_reads_cells(b, pos, init);
        lemma_reads_spaces(b, mid, mid + 1, false);
        lemma_reads_cell(b, mid + 1, last);
        lemma_reads_chain(
            b,
            pos,
            false,
            integer_tokens(init),
            mid,
            false,
            Seq::empty(),
            mid + 1,
            false,
        );
        lemma_reads_chain(
            b,
            pos,
            false,
            integer_tokens(init) + Seq::<TokenView>::empty(),
            mid + 1,
            false,
            seq![TokenView::Integer(last)],
            mid + 1 + encode_utf8(cell_text(last)).len(),
            false,
        );
        assert(integer_tokens(cells) =~= integer_tokens(init) + Seq::<TokenView>::empty()
            + seq![TokenView::Integer(last)]);
    }
}

/// Inside a byte list, bytes joined by blanks are read as bytes.
pub proof fn lemma_reads_bytes(b: Seq<u8>, pos: int, bytes: Seq<u8>)
    requires
        stands(b, pos, join_text(byte_texts(bytes), seq![' '])),
    ensures
        reads(
            b,
            pos,
            true,
            byte_tokens(bytes),
            pos + encode_utf8(join_text(byte_texts(bytes), seq![' '])).len(),
            true,
        ),
    decreases bytes.len(),
{
    let parts = byte_texts(bytes);
    let joined = join_text(parts, seq![' ']);
    if bytes.len() == 0 {
        assert(byte_tokens(bytes) =~= Seq::<TokenView>::empty());
        lemma_reads_nothing(b, pos, true);
    } else if bytes.len() == 1 {
        lemma_reads_byte(b, pos, bytes[0]);
        assert(byte_tokens(bytes) =~= seq![TokenView::Byte(bytes[0])]);
    } else {
        let init = bytes.drop_last();
        let last = bytes.last();
        assert(parts.drop_last() =~= byte_texts(init));
        let before = join_text(byte_texts(init), seq![' ']);
        assert(joined == before + seq![' '] + byte_text(last));
        lemma_stands_split(b, pos, before + seq![' '], byte_text(last));
        lemma_stands_split(b, pos, before, seq![' ']);
        let mid = pos + encode_utf8(before).len();
        lemma_stands_char(b, mid, ' ');
        lemma_reads_bytes(b, pos, init);
        lemma_reads_spaces(b, mid, mid + 1, true);
        lemma_reads_byte(b, mid + 1, last);
        lemma_reads_chain(b, pos, true, byte_tokens(init), mid, true, Seq::empty(), mid + 1, true);
        lemma_reads_chain(
            b,
            pos,
            true,
            byte_tokens(init) + Seq::<TokenView>::empty(),
            mid + 1,
            true,
            seq![TokenView::Byte(last)],
            mid + 3,
            true,
        );
        assert(byte_tokens(bytes) =~= byte_tokens(init) + Seq::<TokenView>::empty() + seq![
            TokenView::Byte(last),
        ]);
    }
}

/// One more text at the end is a comma and one more token.
pub proof fn lemma_text_tokens_push(texts: Seq<Seq<char>>, last: Seq<char>)
    requires
        texts.len() >= 1,
    ensures
        text_tokens(texts.push(last)) == text_tokens(texts) + seq![
            TokenView::Comma,
            TokenView::Text(last),
        ],
    decreases texts.len(),
{
    let all = texts.push(last);
    if texts.len() == 1 {
        assert(all.drop_first() =~= seq![last]);
        assert(text_tokens(all.drop_first()) == seq![TokenView::Text(last)]);
        assert(text_tokens(all) =~= text_tokens(texts) + seq![
            TokenView::Comma,
            TokenView::Text(last),
        ]);
    } else {
        assert(all.drop_first() =~= texts.drop_first().push(last));
        lemma_text_tokens_push(texts.drop_first(), last);
        assert(all[0] == texts[0]);
        assert(text_tokens(all) =~= text_tokens(texts) + seq![
            TokenView::Comma,
            TokenView::Text(last),
        ]);
    }
}

/// A text literal with its quotes is read as one token.
pub proof fn lemma_reads_quoted(b: Seq<u8>, pos: int, text: Seq<char>)
    requires
        text_ok(text),
        stands(b, pos, quoted_text(text)),
    ensures
        encode_utf8(quoted_text(text)).len() == encode_utf8(text).len() + 2,
        reads(
            b,
            pos,
            false,
            seq![TokenView::Text(text)],
            pos + encode_utf8(quoted_text(text)).len(),
            false,
        ),
{
    lemma_stands_split(b, pos, seq!['"'] + text, seq!['"']);
    lemma_stands_split(b, pos, seq!['"'], text);
    lemma_stands_char(b, pos, '"');
    lemma_stands_char(b, pos + 1 + encode_utf8(text).len(), '"');
    lemma_reads_text(b, pos, text);
}

/// Text literals joined by a comma and a blank are read as text tokens
/// with commas between them.
pub proof fn lemma_reads_texts(b: Seq<u8>, pos: int, texts: Seq<Seq<char>>)
    requires
        texts.len() >= 1,
        forall|i: int| 0 <= i < texts.len() ==> text_ok(#[trigger] texts[i]),
        stands(b, pos, join_text(quoted_texts(texts), seq![',', ' '])),
    ensures
        reads(
            b,
            pos,
            false,
            text_tokens(texts),
            pos + encode_utf8(join_text(quoted_texts(texts), seq![',', ' '])).len(),
            false,
        ),
    decreases texts.len(),
{
    let parts = quoted_texts(texts);
    let joined = join_text(parts, seq![',', ' ']);
    if texts.len() == 1 {
        lemma_reads_quoted(b, pos, texts[0]);
    } else {
        let init = texts.drop_last();
        let last = texts.last();
        assert(parts.drop_last() =~= quoted_texts(init));
        let before = join_text(quoted_texts(init), seq![',', ' ']);
        assert(joined == before + seq![',', ' '] + quoted_text(last));
        lemma_stands_split(b, pos, before + seq![',', ' '], quoted_text(last));
        lemma_stands_split(b, pos, before, seq![',', ' ']);
        let mid = pos + encode_utf8(before).len();
        assert(seq![',', ' '] =~= seq![','] + seq![' ']);
        lemma_stands_split(b, mid, seq![','], seq![' ']);
        lemma_stands_char(b, mid, ',');
        lemma_stands_char(b, mid + 1, ' ');
        assert forall|i: int| 0 <= i < init.len() implies text_ok(#[trigger] init[i]) by {
            assert(init[i] == texts[i]);
        }
        lemma_reads_texts(b, pos, init);
        lemma_reads_punctuation(b, mid, TokenView::Comma);
        lemma_reads_spaces(b, mid + 1, mid + 2, false);
        lemma_reads_quoted(b, mid + 2, last);
        let end = mid + 2 + encode_utf8(quoted_text(last)).len();
        lemma_reads_chain(
            b,
            pos,
            false,
            text_tokens(init),
            mid,
            false,
            seq![TokenView::Comma],
            mid + 1,
            false,
        );
        lemma_reads_chain(
            b,
            pos,
            false,
            text_tokens(init) + seq![TokenView::Comma],
            mid + 1,
            false,
            Seq::empty(),
            mid + 2,
            false,
        );
        lemma_reads_chain(
            b,
            pos,
            false,
            text_tokens(init) + seq![TokenView::Comma] + Seq::<TokenView>::empty(),
            mid + 2,
            false,
            seq![TokenView::Text(last)],
            end,
            false,
        );
        assert(texts =~= init.push(last));
        lemma_text_tokens_push(init, last);
        assert(text_tokens(texts) =~= text_tokens(init) + seq![TokenView::Comma] + Seq::<
            TokenView,
        >::empty() + seq![TokenView::Text(last)]);
    }
}

/// A value whose texts read back as written.
pub open spec fn value_writable(value: ValueView) -> bool {
    value matches ValueView::StringList(texts) ==> forall|i: int|
        0 <= i < texts.len() ==> text_ok(#[trigger] texts[i])
}

/// A value is read as its tokens.
pub proof fn lemma_reads_value(b: Seq<u8>, pos: int, value: ValueView)
    requires
        value_ok(value),
        value_writable(value),
        stands(b, pos, value_text(value)),
    ensures
        reads(
            b,
            pos,
            false,
            value_tokens(value),
            pos + encode_utf8(value_text(value)).len(),
            false,
        ),
{
    match value {
        ValueView::IntegerList(cells) => {
            let inner = join_text(cell_texts(cells), seq![' ']);
            assert(value_text(value) == seq!['<'] + inner + seq!['>']);
            lemma_stands_split(b, pos, seq!['<'] + inner, seq!['>']);
            lemma_stands_split(b, pos, seq!['<'], inner);
            lemma_stands_char(b, pos, '<');
            let close = pos + 1 + encode_utf8(inner).len();
            lemma_stands_char(b, close, '>');
            lemma_reads_punctuation(b, pos, TokenView::OpenAngle);
            lemma_reads_cells(b, pos + 1, cells);
            lemma_reads_punctuation(b, close, TokenView::CloseAngle);
            lemma_reads_chain(
                b,
                pos,
                false,
                seq![TokenView::OpenAngle],
                pos + 1,
                false,
                integer_tokens(cells),
                close,
                false,
            );
            lemma_reads_chain(
                b,
                pos,
                false,
                seq![TokenView::OpenAngle] + integer_tokens(cells),
                close,
                false,
                seq![TokenView::CloseAngle],
                close + 1,
                false,
            );
        },
        ValueView::ByteList(bytes) => {
            let inner = join_text(byte_texts(bytes), seq![' ']);
            assert(value_text(value) == seq!['['] + inner + seq![']']);
            lemma_stands_split(b, pos, seq!['['] + inner, seq![']']);
            lemma_stands_split(b, pos, seq!['['], inner);
            lemma_stands_char(b, pos, '[');
            let close = pos + 1 + encode_utf8(inner).len();
            lemma_stands_char(b, close, ']');
            lemma_reads_punctuation(b, pos, TokenView::OpenBracket);
            lemma_reads_bytes(b, pos + 1, bytes);
            lemma_reads_close_bracket(b, close);
            lemma_reads_chain(
                b,
                pos,
                false,
                seq![TokenView::OpenBracket],
                pos + 1,
                true,
                byte_tokens(bytes),
                close,
                true,
            );
            lemma_reads_chain(
                b,
                pos,
                false,
                seq![TokenView::OpenBracket] + byte_tokens(bytes),
                close,
                true,
                seq![TokenView::CloseBracket],
                close + 1,
                false,
            );
        },
        ValueView::StringList(texts) => {
            assert(value_text(value) == join_text(quoted_texts(texts), seq![',', ' ']));
            lemma_reads_texts(b, pos, texts);
        },
    }
}

/// A blank, a tab or a line feed is read over.
pub proof fn lemma_reads_blank(b: Seq<u8>, pos: int, c: char, mode: bool)
    requires
        stands(b, pos, seq![c]),
        c == ' ' || c == '\t' || c == '\n',
    ensures
        encode_utf8(seq![c]).len() == 1,
        reads(b, pos, mode, Seq::empty(), pos + 1, mode),
{
    lemma_stands_char(b, pos, c);
    lemma_reads_spaces(b, pos, pos + 1, mode);
}

/// A punctuation character is read as its token.
pub proof fn lemma_reads_mark(b: Seq<u8>, pos: int, c: char, token: TokenView)
    requires
        stands(b, pos, seq![c]),
        '\0' <= c <= '\u{7f}',
        punctuation(c as u8) == Some(token),
    ensures
        encode_utf8(seq![c]).len() == 1,
        reads(b, pos, false, seq![token], pos + 1, bytes_after(token, false)),
{
    lemma_stands_char(b, pos, c);
    lemma_reads_punctuation(b, pos, token);
}

/// Indentation is read over.
pub proof fn lemma_reads_indent(b: Seq<u8>, pos: int, level: nat, mode: bool)
    requires
        stands(b, pos, indent_text(level)),
    ensures
        encode_utf8(indent_text(level)).len() == level,
        reads(b, pos, mode, Seq::empty(), pos + level, mode),
{
    let pad = indent_text(level);
    lemma_encode_ascii(pad);
    assert forall|k: int| pos <= k < pos + level implies is_space(#[trigger] b[k]) by {
        lemma_stands_ascii(b, pos, pad, k - pos);
    }
    lemma_reads_spaces(b, pos, pos + level, mode);
}

/// An entry whose names and texts read back as written.
pub open spec fn entry_writable(entry: EntryView) -> bool
    decreases entry, 0int,
{
    match entry {
        EntryView::Branch(branch) => branch_writable(branch),
        EntryView::Key(ident) => name_ok(ident),
        EntryView::KeyValue { key, value } => name_ok(key) && value_writable(value),
    }
}

/// A node whose names and texts read back as written.
pub open spec fn branch_writable(branch: BranchView) -> bool
    decreases branch, 1int,
{
    &&& name_ok(branch.ident)
    &&& forall|i: int|
        0 <= i < branch.entries.len() ==> entry_writable(#[trigger] branch.entries[i])
}

/// A file whose names and texts read back as written.
pub open spec fn file_writable(file: Seq<FileEntryView>) -> bool {
    forall|i: int|
        0 <= i < file.len() ==> ((#[trigger] file[i]) is Branch ==> branch_writable(
            file[i]->Branch_0,
        ))
}

/// The tokens of entries with one more at the end.
pub proof fn lemma_entries_tokens_push(entries: Seq<EntryView>, last: EntryView, from: int)
    requires
        0 <= from <= entries.len(),
    ensures
        entries_tokens(entries.push(last), from) == entries_tokens(entries, from) + entry_tokens(
            last,
        ),
    decreases entries.len() - from,
{
    let all = entries.push(last);
    if from < entries.len() {
        assert(all[from] == entries[from]);
        lemma_entries_tokens_push(entries, last, from + 1);
        assert(entries_tokens(all, from) =~= entries_tokens(entries, from) + entry_tokens(last));
    } else {
        assert(all[from] == last);
        assert(entries_tokens(all, from + 1) =~= Seq::<TokenView>::empty());
        assert(entries_tokens(all, from) =~= entries_tokens(entries, from) + entry_tokens(last));
    }
}

/// The tokens of top-level entries with one more at the end.
pub proof fn lemma_file_tokens_push(file: Seq<FileEntryView>, last: FileEntryView, from: int)
    requires
        0 <= from <= file.len(),
    ensures
        file_tokens(file.push(last), from) == file_tokens(file, from) + file_entry_tokens(last),
    decreases file.len() - from,
{
    let all = file.push(last);
    if from < file.len() {
        assert(all[from] == file[from]);
        lemma_file_tokens_push(file, last, from + 1);
        assert(file_tokens(all, from) =~= file_tokens(file, from) + file_entry_tokens(last));
    } else {
        assert(all[from] == last);
        assert(file_tokens(all, from + 1) =~= Seq::<TokenView>::empty());
        assert(file_tokens(all, from) =~= file_tokens(file, from) + file_entry_tokens(last));
    }
}

/// `;` and a line feed are read as a semicolon.
pub proof fn lemma_reads_tail(b: Seq<u8>, pos: int)
    requires
        stands(b, pos, seq![';', '\n']),
    ensures
        encode_utf8(seq![';', '\n']).len() == 2,
        0 <= pos < b.len(),
        b[pos] == 59,
        reads(b, pos, false, seq![TokenView::Semicolon], pos + 2, false),
{
    assert(seq![';', '\n'] =~= seq![';'] + seq!['\n']);
    lemma_stands_split(b, pos, seq![';'], seq!['\n']);
    lemma_stands_char(b, pos, ';');
    lemma_reads_mark(b, pos, ';', TokenView::Semicolon);
    lemma_reads_blank(b, pos + 1, '\n', false);
    lemma_reads_chain(
        b,
        pos,
        false,
        seq![TokenView::Semicolon],
        pos + 1,
        false,
        Seq::empty(),
        pos + 2,
        false,
    );
    assert(seq![TokenView::Semicolon] + Seq::<TokenView>::empty() =~= seq![TokenView::Semicolon]);
}

/// A blank, a punctuation character and a blank or line feed are read
/// as the token of the character.
pub proof fn lemma_reads_spaced(b: Seq<u8>, pos: int, c: char, last: char, token: TokenView)
    requires
        stands(b, pos, seq![' ', c, last]),
        '\0' <= c <= '\u{7f}',
        punctuation(c as u8) == Some(token),
        bytes_after(token, false) == false,
        last == ' ' || last == '\n',
    ensures
        encode_utf8(seq![' ', c, last]).len() == 3,
        0 <= pos < b.len(),
        b[pos] == 32,
        reads(b, pos, false, seq![token], pos + 3, false),
{
    assert(seq![' ', c, last] =~= seq![' '] + seq![c] + seq![last]);
    lemma_stands_split(b, pos, seq![' '] + seq![c], seq![last]);
    lemma_stands_split(b, pos, seq![' '], seq![c]);
    lemma_stands_char(b, pos, ' ');
    lemma_reads_blank(b, pos, ' ', false);
    lemma_reads_mark(b, pos + 1, c, token);
    lemma_reads_blank(b, pos + 2, last, false);
    let none = Seq::<TokenView>::empty();
    lemma_reads_chain(b, pos, false, none, pos + 1, false, seq![token], pos + 2, false);
    lemma_reads_chain(b, pos, false, none + seq![token], pos + 2, false, none, pos + 3, false);
    assert(none + seq![token] + none =~= seq![token]);
}

/// `};` and a line feed are read as a closing brace and a semicolon.
pub proof fn lemma_reads_close(b: Seq<u8>, pos: int)
    requires
        stands(b, pos, seq!['}', ';', '\n']),
    ensures
        encode_utf8(seq!['}', ';', '\n']).len() == 3,
        reads(
            b,
            pos,
            false,
            seq![TokenView::CloseBrace, TokenView::Semicolon],
            pos + 3,
            false,
        ),
{
    assert(seq!['}', ';', '\n'] =~= seq!['}'] + seq![';', '\n']);
    lemma_stands_split(b, pos, seq!['}'], seq![';', '\n']);
    lemma_reads_mark(b, pos, '}', TokenView::CloseBrace);
    lemma_reads_tail(b, pos + 1);
    lemma_reads_chain(
        b,
        pos,
        false,
        seq![TokenView::CloseBrace],
        pos + 1,
        false,
        seq![TokenView::Semicolon],
        pos + 3,
        false,
    );
    assert(seq![TokenView::CloseBrace] + seq![TokenView::Semicolon] =~= seq![
        TokenView::CloseBrace,
        TokenView::Semicolon,
    ]);
}

/// An indented name that a blank or a semicolon follows is read as one
/// token.
pub proof fn lemma_reads_indented_name(b: Seq<u8>, pos: int, level: nat, name: Seq<char>)
    requires
        name_ok(name),
        stands(b, pos, indent_text(level) + name),
        pos + encode_utf8(indent_text(level) + name).len() < b.len(),
        b[pos + encode_utf8(indent_text(level) + name).len()] == 32 || b[pos + encode_utf8(
            indent_text(level) + name,
        ).len()] == 59,
    ensures
        reads(
            b,
            pos,
            false,
            seq![TokenView::Ident(name)],
            pos + encode_utf8(indent_text(level) + name).len(),
            false,
        ),
{
    lemma_stands_split(b, pos, indent_text(level), name);
    lemma_reads_indent(b, pos, level, false);
    lemma_reads_name(b, pos + level, name);
    lemma_reads_chain(
        b,
        pos,
        false,
        Seq::empty(),
        pos + level,
        false,
        seq![TokenView::Ident(name)],
        pos + level + encode_utf8(name).len(),
        false,
    );
    assert(Seq::<TokenView>::empty() + seq![TokenView::Ident(name)] =~= seq![
        TokenView::Ident(name),
    ]);
}

/// A flag as rendered is read as its tokens.
pub proof fn lemma_reads_key(b: Seq<u8>, pos: int, ident: Seq<char>, level: nat)
    requires
        name_ok(ident),
        stands(b, pos, entry_text(EntryView::Key(ident), level)),
    ensures
        reads(
            b,
            pos,
            false,
            entry_tokens(EntryView::Key(ident)),
            pos + encode_utf8(entry_text(EntryView::Key(ident), level)).len(),
            false,
        ),
{
    let head = indent_text(level) + ident;
    let tail = seq![';', '\n'];
    assert(entry_text(EntryView::Key(ident), level) == head + tail);
    lemma_stands_split(b, pos, head, tail);
    let p1 = pos + encode_utf8(head).len();
    lemma_reads_tail(b, p1);
    lemma_reads_indented_name(b, pos, level, ident);
    lemma_reads_chain(
        b,
        pos,
        false,
        seq![TokenView::Ident(ident)],
        p1,
        false,
        seq![TokenView::Semicolon],
        p1 + 2,
        false,
    );
    assert(entry_tokens(EntryView::Key(ident)) =~= seq![TokenView::Ident(ident)] + seq![
        TokenView::Semicolon,
    ]);
}

/// A property as rendered is read as its tokens.
pub proof fn lemma_reads_key_value(
    b: Seq<u8>,
    pos: int,
    key: Seq<char>,
    value: ValueView,
    level: nat,
)
    requires
        name_ok(key),
        value_ok(value),
        value_writable(value),
        stands(b, pos, entry_text(EntryView::KeyValue { key, value }, level)),
    ensures
        reads(
            b,
            pos,
            false,
            entry_tokens(EntryView::KeyValue { key, value }),
            pos + encode_utf8(entry_text(EntryView::KeyValue { key, value }, level)).len(),
            false,
        ),
{
    let entry = EntryView::KeyValue { key, value };
    let head = indent_text(level) + key;
    let gap = seq![' ', '=', ' '];
    let text = value_text(value);
    let tail = seq![';', '\n'];
    assert(entry_text(entry, level) == head + gap + text + tail);
    lemma_stands_split(b, pos, head + gap + text, tail);
    lemma_stands_split(b, pos, head + gap, text);
    lemma_stands_split(b, pos, head, gap);
    let p1 = pos + encode_utf8(head).len();
    let p2 = p1 + 3;
    lemma_reads_spaced(b, p1, '=', ' ', TokenView::Equals);
    let p3 = p2 + encode_utf8(text).len();
    lemma_reads_tail(b, p3);
    lemma_reads_indented_name(b, pos, level, key);
    lemma_reads_value(b, p2, value);
    let t1 = seq![TokenView::Ident(key)] + seq![TokenView::Equals];
    lemma_reads_chain(
        b,
        pos,
        false,
        seq![TokenView::Ident(key)],
        p1,
        false,
        seq![TokenView::Equals],
        p2,
        false,
    );
    lemma_reads_chain(b, pos, false, t1, p2, false, value_tokens(value), p3, false);
    lemma_reads_chain(
        b,
        pos,
        false,
        t1 + value_tokens(value),
        p3,
        false,
        seq![TokenView::Semicolon],
        p3 + 2,
        false,
    );
    assert(entry_tokens(entry) =~= t1 + value_tokens(value) + seq![TokenView::Semicolon]);
}

/// An entry as rendered is read as its tokens.
pub proof fn lemma_reads_entry(b: Seq<u8>, pos: int, entry: EntryView, level: nat)
    requires
        entry_ok(entry),
        entry_writable(entry),
        stands(b, pos, entry_text(entry, level)),
    ensures
        reads(
            b,
            pos,
            false,
            entry_tokens(entry),
            pos + encode_utf8(entry_text(entry, level)).len(),
            false,
        ),
    decreases entry, 0int,
{
    match entry {
        EntryView::Branch(child) => {
            lemma_reads_branch(b, pos, child, level);
        },
        EntryView::Key(ident) => {
            lemma_reads_key(b, pos, ident, level);
        },
        EntryView::KeyValue { key, value } => {
            lemma_reads_key_value(b, pos, key, value, level);
        },
    }
}

/// The first `upto` entries of a node as rendered are read as their
/// tokens.
pub proof fn lemma_reads_entries(
    b: Seq<u8>,
    pos: int,
    entries: Seq<EntryView>,
    level: nat,
    upto: int,
)
    requires
        0 <= upto <= entries.len(),
        forall|i: int| 0 <= i < entries.len() ==> entry_ok(#[trigger] entries[i]),
        forall|i: int| 0 <= i < entries.len() ==> entry_writable(#[trigger] entries[i]),
        stands(b, pos, concat_text(entry_texts(entries, level).take(upto))),
    ensures
        reads(
            b,
            pos,
            false,
            entries_tokens(entries.take(upto), 0),
            pos + encode_utf8(concat_text(entry_texts(entries, level).take(upto))).len(),
            false,
        ),
    decreases entries, upto,
{
    let texts = entry_texts(entries, level);
    if upto == 0 {
        assert(entries_tokens(entries.take(0), 0) =~= Seq::<TokenView>::empty());
        assert(encode_utf8(concat_text(texts.take(0))).len() == 0);
        lemma_reads_nothing(b, pos, false);
    } else {
        let last = entries[upto - 1];
        assert(texts.take(upto).drop_last() =~= texts.take(upto - 1));
        assert(texts.take(upto).last() == entry_text(last, level));
        let before = concat_text(texts.take(upto - 1));
        assert(concat_text(texts.take(upto)) == before + entry_text(last, level));
        lemma_stands_split(b, pos, before, entry_text(last, level));
        let mid = pos + encode_utf8(before).len();
        lemma_reads_entries(b, pos, entries, level, upto - 1);
        lemma_reads_entry(b, mid, last, level);
        lemma_reads_chain(
            b,
            pos,
            false,
            entries_tokens(entries.take(upto - 1), 0),
            mid,
            false,
            entry_tokens(last),
            mid + encode_utf8(entry_text(last, level)).len(),
            false,
        );
        assert(entries.take(upto) =~= entries.take(upto - 1).push(last));
        lemma_entries_tokens_push(entries.take(upto - 1), last, 0);
    }
}

/// A node as rendered is read as its tokens.
pub proof fn lemma_reads_branch(b: Seq<u8>, pos: int, branch: BranchView, level: nat)
    requires
        branch_ok(branch),
        branch_writable(branch),
        stands(b, pos, branch_text(branch, level)),
    ensures
        reads(
            b,
            pos,
            false,
            branch_tokens(branch),
            pos + encode_utf8(branch_text(branch, level)).len(),
            false,
        ),
    decreases branch, 1int,
{
    let pad = indent_text(level);
    let head = pad + branch.ident;
    let open = seq![' ', '{', '\n'];
    let texts = entry_texts(branch.entries, level + 1);
    let inner = concat_text(texts);
    let close = seq!['}', ';', '\n'];
    assert(branch_text(branch, level) == head + open + inner + pad + close);
    lemma_stands_split(b, pos, head + open + inner + pad, close);
    lemma_stands_split(b, pos, head + open + inner, pad);
    lemma_stands_split(b, pos, head + open, inner);
    lemma_stands_split(b, pos, head, open);
    let p1 = pos + encode_utf8(head).len();
    let p2 = p1 + 3;
    let p3 = p2 + encode_utf8(inner).len();
    let p4 = p3 + level;
    lemma_reads_spaced(b, p1, '{', '\n', TokenView::OpenBrace);
    lemma_reads_indent(b, p3, level, false);
    lemma_reads_close(b, p4);
    lemma_reads_indented_name(b, pos, level, branch.ident);
    assert(texts.take(texts.len() as int) =~= texts);
    assert(branch.entries.take(branch.entries.len() as int) =~= branch.entries);
    lemma_reads_entries(b, p2, branch.entries, level + 1, branch.entries.len() as int);
    let name = seq![TokenView::Ident(branch.ident)];
    let t1 = name + seq![TokenView::OpenBrace];
    let t2 = t1 + entries_tokens(branch.entries, 0);
    let shut = seq![TokenView::CloseBrace, TokenView::Semicolon];
    lemma_reads_chain(b, pos, false, name, p1, false, seq![TokenView::OpenBrace], p2, false);
    lemma_reads_chain(
        b,
        pos,
        false,
        t1,
        p2,
        false,
        entries_tokens(branch.entries, 0),
        p3,
        false,
    );
    lemma_reads_chain(b, pos, false, t2, p3, false, Seq::empty(), p4, false);
    lemma_reads_chain(b, pos, false, t2 + Seq::<TokenView>::empty(), p4, false, shut, p4 + 3, false);
    assert(branch_tokens(branch) =~= t2 + Seq::<TokenView>::empty() + shut);
}

/// A version record as rendered is read as its tokens.
pub proof fn lemma_reads_header(b: Seq<u8>, pos: int, version: u32)
    requires
        stands(b, pos, header_text(version)),
    ensures
        reads(
            b,
            pos,
            false,
            file_entry_tokens(FileEntryView::Header(version)),
            pos + encode_utf8(header_text(version)).len(),
            false,
        ),
{
    let mark = seq!['/', 'd', 't', 's', '-', 'v'];
    let digits = dec_digits(version as nat);
    let tail = seq!['/', ';', '\n', '\n'];
    assert(header_text(version) == mark + digits + tail);
    lemma_stands_split(b, pos, mark + digits, tail);
    lemma_stands_split(b, pos, mark, digits);
    lemma_encode_ascii(mark);
    assert(ascii_bytes(mark) =~= header_mark());
    let p1 = pos + 6;
    let p2 = p1 + encode_utf8(digits).len();
    assert(tail =~= seq!['/'] + seq![';', '\n'] + seq!['\n']);
    lemma_stands_split(b, p2, seq!['/'] + seq![';', '\n'], seq!['\n']);
    lemma_stands_split(b, p2, seq!['/'], seq![';', '\n']);
    lemma_stands_char(b, p2, '/');
    lemma_reads_tail(b, p2 + 1);
    lemma_reads_blank(b, p2 + 3, '\n', false);
    lemma_reads_header_mark(b, pos);
    lemma_reads_version(b, p1, version);
    assert(name_ok(seq!['/']));
    lemma_reads_name(b, p2, seq!['/']);
    let t1 = seq![TokenView::HeaderMark] + seq![TokenView::Integer(version as i64)];
    let t2 = t1 + seq![TokenView::Ident(seq!['/'])];
    let t3 = t2 + seq![TokenView::Semicolon];
    lemma_reads_chain(
        b,
        pos,
        false,
        seq![TokenView::HeaderMark],
        p1,
        false,
        seq![TokenView::Integer(version as i64)],
        p2,
        false,
    );
    lemma_reads_chain(
        b,
        pos,
        false,
        t1,
        p2,
        false,
        seq![TokenView::Ident(seq!['/'])],
        p2 + 1,
        false,
    );
    lemma_reads_chain(b, pos, false, t2, p2 + 1, false, seq![TokenView::Semicolon], p2 + 3, false);
    lemma_reads_chain(b, pos, false, t3, p2 + 3, false, Seq::empty(), p2 + 4, false);
    assert(file_entry_tokens(FileEntryView::Header(version)) =~= t3 + Seq::<TokenView>::empty());
}

/// The text of each top-level entry of a file, at level zero.
pub open spec fn file_entry_texts(file: Seq<FileEntryView>) -> Seq<Seq<char>> {
    Seq::new(file.len(), |i: int| file_entry_text(file[i], 0))
}

/// The first `upto` top-level entries of a file as rendered are read as
/// their tokens.
pub proof fn lemma_reads_file(b: Seq<u8>, pos: int, file: Seq<FileEntryView>, upto: int)
    requires
        0 <= upto <= file.len(),
        file_ok(file),
        file_writable(file),
        stands(b, pos, concat_text(file_entry_texts(file).take(upto))),
    ensures
        reads(
            b,
            pos,
            false,
            file_tokens(file.take(upto), 0),
            pos + encode_utf8(concat_text(file_entry_texts(file).take(upto))).len(),
            false,
        ),
    decreases upto,
{
    let texts = file_entry_texts(file);
    if upto == 0 {
        assert(file_tokens(file.take(0), 0) =~= Seq::<TokenView>::empty());
        assert(encode_utf8(concat_text(texts.take(0))).len() == 0);
        lemma_reads_nothing(b, pos, false);
    } else {
        let last = file[upto - 1];
        assert(texts.take(upto).drop_last() =~= texts.take(upto - 1));
        assert(texts.take(upto).last() == file_entry_text(last, 0));
        let before = concat_text(texts.take(upto - 1));
        assert(concat_text(texts.take(upto)) == before + file_entry_text(last, 0));
        lemma_stands_split(b, pos, before, file_entry_text(last, 0));
        let mid = pos + encode_utf8(before).len();
        lemma_reads_file(b, pos, file, upto - 1);
        match last {
            FileEntryView::Header(version) => {
                lemma_reads_header(b, mid, version);
            },
            FileEntryView::Branch(branch) => {
                lemma_reads_branch(b, mid, branch, 0);
            },
        }
        lemma_reads_chain(
            b,
            pos,
            false,
            file_tokens(file.take(upto - 1), 0),
            mid,
            false,
            file_entry_tokens(last),
            mid + encode_utf8(file_entry_text(last, 0)).len(),
            false,
        );
        assert(file.take(upto) =~= file.take(upto - 1).push(last));
        lemma_file_tokens_push(file.take(upto - 1), last, 0);
    }
}

/// The rendering of a file is lexed into the tokens of the file.
pub proof fn lemma_render_lexes(file: Seq<FileEntryView>)
    requires
        file_ok(file),
        file_writable(file),
    ensures
        lex_from(encode_utf8(file_text(file, 0)), 0, false) is Ok,
        kinds(lex_from(encode_utf8(file_text(file, 0)), 0, false)->Ok_0) == file_tokens(file, 0),
{
    let text = file_text(file, 0);
    let b = encode_utf8(text);
    let texts = file_entry_texts(file);
    assert(texts.take(file.len() as int) =~= texts);
    assert(file.take(file.len() as int) =~= file);
    assert(b.subrange(0, b.len() as int) =~= b);
    lemma_reads_file(b, 0, file, file.len() as int);
    assert(skip_blank(b, b.len() as int) == b.len());
    assert(lex_from(b, b.len() as int, false) == Ok::<Seq<SpannedView>, int>(Seq::empty()));
    assert(file_tokens(file, 0) + kinds(Seq::<SpannedView>::empty()) =~= file_tokens(file, 0));
}

/// Rendering and parsing are inverse on canonical texts: the rendering
/// of a file parses back to that file, so that rendering what was
/// parsed from it gives the same text again. The file is one that the
/// grammar can write and whose names and texts read back as written.
pub proof fn lemma_render_parses(file: Seq<FileEntryView>)
    requires
        file_ok(file),
        file_writable(file),
    ensures
        parse_spec(encode_utf8(file_text(file, 0))) == Ok::<
            Seq<FileEntryView>,
            crate::parser::ParseErrorView,
        >(file),
{
    lemma_render_lexes(file);
    lemma_parse_complete(file);
}

} // verus!
