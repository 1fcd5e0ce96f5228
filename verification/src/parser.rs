//! The parser: from tokens to the tree.
//!
//! The grammar is
//!
//! ```text
//! File   := Header? Branch*
//! Header := "/dts-v" INTEGER "/" ";"
//! Branch := IDENT "{" Entry* "}" ";"
//! Entry  := Branch | IDENT ";" | IDENT "=" Value ";"
//! Value  := "<" INTEGER* ">" | "[" BYTE* "]" | TEXT ("," TEXT)*
//! ```
//!
//! [`parse_file`] defines what a sequence of tokens parses to, and the
//! executable parser is proved to compute it.

use vstd::prelude::*;
use vstd::utf8::encode_utf8;
use crate::ast::{
    Branch, BranchEntry, BranchView, EntryView, File, FileEntry, FileEntryView, Header, Value,
    ValueView, entries_view, file_view, strings_view,
};
use crate::grammar::{file_ok, file_tokens, lemma_parse_exact};
use crate::render::file_text;
use crate::roundtrip::{file_writable, lemma_render_parses};
use crate::lexer::{Spanned, SpannedView, Token, TokenView, lex, lex_from, spanned_views};

verus! {

/// Why a text is not a file.
#[derive(Debug, PartialEq)]
pub enum ParseError {
    /// No token could be read at this byte offset.
    Lexical { at: usize },
    /// A token stands where the grammar allows none of its kind.
    UnrecognizedToken { token: Token, start: usize, end: usize },
    /// The text ends inside a construct.
    UnexpectedEnd,
}

/// Mathematical value of a [`ParseError`].
pub enum ParseErrorView {
    Lexical { at: int },
    UnrecognizedToken { token: TokenView, start: int, end: int },
    UnexpectedEnd,
}

impl View for ParseError {
    type V = ParseErrorView;

    open spec fn view(&self) -> ParseErrorView {
        match self {
            ParseError::Lexical { at } => ParseErrorView::Lexical { at: *at as int },
            ParseError::UnrecognizedToken { token, start, end } => {
                ParseErrorView::UnrecognizedToken {
                    token: token@,
                    start: *start as int,
                    end: *end as int,
                }
            },
            ParseError::UnexpectedEnd => ParseErrorView::UnexpectedEnd,
        }
    }
}

/// What parsing a construct at a position gives: its value and the
/// position after it, or the position of the token that does not fit
/// (the number of tokens, where they end too early).
pub enum Parsed<T> {
    Done { value: T, next: int },
    Failed { at: int },
}

/// The kinds of a sequence of tokens, without their spans.
pub open spec fn kinds(tokens: Seq<SpannedView>) -> Seq<TokenView> {
    Seq::new(tokens.len(), |i: int| tokens[i].token)
}

/// The end of the run of numbers that starts at `pos`.
pub open spec fn integers_end(ts: Seq<TokenView>, pos: int) -> int
    decreases ts.len() - pos,
{
    if 0 <= pos < ts.len() && ts[pos] is Integer {
        integers_end(ts, pos + 1)
    } else {
        pos
    }
}

/// The end of the run of bytes that starts at `pos`.
pub open spec fn bytes_end(ts: Seq<TokenView>, pos: int) -> int
    decreases ts.len() - pos,
{
    if 0 <= pos < ts.len() && ts[pos] is Byte {
        bytes_end(ts, pos + 1)
    } else {
        pos
    }
}

/// The numbers that the tokens from `from` up to `to` hold.
pub open spec fn integers_between(ts: Seq<TokenView>, from: int, to: int) -> Seq<i64> {
    Seq::new(
        (to - from) as nat,
        |i: int|
            match ts[from + i] {
                TokenView::Integer(v) => v,
                _ => 0i64,
            },
    )
}

/// The bytes that the tokens from `from` up to `to` hold.
pub open spec fn bytes_between(ts: Seq<TokenView>, from: int, to: int) -> Seq<u8> {
    Seq::new(
        (to - from) as nat,
        |i: int|
            match ts[from + i] {
                TokenView::Byte(b) => b,
                _ => 0u8,
            },
    )
}

/// `TEXT ("," TEXT)*` at `pos`.
pub open spec fn parse_texts(ts: Seq<TokenView>, pos: int) -> Parsed<Seq<Seq<char>>>
    decreases ts.len() - pos,
{
    if 0 <= pos < ts.len() && ts[pos] is Text {
        let text = ts[pos]->Text_0;
        if pos + 1 < ts.len() && ts[pos + 1] is Comma {
            match parse_texts(ts, pos + 2) {
                Parsed::Done { value, next } => Parsed::Done { value: seq![text] + value, next },
                Parsed::Failed { at } => Parsed::Failed { at },
            }
        } else {
            Parsed::Done { value: seq![text], next: pos + 1 }
        }
    } else {
        Parsed::Failed { at: pos }
    }
}

/// `Value` at `pos`.
pub open spec fn parse_value(ts: Seq<TokenView>, pos: int) -> Parsed<ValueView> {
    if pos < 0 || pos >= ts.len() {
        Parsed::Failed { at: pos }
    } else {
        match ts[pos] {
            TokenView::OpenAngle => {
                let end = integers_end(ts, pos + 1);
                if end < ts.len() && ts[end] is CloseAngle {
                    Parsed::Done {
                        value: ValueView::IntegerList(integers_between(ts, pos + 1, end)),
                        next: end + 1,
                    }
                } else {
                    Parsed::Failed { at: end }
                }
            },
            TokenView::OpenBracket => {
                let end = bytes_end(ts, pos + 1);
                if end < ts.len() && ts[end] is CloseBracket {
                    Parsed::Done {
                        value: ValueView::ByteList(bytes_between(ts, pos + 1, end)),
                        next: end + 1,
                    }
                } else {
                    Parsed::Failed { at: end }
                }
            },
            TokenView::Text(_) => match parse_texts(ts, pos) {
                Parsed::Done { value, next } => Parsed::Done {
                    value: ValueView::StringList(value),
                    next,
                },
                Parsed::Failed { at } => Parsed::Failed { at },
            },
            _ => Parsed::Failed { at: pos },
        }
    }
}

/// `Entry` at `pos`.
pub open spec fn parse_entry(ts: Seq<TokenView>, pos: int) -> Parsed<EntryView>
    decreases ts.len() - pos, 0int,
{
    if pos < 0 || pos >= ts.len() {
        Parsed::Failed { at: pos }
    } else {
        match ts[pos] {
            TokenView::Ident(name) => if pos + 1 >= ts.len() {
                Parsed::Failed { at: pos + 1 }
            } else {
                match ts[pos + 1] {
                    TokenView::Semicolon => Parsed::Done {
                        value: EntryView::Key(name),
                        next: pos + 2,
                    },
                    TokenView::Equals => match parse_value(ts, pos + 2) {
                        Parsed::Done { value, next } => if 0 <= next < ts.len()
                            && ts[next] is Semicolon {
                            Parsed::Done {
                                value: EntryView::KeyValue { key: name, value },
                                next: next + 1,
                            }
                        } else {
                            Parsed::Failed { at: next }
                        },
                        Parsed::Failed { at } => Parsed::Failed { at },
                    },
                    TokenView::OpenBrace => match parse_entries(ts, pos + 2) {
                        Parsed::Done { value, next } => if 0 <= next < ts.len()
                            && ts[next] is Semicolon {
                            Parsed::Done {
                                value: EntryView::Branch(
                                    BranchView { ident: name, entries: value },
                                ),
                                next: next + 1,
                            }
                        } else {
                            Parsed::Failed { at: next }
                        },
                        Parsed::Failed { at } => Parsed::Failed { at },
                    },
                    _ => Parsed::Failed { at: pos + 1 },
                }
            },
            _ => Parsed::Failed { at: pos },
        }
    }
}

/// `Entry* "}"` at `pos`.
pub open spec fn parse_entries(ts: Seq<TokenView>, pos: int) -> Parsed<Seq<EntryView>>
    decreases ts.len() - pos, 1int,
{
    if pos < 0 || pos >= ts.len() {
        Parsed::Failed { at: pos }
    } else if ts[pos] is CloseBrace {
        Parsed::Done { value: Seq::empty(), next: pos + 1 }
    } else {
        match parse_entry(ts, pos) {
            Parsed::Done { value, next } => if pos < next <= ts.len() {
                match parse_entries(ts, next) {
                    Parsed::Done { value: rest, next: after } => Parsed::Done {
                        value: seq![value] + rest,
                        next: after,
                    },
                    Parsed::Failed { at } => Parsed::Failed { at },
                }
            } else {
                Parsed::Failed { at: pos }
            },
            Parsed::Failed { at } => Parsed::Failed { at },
        }
    }
}

/// `Branch*` from `pos` to the end of the tokens.
pub open spec fn parse_branches(ts: Seq<TokenView>, pos: int) -> Parsed<Seq<FileEntryView>>
    decreases ts.len() - pos,
{
    if pos < 0 || pos >= ts.len() {
        Parsed::Done { value: Seq::empty(), next: pos }
    } else if !(ts[pos] is Ident) {
        Parsed::Failed { at: pos }
    } else if pos + 1 < ts.len() && !(ts[pos + 1] is OpenBrace) {
        Parsed::Failed { at: pos + 1 }
    } else {
        match parse_entry(ts, pos) {
            Parsed::Done { value: EntryView::Branch(branch), next } => if pos < next <= ts.len() {
                match parse_branches(ts, next) {
                    Parsed::Done { value: rest, next: after } => Parsed::Done {
                        value: seq![FileEntryView::Branch(branch)] + rest,
                        next: after,
                    },
                    Parsed::Failed { at } => Parsed::Failed { at },
                }
            } else {
                Parsed::Failed { at: pos }
            },
            Parsed::Done { .. } => Parsed::Failed { at: pos },
            Parsed::Failed { at } => Parsed::Failed { at },
        }
    }
}

/// The name that closes the version record.
pub open spec fn slash() -> Seq<char> {
    seq!['/']
}

/// `Header?` at the start: the version, and the position after the record.
pub open spec fn parse_header(ts: Seq<TokenView>) -> Parsed<Option<u32>> {
    if ts.len() > 0 && ts[0] is HeaderMark {
        if !(1 < ts.len() && ts[1] is Integer && 0 <= ts[1]->Integer_0 <= u32::MAX) {
            Parsed::Failed { at: 1 }
        } else if !(2 < ts.len() && ts[2] == TokenView::Ident(slash())) {
            Parsed::Failed { at: 2 }
        } else if !(3 < ts.len() && ts[3] is Semicolon) {
            Parsed::Failed { at: 3 }
        } else {
            Parsed::Done { value: Some(ts[1]->Integer_0 as u32), next: 4 }
        }
    } else {
        Parsed::Done { value: None, next: 0 }
    }
}

/// `File`: all the tokens.
pub open spec fn parse_file(ts: Seq<TokenView>) -> Parsed<Seq<FileEntryView>> {
    match parse_header(ts) {
        Parsed::Failed { at } => Parsed::Failed { at },
        Parsed::Done { value: header, next } => match parse_branches(ts, next) {
            Parsed::Failed { at } => Parsed::Failed { at },
            Parsed::Done { value: branches, next: after } => Parsed::Done {
                value: match header {
                    Some(version) => seq![FileEntryView::Header(version)] + branches,
                    None => branches,
                },
                next: after,
            },
        },
    }
}

/// The error for the token at index `at`, or for the end of the tokens.
pub open spec fn failure_at(tokens: Seq<SpannedView>, at: int) -> ParseErrorView {
    if 0 <= at < tokens.len() {
        ParseErrorView::UnrecognizedToken {
            token: tokens[at].token,
            start: tokens[at].start,
            end: tokens[at].end,
        }
    } else {
        ParseErrorView::UnexpectedEnd
    }
}

/// What a sequence of tokens parses to.
pub open spec fn parse_tokens_spec(tokens: Seq<SpannedView>) -> Result<
    Seq<FileEntryView>,
    ParseErrorView,
> {
    match parse_file(kinds(tokens)) {
        Parsed::Done { value, .. } => Ok(value),
        Parsed::Failed { at } => Err(failure_at(tokens, at)),
    }
}

/// What the bytes of a text parse to.
pub open spec fn parse_spec(bytes: Seq<u8>) -> Result<Seq<FileEntryView>, ParseErrorView> {
    match lex_from(bytes, 0, false) {
        Ok(tokens) => parse_tokens_spec(tokens),
        Err(at) => Err(ParseErrorView::Lexical { at }),
    }
}

/// The kinds of the tokens of a vector.
pub open spec fn token_kinds(tokens: Seq<Spanned>) -> Seq<TokenView> {
    kinds(spanned_views(tokens))
}

fn integers_at(tokens: &Vec<Spanned>, pos: usize) -> (out: (Vec<i64>, usize))
    requires
        pos <= tokens@.len(),
    ensures
        out.1 == integers_end(token_kinds(tokens@), pos as int),
        pos <= out.1 <= tokens@.len(),
        out.0@ == integers_between(token_kinds(tokens@), pos as int, out.1 as int),
{
    let ghost ts = token_kinds(tokens@);
    let mut cells: Vec<i64> = Vec::new();
    let mut i = pos;
    assert(cells@ =~= integers_between(ts, pos as int, i as int));
    while i < tokens.len()
        invariant
            pos <= i <= tokens@.len(),
            ts == token_kinds(tokens@),
            integers_end(ts, pos as int) == integers_end(ts, i as int),
            cells@ == integers_between(ts, pos as int, i as int),
        decreases tokens@.len() - i,
    {
        assert(ts[i as int] == tokens@[i as int].token@);
        match &tokens[i].token {
            Token::Integer(v) => {
                cells.push(*v);
                i += 1;
                assert(cells@ =~= integers_between(ts, pos as int, i as int));
            },
            _ => {
                return (cells, i);
            },
        }
    }
    (cells, i)
}

fn bytes_at(tokens: &Vec<Spanned>, pos: usize) -> (out: (Vec<u8>, usize))
    requires
        pos <= tokens@.len(),
    ensures
        out.1 == bytes_end(token_kinds(tokens@), pos as int),
        pos <= out.1 <= tokens@.len(),
        out.0@ == bytes_between(token_kinds(tokens@), pos as int, out.1 as int),
{
    let ghost ts = token_kinds(tokens@);
    let mut bytes: Vec<u8> = Vec::new();
    let mut i = pos;
    assert(bytes@ =~= bytes_between(ts, pos as int, i as int));
    while i < tokens.len()
        invariant
            pos <= i <= tokens@.len(),
            ts == token_kinds(tokens@),
            bytes_end(ts, pos as int) == bytes_end(ts, i as int),
            bytes@ == bytes_between(ts, pos as int, i as int),
        decreases tokens@.len() - i,
    {
        assert(ts[i as int] == tokens@[i as int].token@);
        match &tokens[i].token {
            Token::Byte(b) => {
                bytes.push(*b);
                i += 1;
                assert(bytes@ =~= bytes_between(ts, pos as int, i as int));
            },
            _ => {
                return (bytes, i);
            },
        }
    }
    (bytes, i)
}

fn texts_at(tokens: &Vec<Spanned>, pos: usize) -> (out: Result<(Vec<String>, usize), usize>)
    requires
        pos < tokens@.len(),
        token_kinds(tokens@)[pos as int] is Text,
    ensures
        match parse_texts(token_kinds(tokens@), pos as int) {
            Parsed::Done { value, next } => out matches Ok(got) && strings_view(got.0@) == value
                && got.1 == next && pos < next <= tokens@.len(),
            Parsed::Failed { at } => out matches Err(e) && e == at && pos <= at <= tokens@.len(),
        },
{
    let ghost ts = token_kinds(tokens@);
    let mut texts: Vec<String> = Vec::new();
    let mut cur = pos;
    loop
        invariant
            pos <= cur < tokens@.len(),
            ts == token_kinds(tokens@),
            ts[cur as int] is Text,
            match parse_texts(ts, cur as int) {
                Parsed::Done { value, next } => parse_texts(ts, pos as int) == (Parsed::Done {
                    value: strings_view(texts@) + value,
                    next,
                }),
                Parsed::Failed { at } => parse_texts(ts, pos as int) == (Parsed::<
                    Seq<Seq<char>>,
                >::Failed { at }),
            },
        decreases tokens@.len() - cur,
    {
        assert(ts[cur as int] == tokens@[cur as int].token@);
        let ghost before = strings_view(texts@);
        match &tokens[cur].token {
            Token::Text(text) => {
                texts.push(text.clone());
            },
            _ => {},
        }
        assert(strings_view(texts@) =~= before + seq![ts[cur as int]->Text_0]);
        let more = tokens.len() - cur > 1 && match &tokens[cur + 1].token {
            Token::Comma => true,
            _ => false,
        };
        if cur + 1 < tokens.len() {
            assert(ts[cur + 1] == tokens@[cur + 1].token@);
        }
        if !more {
            return Ok((texts, cur + 1));
        }
        let follows = tokens.len() - cur > 2 && match &tokens[cur + 2].token {
            Token::Text(_) => true,
            _ => false,
        };
        if cur + 2 < tokens.len() {
            assert(ts[cur + 2] == tokens@[cur + 2].token@);
        }
        if !follows {
            return Err(cur + 2);
        }
        proof {
            match parse_texts(ts, cur + 2) {
                Parsed::Done { value, next } => {
                    assert(before + (seq![ts[cur as int]->Text_0] + value) =~= strings_view(texts@)
                        + value);
                },
                Parsed::Failed { at } => {},
            }
        }
        cur = cur + 2;
    }
}

fn value_at(tokens: &Vec<Spanned>, pos: usize) -> (out: Result<(Value, usize), usize>)
    requires
        pos <= tokens@.len(),
    ensures
        match parse_value(token_kinds(tokens@), pos as int) {
            Parsed::Done { value, next } => out matches Ok(got) && got.0@ == value && got.1
                == next && pos < next <= tokens@.len(),
            Parsed::Failed { at } => out matches Err(e) && e == at && pos <= at <= tokens@.len(),
        },
{
    let ghost ts = token_kinds(tokens@);
    if pos >= tokens.len() {
        return Err(pos);
    }
    assert(ts[pos as int] == tokens@[pos as int].token@);
    match &tokens[pos].token {
        Token::OpenAngle => {
            let (cells, end) = integers_at(tokens, pos + 1);
            if end < tokens.len() {
                assert(ts[end as int] == tokens@[end as int].token@);
            }
            let closed = end < tokens.len() && match &tokens[end].token {
                Token::CloseAngle => true,
                _ => false,
            };
            if closed {
                Ok((Value::IntegerList(cells), end + 1))
            } else {
                Err(end)
            }
        },
        Token::OpenBracket => {
            let (bytes, end) = bytes_at(tokens, pos + 1);
            if end < tokens.len() {
                assert(ts[end as int] == tokens@[end as int].token@);
            }
            let closed = end < tokens.len() && match &tokens[end].token {
                Token::CloseBracket => true,
                _ => false,
            };
            if closed {
                Ok((Value::ByteList(bytes), end + 1))
            } else {
                Err(end)
            }
        },
        Token::Text(_) => match texts_at(tokens, pos) {
            Ok((texts, next)) => Ok((Value::StringList(texts), next)),
            Err(at) => Err(at),
        },
        _ => Err(pos),
    }
}

fn semicolon_at(tokens: &Vec<Spanned>, pos: usize) -> (found: bool)
    requires
        pos <= tokens@.len(),
    ensures
        found == (pos < tokens@.len() && token_kinds(tokens@)[pos as int] is Semicolon),
{
    if pos < tokens.len() {
        assert(token_kinds(tokens@)[pos as int] == tokens@[pos as int].token@);
    }
    pos < tokens.len() && match &tokens[pos].token {
        Token::Semicolon => true,
        _ => false,
    }
}

fn entry_at(tokens: &Vec<Spanned>, pos: usize) -> (out: Result<(BranchEntry, usize), usize>)
    requires
        pos <= tokens@.len(),
    ensures
        match parse_entry(token_kinds(tokens@), pos as int) {
            Parsed::Done { value, next } => out matches Ok(got) && got.0@ == value && got.1
                == next && pos < next <= tokens@.len(),
            Parsed::Failed { at } => out matches Err(e) && e == at && pos <= at <= tokens@.len(),
        },
    decreases tokens@.len() - pos, 0int,
{
    let ghost ts = token_kinds(tokens@);
    if pos >= tokens.len() {
        return Err(pos);
    }
    assert(ts[pos as int] == tokens@[pos as int].token@);
    match &tokens[pos].token {
        Token::Ident(name) => {
            if tokens.len() - pos <= 1 {
                return Err(pos + 1);
            }
            assert(ts[pos + 1] == tokens@[pos + 1].token@);
            match &tokens[pos + 1].token {
                Token::Semicolon => Ok((BranchEntry::Key(name.clone()), pos + 2)),
                Token::Equals => match value_at(tokens, pos + 2) {
                    Ok((value, next)) => {
                        if semicolon_at(tokens, next) {
                            Ok((BranchEntry::KeyValue { key: name.clone(), value }, next + 1))
                        } else {
                            Err(next)
                        }
                    },
                    Err(at) => Err(at),
                },
                Token::OpenBrace => match entries_at(tokens, pos + 2) {
                    Ok((entries, next)) => {
                        if semicolon_at(tokens, next) {
                            Ok(
                                (
                                    BranchEntry::Branch(Branch { ident: name.clone(), entries }),
                                    next + 1,
                                ),
                            )
                        } else {
                            Err(next)
                        }
                    },
                    Err(at) => Err(at),
                },
                _ => Err(pos + 1),
            }
        },
        _ => Err(pos),
    }
}

fn entries_at(tokens: &Vec<Spanned>, pos: usize) -> (out: Result<(Vec<BranchEntry>, usize), usize>)
    requires
        pos <= tokens@.len(),
    ensures
        match parse_entries(token_kinds(tokens@), pos as int) {
            Parsed::Done { value, next } => out matches Ok(got) && entries_view(got.0@) == value
                && got.1 == next && pos < next <= tokens@.len(),
            Parsed::Failed { at } => out matches Err(e) && e == at && pos <= at <= tokens@.len(),
        },
    decreases tokens@.len() - pos, 1int,
{
    let ghost ts = token_kinds(tokens@);
    let mut entries: Vec<BranchEntry> = Vec::new();
    let mut cur = pos;
    assert(entries_view(entries@) =~= Seq::<EntryView>::empty());
    loop
        invariant
            pos <= cur <= tokens@.len(),
            ts == token_kinds(tokens@),
            match parse_entries(ts, cur as int) {
                Parsed::Done { value, next } => parse_entries(ts, pos as int) == (Parsed::Done {
                    value: entries_view(entries@) + value,
                    next,
                }),
                Parsed::Failed { at } => parse_entries(ts, pos as int) == (Parsed::<
                    Seq<EntryView>,
                >::Failed { at }),
            },
        decreases tokens@.len() - cur,
    {
        if cur >= tokens.len() {
            return Err(cur);
        }
        assert(ts[cur as int] == tokens@[cur as int].token@);
        let closed = match &tokens[cur].token {
            Token::CloseBrace => true,
            _ => false,
        };
        if closed {
            assert(entries_view(entries@) + Seq::<EntryView>::empty() =~= entries_view(entries@));
            return Ok((entries, cur + 1));
        }
        match entry_at(tokens, cur) {
            Ok((entry, next)) => {
                let ghost before = entries_view(entries@);
                entries.push(entry);
                proof {
                    assert(entries_view(entries@) =~= before + seq![entry@]);
                    match parse_entries(ts, next as int) {
                        Parsed::Done { value, next: after } => {
                            assert(before + (seq![entry@] + value) =~= entries_view(entries@)
                                + value);
                        },
                        Parsed::Failed { at } => {},
                    }
                }
                cur = next;
            },
            Err(at) => {
                return Err(at);
            },
        }
    }
}

fn failure(tokens: &Vec<Spanned>, at: usize) -> (error: ParseError)
    ensures
        error@ == failure_at(spanned_views(tokens@), at as int),
{
    if at < tokens.len() {
        ParseError::UnrecognizedToken {
            token: tokens[at].token.clone(),
            start: tokens[at].start,
            end: tokens[at].end,
        }
    } else {
        ParseError::UnexpectedEnd
    }
}

fn header_at(tokens: &Vec<Spanned>) -> (out: Result<(Option<u32>, usize), usize>)
    ensures
        match parse_header(token_kinds(tokens@)) {
            Parsed::Done { value, next } => out matches Ok(got) && got.0 == value && got.1 == next
                && next <= tokens@.len(),
            Parsed::Failed { at } => out matches Err(e) && e == at,
        },
{
    let ghost ts = token_kinds(tokens@);
    let count = tokens.len();
    if count > 0 {
        assert(ts[0] == tokens@[0].token@);
    }
    let marked = count > 0 && match &tokens[0].token {
        Token::HeaderMark => true,
        _ => false,
    };
    if !marked {
        return Ok((None, 0));
    }
    if count <= 1 {
        return Err(1);
    }
    assert(ts[1] == tokens@[1].token@);
    let version: u32 = match &tokens[1].token {
        Token::Integer(v) => {
            if 0 <= *v && *v <= 0xffff_ffff {
                *v as u32
            } else {
                return Err(1);
            }
        },
        _ => {
            return Err(1);
        },
    };
    if count <= 2 {
        return Err(2);
    }
    assert(ts[2] == tokens@[2].token@);
    let closed = match &tokens[2].token {
        Token::Ident(name) => {
            let ok = name.as_str().unicode_len() == 1 && name.as_str().get_char(0) == '/';
            proof {
                if ok {
                    assert(name@ =~= slash());
                }
            }
            ok
        },
        _ => false,
    };
    if !closed {
        return Err(2);
    }
    if !semicolon_at(tokens, 3) {
        return Err(3);
    }
    Ok((Some(version), 4))
}

fn file_at_start(tokens: &Vec<Spanned>) -> (result: Result<File, ParseError>)
    ensures
        match result {
            Ok(file) => parse_tokens_spec(spanned_views(tokens@)) == Ok::<
                Seq<FileEntryView>,
                ParseErrorView,
            >(file_view(file@)),
            Err(e) => parse_tokens_spec(spanned_views(tokens@)) == Err::<
                Seq<FileEntryView>,
                ParseErrorView,
            >(e@),
        },
{
    let ghost ts = token_kinds(tokens@);
    let mut file: Vec<FileEntry> = Vec::new();
    let (header, start) = match header_at(tokens) {
        Ok(got) => got,
        Err(at) => {
            return Err(failure(tokens, at));
        },
    };
    match header {
        Some(version) => {
            file.push(FileEntry::Header(Header { version }));
        },
        None => {},
    }
    let ghost head = file_view(file@);
    assert(head =~= match header {
        Some(version) => seq![FileEntryView::Header(version)],
        None => Seq::empty(),
    });
    let ghost mut parsed: Seq<FileEntryView> = Seq::empty();
    let mut cur = start;
    assert(file_view(file@) =~= head + parsed);
    loop
        invariant
            start <= cur <= tokens@.len(),
            ts == token_kinds(tokens@),
            file_view(file@) == head + parsed,
            parse_header(ts) == (Parsed::Done { value: header, next: start as int }),
            head == match header {
                Some(version) => seq![FileEntryView::Header(version)],
                None => Seq::empty(),
            },
            match parse_branches(ts, cur as int) {
                Parsed::Done { value, next } => parse_branches(ts, start as int) == (Parsed::Done {
                    value: parsed + value,
                    next,
                }),
                Parsed::Failed { at } => parse_branches(ts, start as int) == (Parsed::<
                    Seq<FileEntryView>,
                >::Failed { at }),
            },
        decreases tokens@.len() - cur,
    {
        if cur >= tokens.len() {
            proof {
                assert(parsed + Seq::<FileEntryView>::empty() =~= parsed);
                assert(header is None ==> head + parsed =~= parsed);
            }
            return Ok(file);
        }
        assert(ts[cur as int] == tokens@[cur as int].token@);
        let named = match &tokens[cur].token {
            Token::Ident(_) => true,
            _ => false,
        };
        if !named {
            return Err(failure(tokens, cur));
        }
        if tokens.len() - cur > 1 {
            assert(ts[cur + 1] == tokens@[cur + 1].token@);
            let opened = match &tokens[cur + 1].token {
                Token::OpenBrace => true,
                _ => false,
            };
            if !opened {
                return Err(failure(tokens, cur + 1));
            }
        }
        match entry_at(tokens, cur) {
            Ok((entry, next)) => {
                match entry {
                    BranchEntry::Branch(branch) => {
                        let ghost before = file_view(file@);
                        let ghost was = parsed;
                        file.push(FileEntry::Branch(branch));
                        proof {
                            parsed = parsed.push(FileEntryView::Branch(branch@));
                            assert(file_view(file@) =~= before.push(
                                FileEntryView::Branch(branch@),
                            ));
                            assert(file_view(file@) =~= head + parsed);
                            match parse_branches(ts, next as int) {
                                Parsed::Done { value, next: after } => {
                                    assert(was + (seq![FileEntryView::Branch(branch@)] + value)
                                        =~= parsed + value);
                                },
                                Parsed::Failed { at } => {},
                            }
                        }
                        cur = next;
                    },
                    _ => {
                        return Err(failure(tokens, cur));
                    },
                }
            },
            Err(at) => {
                return Err(failure(tokens, at));
            },
        }
    }
}

/// Parses the tokens of a whole text into a file.
///
/// Fails with the first token that stands where the grammar allows
/// none of its kind, or with [`ParseError::UnexpectedEnd`] where the
/// tokens end inside a construct. Every token has to belong to the
/// file: none may follow its last entry.
///
/// It succeeds exactly on the tokens of a file that the grammar can
/// write, and then gives that file.
pub fn parse_tokens(tokens: &Vec<Spanned>) -> (result: Result<File, ParseError>)
    ensures
        match result {
            Ok(file) => parse_tokens_spec(spanned_views(tokens@)) == Ok::<
                Seq<FileEntryView>,
                ParseErrorView,
            >(file_view(file@)),
            Err(e) => parse_tokens_spec(spanned_views(tokens@)) == Err::<
                Seq<FileEntryView>,
                ParseErrorView,
            >(e@),
        },
        result matches Ok(file) ==> file_ok(file_view(file@)) && file_tokens(file_view(file@), 0)
            == token_kinds(tokens@),
        forall|file: Seq<FileEntryView>|
            file_ok(file) && #[trigger] file_tokens(file, 0) == token_kinds(tokens@) ==> result is Ok
                && file_view(result->Ok_0@) == file,
{
    let result = file_at_start(tokens);
    proof {
        if result is Ok {
            lemma_parse_exact(token_kinds(tokens@), file_view(result->Ok_0@));
        }
        assert forall|file: Seq<FileEntryView>|
            file_ok(file) && #[trigger] file_tokens(file, 0) == token_kinds(
                tokens@,
            ) implies result is Ok && file_view(result->Ok_0@) == file by {
            lemma_parse_exact(token_kinds(tokens@), file);
        }
    }
    result
}

/// Parses a source text into a file.
///
/// Fails with the byte offset at which no token can be read, with the
/// first token that the grammar does not allow where it stands, or with
/// [`ParseError::UnexpectedEnd`] where the text ends inside a construct.
///
/// The rendering of a file parses back to that file; rendering the
/// result then gives the same text again.
pub fn parse(data: &str) -> (result: Result<File, ParseError>)
    ensures
        match result {
            Ok(file) => parse_spec(encode_utf8(data@)) == Ok::<Seq<FileEntryView>, ParseErrorView>(
                file_view(file@),
            ),
            Err(e) => parse_spec(encode_utf8(data@)) == Err::<Seq<FileEntryView>, ParseErrorView>(
                e@,
            ),
        },
        forall|file: Seq<FileEntryView>|
            file_ok(file) && file_writable(file) && data@ == #[trigger] file_text(file, 0)
                ==> result is Ok && file_view(result->Ok_0@) == file,
{
    proof {
        assert forall|file: Seq<FileEntryView>|
            file_ok(file) && file_writable(file) && data@ == #[trigger] file_text(
                file,
                0,
            ) implies parse_spec(encode_utf8(data@)) == Ok::<Seq<FileEntryView>, ParseErrorView>(
            file,
        ) by {
            lemma_render_parses(file);
        }
    }
    match lex(data.as_bytes()) {
        Ok(tokens) => parse_tokens(&tokens),
        Err(e) => Err(ParseError::Lexical { at: e.at }),
    }
}

} // verus!
