//! The grammar stated from the tree's side: the tokens that a tree is
//! written with. A sequence of tokens parses to a file exactly where it
//! is the tokens of that file, and a well-formed file is the only one
//! that its tokens parse to.

use vstd::prelude::*;
use crate::ast::{BranchView, EntryView, FileEntryView, ValueView};
use crate::lexer::TokenView;
use crate::parser::{
    Parsed, bytes_between, bytes_end, integers_between, integers_end, parse_branches, parse_entries,
    parse_entry, parse_file, parse_header, parse_texts, parse_value, slash,
};

verus! {

/// One number token for each cell.
pub open spec fn integer_tokens(cells: Seq<i64>) -> Seq<TokenView> {
    Seq::new(cells.len(), |i: int| TokenView::Integer(cells[i]))
}

/// One byte token for each byte.
pub open spec fn byte_tokens(bytes: Seq<u8>) -> Seq<TokenView> {
    Seq::new(bytes.len(), |i: int| TokenView::Byte(bytes[i]))
}

/// The text literals with a comma between each two neighbours.
pub open spec fn text_tokens(texts: Seq<Seq<char>>) -> Seq<TokenView>
    decreases texts.len(),
{
    if texts.len() == 0 {
        Seq::empty()
    } else if texts.len() == 1 {
        seq![TokenView::Text(texts[0])]
    } else {
        seq![TokenView::Text(texts[0]), TokenView::Comma] + text_tokens(texts.drop_first())
    }
}

/// The tokens of a value.
pub open spec fn value_tokens(value: ValueView) -> Seq<TokenView> {
    match value {
        ValueView::IntegerList(cells) => seq![TokenView::OpenAngle] + integer_tokens(cells)
            + seq![TokenView::CloseAngle],
        ValueView::ByteList(bytes) => seq![TokenView::OpenBracket] + byte_tokens(bytes)
            + seq![TokenView::CloseBracket],
        ValueView::StringList(texts) => text_tokens(texts),
    }
}

/// The tokens of an entry.
pub open spec fn entry_tokens(entry: EntryView) -> Seq<TokenView>
    decreases entry, 0int,
{
    match entry {
        EntryView::Branch(branch) => branch_tokens(branch),
        EntryView::Key(ident) => seq![TokenView::Ident(ident), TokenView::Semicolon],
        EntryView::KeyValue { key, value } => seq![TokenView::Ident(key), TokenView::Equals]
            + value_tokens(value) + seq![TokenView::Semicolon],
    }
}

/// The tokens of the entries from `from` on, one entry after the other.
pub open spec fn entries_tokens(entries: Seq<EntryView>, from: int) -> Seq<TokenView>
    decreases entries, entries.len() - from,
{
    if from < 0 || from >= entries.len() {
        Seq::empty()
    } else {
        entry_tokens(entries[from]) + entries_tokens(entries, from + 1)
    }
}

/// The tokens of a node: its name, `{`, its entries, `}` and `;`.
pub open spec fn branch_tokens(branch: BranchView) -> Seq<TokenView>
    decreases branch, 1int,
{
    seq![TokenView::Ident(branch.ident), TokenView::OpenBrace] + entries_tokens(branch.entries, 0)
        + seq![TokenView::CloseBrace, TokenView::Semicolon]
}

/// The tokens of a top-level entry.
pub open spec fn file_entry_tokens(entry: FileEntryView) -> Seq<TokenView> {
    match entry {
        FileEntryView::Header(version) => seq![
            TokenView::HeaderMark,
            TokenView::Integer(version as i64),
            TokenView::Ident(slash()),
            TokenView::Semicolon,
        ],
        FileEntryView::Branch(branch) => branch_tokens(branch),
    }
}

/// The tokens of the top-level entries from `from` on.
pub open spec fn file_tokens(file: Seq<FileEntryView>, from: int) -> Seq<TokenView>
    decreases file.len() - from,
{
    if from < 0 || from >= file.len() {
        Seq::empty()
    } else {
        file_entry_tokens(file[from]) + file_tokens(file, from + 1)
    }
}

/// A value that the grammar can write: a list of texts holds one at least.
pub open spec fn value_ok(value: ValueView) -> bool {
    value matches ValueView::StringList(texts) ==> texts.len() >= 1
}

/// An entry whose values the grammar can write.
pub open spec fn entry_ok(entry: EntryView) -> bool
    decreases entry, 0int,
{
    match entry {
        EntryView::Branch(branch) => branch_ok(branch),
        EntryView::Key(_) => true,
        EntryView::KeyValue { value, .. } => value_ok(value),
    }
}

/// A node whose values the grammar can write.
pub open spec fn branch_ok(branch: BranchView) -> bool
    decreases branch, 1int,
{
    forall|i: int| 0 <= i < branch.entries.len() ==> entry_ok(#[trigger] branch.entries[i])
}

/// A file that the grammar can write: a version record stands first
/// only, and every value can be written.
pub open spec fn file_ok(file: Seq<FileEntryView>) -> bool {
    forall|i: int|
        0 <= i < file.len() ==> match #[trigger] file[i] {
            FileEntryView::Header(_) => i == 0,
            FileEntryView::Branch(branch) => branch_ok(branch),
        }
}

/// A top-level entry that is a node whose values the grammar can write.
pub open spec fn node_ok(entry: FileEntryView) -> bool {
    entry is Branch && branch_ok(entry->Branch_0)
}

/// Whether `pattern` stands in `ts` at `pos`.
pub open spec fn occurs_at(ts: Seq<TokenView>, pos: int, pattern: Seq<TokenView>) -> bool {
    0 <= pos && pos + pattern.len() <= ts.len() && ts.subrange(pos, pos + pattern.len())
        == pattern
}

/// The tokens of entries with one more in front.
pub proof fn lemma_entries_tokens_shift(first: EntryView, rest: Seq<EntryView>, from: int)
    requires
        0 <= from,
    ensures
        entries_tokens(seq![first] + rest, from + 1) == entries_tokens(rest, from),
    decreases rest.len() - from,
{
    let all = seq![first] + rest;
    if from < rest.len() {
        assert(all[from + 1] == rest[from]);
        lemma_entries_tokens_shift(first, rest, from + 1);
    }
}

/// The tokens of top-level entries with one more in front.
pub proof fn lemma_file_tokens_shift(first: FileEntryView, rest: Seq<FileEntryView>, from: int)
    requires
        0 <= from,
    ensures
        file_tokens(seq![first] + rest, from + 1) == file_tokens(rest, from),
    decreases rest.len() - from,
{
    let all = seq![first] + rest;
    if from < rest.len() {
        assert(all[from + 1] == rest[from]);
        lemma_file_tokens_shift(first, rest, from + 1);
    }
}

/// A run of numbers ends at the first token that is none.
pub proof fn lemma_integers_run(ts: Seq<TokenView>, pos: int)
    requires
        0 <= pos <= ts.len(),
    ensures
        pos <= integers_end(ts, pos) <= ts.len(),
        forall|k: int| pos <= k < integers_end(ts, pos) ==> #[trigger] ts[k] is Integer,
        integers_end(ts, pos) < ts.len() ==> !(ts[integers_end(ts, pos)] is Integer),
    decreases ts.len() - pos,
{
    if pos < ts.len() && ts[pos] is Integer {
        lemma_integers_run(ts, pos + 1);
    }
}

/// A run of bytes ends at the first token that is none.
pub proof fn lemma_bytes_run(ts: Seq<TokenView>, pos: int)
    requires
        0 <= pos <= ts.len(),
    ensures
        pos <= bytes_end(ts, pos) <= ts.len(),
        forall|k: int| pos <= k < bytes_end(ts, pos) ==> #[trigger] ts[k] is Byte,
        bytes_end(ts, pos) < ts.len() ==> !(ts[bytes_end(ts, pos)] is Byte),
    decreases ts.len() - pos,
{
    if pos < ts.len() && ts[pos] is Byte {
        lemma_bytes_run(ts, pos + 1);
    }
}

/// What `parse_texts` accepts is the tokens of the texts it gives.
pub proof fn lemma_texts_sound(ts: Seq<TokenView>, pos: int)
    requires
        parse_texts(ts, pos) is Done,
    ensures
        parse_texts(ts, pos)->value.len() >= 1,
        occurs_at(ts, pos, text_tokens(parse_texts(ts, pos)->value)),
        parse_texts(ts, pos)->next == pos + text_tokens(parse_texts(ts, pos)->value).len(),
    decreases ts.len() - pos,
{
    let text = ts[pos]->Text_0;
    let value = parse_texts(ts, pos)->value;
    let next = parse_texts(ts, pos)->next;
    if pos + 1 < ts.len() && ts[pos + 1] is Comma {
        lemma_texts_sound(ts, pos + 2);
        let rest = parse_texts(ts, pos + 2)->value;
        assert(value == seq![text] + rest);
        assert(value.drop_first() =~= rest);
        assert(text_tokens(value) == seq![TokenView::Text(text), TokenView::Comma] + text_tokens(
            rest,
        ));
        assert(ts.subrange(pos, next) =~= seq![TokenView::Text(text), TokenView::Comma]
            + ts.subrange(pos + 2, next));
    } else {
        assert(value == seq![text]);
        assert(ts.subrange(pos, pos + 1) =~= seq![TokenView::Text(text)]);
    }
}

/// What `parse_value` accepts is the tokens of the value it gives.
pub proof fn lemma_value_sound(ts: Seq<TokenView>, pos: int)
    requires
        parse_value(ts, pos) is Done,
    ensures
        value_ok(parse_value(ts, pos)->value),
        occurs_at(ts, pos, value_tokens(parse_value(ts, pos)->value)),
        parse_value(ts, pos)->next == pos + value_tokens(parse_value(ts, pos)->value).len(),
{
    let value = parse_value(ts, pos)->value;
    let next = parse_value(ts, pos)->next;
    match ts[pos] {
        TokenView::OpenAngle => {
            lemma_integers_run(ts, pos + 1);
            let end = integers_end(ts, pos + 1);
            let cells = integers_between(ts, pos + 1, end);
            assert(ts.subrange(pos, next) =~= seq![TokenView::OpenAngle] + integer_tokens(cells)
                + seq![TokenView::CloseAngle]) by {
                assert forall|k: int| pos + 1 <= k < end implies ts[k] == TokenView::Integer(
                    cells[k - pos - 1],
                ) by {
                    assert(ts[k] is Integer);
                }
            }
        },
        TokenView::OpenBracket => {
            lemma_bytes_run(ts, pos + 1);
            let end = bytes_end(ts, pos + 1);
            let bytes = bytes_between(ts, pos + 1, end);
            assert(ts.subrange(pos, next) =~= seq![TokenView::OpenBracket] + byte_tokens(bytes)
                + seq![TokenView::CloseBracket]) by {
                assert forall|k: int| pos + 1 <= k < end implies ts[k] == TokenView::Byte(
                    bytes[k - pos - 1],
                ) by {
                    assert(ts[k] is Byte);
                }
            }
        },
        TokenView::Text(_) => {
            lemma_texts_sound(ts, pos);
        },
        _ => {},
    }
}

/// What `parse_entry` accepts is the tokens of the entry it gives.
pub proof fn lemma_entry_sound(ts: Seq<TokenView>, pos: int)
    requires
        parse_entry(ts, pos) is Done,
    ensures
        entry_ok(parse_entry(ts, pos)->value),
        occurs_at(ts, pos, entry_tokens(parse_entry(ts, pos)->value)),
        parse_entry(ts, pos)->next == pos + entry_tokens(parse_entry(ts, pos)->value).len(),
    decreases ts.len() - pos, 0int,
{
    let entry = parse_entry(ts, pos)->value;
    let next = parse_entry(ts, pos)->next;
    let name = ts[pos]->Ident_0;
    match ts[pos + 1] {
        TokenView::Semicolon => {
            assert(ts.subrange(pos, next) =~= seq![
                TokenView::Ident(name),
                TokenView::Semicolon,
            ]);
        },
        TokenView::Equals => {
            lemma_value_sound(ts, pos + 2);
            let value = parse_value(ts, pos + 2)->value;
            let after = parse_value(ts, pos + 2)->next;
            assert(ts.subrange(pos, next) =~= seq![TokenView::Ident(name), TokenView::Equals]
                + ts.subrange(pos + 2, after) + seq![TokenView::Semicolon]);
        },
        TokenView::OpenBrace => {
            lemma_entries_sound(ts, pos + 2);
            let entries = parse_entries(ts, pos + 2)->value;
            let after = parse_entries(ts, pos + 2)->next;
            let inner = entries_tokens(entries, 0);
            assert(ts.subrange(pos + 2, after) == inner + seq![TokenView::CloseBrace]);
            assert(ts.subrange(pos + 2, after - 1) =~= inner) by {
                assert(ts.subrange(pos + 2, after - 1) =~= ts.subrange(pos + 2, after).subrange(
                    0,
                    inner.len() as int,
                ));
            }
            assert(ts[after - 1] == TokenView::CloseBrace) by {
                assert(ts[after - 1] == ts.subrange(pos + 2, after)[inner.len() as int]);
            }
            assert(ts.subrange(pos, next) =~= seq![TokenView::Ident(name), TokenView::OpenBrace]
                + inner + seq![TokenView::CloseBrace, TokenView::Semicolon]);
            assert(branch_ok(BranchView { ident: name, entries }));
        },
        _ => {},
    }
}

/// What `parse_entries` accepts is the tokens of the entries it gives,
/// and the brace that closes them.
pub proof fn lemma_entries_sound(ts: Seq<TokenView>, pos: int)
    requires
        parse_entries(ts, pos) is Done,
    ensures
        forall|i: int|
            0 <= i < parse_entries(ts, pos)->value.len() ==> entry_ok(
                #[trigger] parse_entries(ts, pos)->value[i],
            ),
        occurs_at(
            ts,
            pos,
            entries_tokens(parse_entries(ts, pos)->value, 0) + seq![TokenView::CloseBrace],
        ),
        parse_entries(ts, pos)->next == pos + entries_tokens(
            parse_entries(ts, pos)->value,
            0,
        ).len() + 1,
    decreases ts.len() - pos, 1int,
{
    let value = parse_entries(ts, pos)->value;
    let next = parse_entries(ts, pos)->next;
    if ts[pos] is CloseBrace {
        assert(ts.subrange(pos, pos + 1) =~= seq![TokenView::CloseBrace]);
        assert(entries_tokens(value, 0) + seq![TokenView::CloseBrace] =~= seq![
            TokenView::CloseBrace,
        ]);
    } else {
        lemma_entry_sound(ts, pos);
        let first = parse_entry(ts, pos)->value;
        let mid = parse_entry(ts, pos)->next;
        lemma_entries_sound(ts, mid);
        let rest = parse_entries(ts, mid)->value;
        assert(value == seq![first] + rest);
        lemma_entries_tokens_shift(first, rest, 0);
        assert(entries_tokens(value, 0) == entry_tokens(first) + entries_tokens(rest, 0));
        assert(ts.subrange(pos, next) =~= ts.subrange(pos, mid) + ts.subrange(mid, next));
        assert(entries_tokens(value, 0) + seq![TokenView::CloseBrace] =~= entry_tokens(first) + (
        entries_tokens(rest, 0) + seq![TokenView::CloseBrace]));
        assert forall|i: int| 0 <= i < value.len() implies entry_ok(#[trigger] value[i]) by {
            if i > 0 {
                assert(value[i] == rest[i - 1]);
            }
        }
    }
}

/// What `parse_branches` accepts is the tokens of the nodes it gives,
/// up to the end.
pub proof fn lemma_branches_sound(ts: Seq<TokenView>, pos: int)
    requires
        0 <= pos <= ts.len(),
        parse_branches(ts, pos) is Done,
    ensures
        forall|i: int|
            0 <= i < parse_branches(ts, pos)->value.len() ==> node_ok(
                #[trigger] parse_branches(ts, pos)->value[i],
            ),
        ts.subrange(pos, ts.len() as int) == file_tokens(parse_branches(ts, pos)->value, 0),
    decreases ts.len() - pos,
{
    let value = parse_branches(ts, pos)->value;
    if pos >= ts.len() {
        assert(ts.subrange(pos, ts.len() as int) =~= Seq::<TokenView>::empty());
    } else {
        lemma_entry_sound(ts, pos);
        let first = parse_entry(ts, pos)->value;
        let mid = parse_entry(ts, pos)->next;
        let branch = first->Branch_0;
        lemma_branches_sound(ts, mid);
        let rest = parse_branches(ts, mid)->value;
        assert(value == seq![FileEntryView::Branch(branch)] + rest);
        lemma_file_tokens_shift(FileEntryView::Branch(branch), rest, 0);
        assert(ts.subrange(pos, ts.len() as int) =~= ts.subrange(pos, mid) + ts.subrange(
            mid,
            ts.len() as int,
        ));
        assert forall|i: int| 0 <= i < value.len() implies node_ok(#[trigger] value[i]) by {
            if i > 0 {
                assert(value[i] == rest[i - 1]);
            }
        }
    }
}

/// Parsing is sound: the tokens that parse to a file are the tokens of
/// that file, and the file is one that the grammar can write.
pub proof fn lemma_parse_sound(ts: Seq<TokenView>)
    requires
        parse_file(ts) is Done,
    ensures
        file_ok(parse_file(ts)->value),
        file_tokens(parse_file(ts)->value, 0) == ts,
{
    let file = parse_file(ts)->value;
    let start = parse_header(ts)->next;
    lemma_branches_sound(ts, start);
    let branches = parse_branches(ts, start)->value;
    match parse_header(ts)->value {
        Some(version) => {
            let header = FileEntryView::Header(version);
            assert(file == seq![header] + branches);
            lemma_file_tokens_shift(header, branches, 0);
            assert(ts =~= file_entry_tokens(header) + ts.subrange(4, ts.len() as int));
            assert forall|i: int| 0 <= i < file.len() implies match #[trigger] file[i] {
                FileEntryView::Header(_) => i == 0,
                FileEntryView::Branch(branch) => branch_ok(branch),
            } by {
                if i > 0 {
                    assert(file[i] == branches[i - 1]);
                }
            }
        },
        None => {
            assert(ts.subrange(0, ts.len() as int) =~= ts);
        },
    }
}

/// A run of numbers that is closed by another token ends there.
pub proof fn lemma_integers_end_at(ts: Seq<TokenView>, from: int, to: int)
    requires
        0 <= from <= to <= ts.len(),
        forall|k: int| from <= k < to ==> #[trigger] ts[k] is Integer,
        to < ts.len() ==> !(ts[to] is Integer),
    ensures
        integers_end(ts, from) == to,
    decreases to - from,
{
    if from < to {
        assert(ts[from] is Integer);
        lemma_integers_end_at(ts, from + 1, to);
    }
}

/// A run of bytes that is closed by another token ends there.
pub proof fn lemma_bytes_end_at(ts: Seq<TokenView>, from: int, to: int)
    requires
        0 <= from <= to <= ts.len(),
        forall|k: int| from <= k < to ==> #[trigger] ts[k] is Byte,
        to < ts.len() ==> !(ts[to] is Byte),
    ensures
        bytes_end(ts, from) == to,
    decreases to - from,
{
    if from < to {
        assert(ts[from] is Byte);
        lemma_bytes_end_at(ts, from + 1, to);
    }
}

/// Where a pattern stands, each of its tokens stands.
pub proof fn lemma_occurs_index(ts: Seq<TokenView>, pos: int, pattern: Seq<TokenView>, i: int)
    requires
        occurs_at(ts, pos, pattern),
        0 <= i < pattern.len(),
    ensures
        ts[pos + i] == pattern[i],
{
    assert(ts.subrange(pos, pos + pattern.len())[i] == ts[pos + i]);
}

/// Where two patterns stand one after the other, each of them stands.
pub proof fn lemma_occurs_split(
    ts: Seq<TokenView>,
    pos: int,
    first: Seq<TokenView>,
    second: Seq<TokenView>,
)
    requires
        occurs_at(ts, pos, first + second),
    ensures
        occurs_at(ts, pos, first),
        occurs_at(ts, pos + first.len(), second),
{
    let whole = ts.subrange(pos, pos + first.len() + second.len());
    assert(whole == first + second);
    assert(ts.subrange(pos, pos + first.len()) =~= whole.subrange(0, first.len() as int));
    assert(whole.subrange(0, first.len() as int) =~= first);
    assert(ts.subrange(pos + first.len(), pos + first.len() + second.len()) =~= whole.subrange(
        first.len() as int,
        whole.len() as int,
    ));
    assert(whole.subrange(first.len() as int, whole.len() as int) =~= second);
}

/// Texts parse back from their tokens, where no comma follows them.
pub proof fn lemma_texts_complete(ts: Seq<TokenView>, pos: int, texts: Seq<Seq<char>>)
    requires
        texts.len() >= 1,
        occurs_at(ts, pos, text_tokens(texts)),
        pos + text_tokens(texts).len() < ts.len() ==> !(ts[pos + text_tokens(texts).len()]
            is Comma),
    ensures
        parse_texts(ts, pos) == (Parsed::Done {
            value: texts,
            next: pos + text_tokens(texts).len(),
        }),
    decreases texts.len(),
{
    let tokens = text_tokens(texts);
    if texts.len() == 1 {
        lemma_occurs_index(ts, pos, tokens, 0);
        assert(texts =~= seq![texts[0]]);
    } else {
        let rest = texts.drop_first();
        let head = seq![TokenView::Text(texts[0]), TokenView::Comma];
        assert(tokens == head + text_tokens(rest));
        lemma_occurs_index(ts, pos, tokens, 0);
        lemma_occurs_index(ts, pos, tokens, 1);
        lemma_occurs_split(ts, pos, head, text_tokens(rest));
        lemma_texts_complete(ts, pos + 2, rest);
        assert(texts =~= seq![texts[0]] + rest);
    }
}

/// A value parses back from its tokens, where no comma follows a list
/// of texts.
pub proof fn lemma_value_complete(ts: Seq<TokenView>, pos: int, value: ValueView)
    requires
        value_ok(value),
        occurs_at(ts, pos, value_tokens(value)),
        value is StringList ==> (pos + value_tokens(value).len() < ts.len() ==> !(ts[pos
            + value_tokens(value).len()] is Comma)),
    ensures
        parse_value(ts, pos) == (Parsed::Done {
            value,
            next: pos + value_tokens(value).len(),
        }),
{
    let tokens = value_tokens(value);
    match value {
        ValueView::IntegerList(cells) => {
            let end = pos + 1 + cells.len();
            lemma_occurs_index(ts, pos, tokens, 0);
            lemma_occurs_index(ts, pos, tokens, cells.len() as int + 1);
            assert forall|k: int| pos + 1 <= k < end implies #[trigger] ts[k]
                == TokenView::Integer(cells[k - pos - 1]) by {
                lemma_occurs_index(ts, pos, tokens, k - pos);
            }
            lemma_integers_end_at(ts, pos + 1, end);
            assert(integers_between(ts, pos + 1, end) =~= cells);
        },
        ValueView::ByteList(bytes) => {
            let end = pos + 1 + bytes.len();
            lemma_occurs_index(ts, pos, tokens, 0);
            lemma_occurs_index(ts, pos, tokens, bytes.len() as int + 1);
            assert forall|k: int| pos + 1 <= k < end implies #[trigger] ts[k] == TokenView::Byte(
                bytes[k - pos - 1],
            ) by {
                lemma_occurs_index(ts, pos, tokens, k - pos);
            }
            lemma_bytes_end_at(ts, pos + 1, end);
            assert(bytes_between(ts, pos + 1, end) =~= bytes);
        },
        ValueView::StringList(texts) => {
            lemma_occurs_index(ts, pos, tokens, 0);
            lemma_texts_complete(ts, pos, texts);
        },
    }
}

/// The tokens of an entry open with its name; those of a node go on
/// with `{`.
pub proof fn lemma_entry_head(entry: EntryView)
    ensures
        entry_tokens(entry).len() >= 2,
        entry_tokens(entry)[0] is Ident,
        entry is Branch ==> entry_tokens(entry)[1] is OpenBrace,
{
}

/// An entry parses back from its tokens.
pub proof fn lemma_entry_complete(ts: Seq<TokenView>, pos: int, entry: EntryView)
    requires
        entry_ok(entry),
        occurs_at(ts, pos, entry_tokens(entry)),
    ensures
        parse_entry(ts, pos) == (Parsed::Done {
            value: entry,
            next: pos + entry_tokens(entry).len(),
        }),
    decreases entry, 0int,
{
    let tokens = entry_tokens(entry);
    lemma_entry_head(entry);
    lemma_occurs_index(ts, pos, tokens, 0);
    lemma_occurs_index(ts, pos, tokens, 1);
    match entry {
        EntryView::Key(_) => {},
        EntryView::KeyValue { key, value } => {
            let head = seq![TokenView::Ident(key), TokenView::Equals];
            let tail = seq![TokenView::Semicolon];
            assert(tokens == (head + value_tokens(value)) + tail);
            lemma_occurs_split(ts, pos, head + value_tokens(value), tail);
            lemma_occurs_split(ts, pos, head, value_tokens(value));
            lemma_occurs_index(ts, pos + 2 + value_tokens(value).len(), tail, 0);
            lemma_value_complete(ts, pos + 2, value);
        },
        EntryView::Branch(branch) => {
            let head = seq![TokenView::Ident(branch.ident), TokenView::OpenBrace];
            let inner = entries_tokens(branch.entries, 0);
            let close = seq![TokenView::CloseBrace];
            let tail = seq![TokenView::Semicolon];
            assert(tokens =~= (head + (inner + close)) + tail);
            lemma_occurs_split(ts, pos, head + (inner + close), tail);
            lemma_occurs_split(ts, pos, head, inner + close);
            lemma_occurs_index(ts, pos + 2 + inner.len() + 1, tail, 0);
            lemma_entries_complete(ts, pos + 2, branch.entries, 0);
            assert(branch.entries.subrange(0, branch.entries.len() as int) =~= branch.entries);
        },
    }
}

/// The entries from `from` on parse back from their tokens and the
/// brace that closes them.
pub proof fn lemma_entries_complete(
    ts: Seq<TokenView>,
    pos: int,
    entries: Seq<EntryView>,
    from: int,
)
    requires
        0 <= from <= entries.len(),
        forall|i: int| 0 <= i < entries.len() ==> entry_ok(#[trigger] entries[i]),
        occurs_at(ts, pos, entries_tokens(entries, from) + seq![TokenView::CloseBrace]),
    ensures
        parse_entries(ts, pos) == (Parsed::Done {
            value: entries.subrange(from, entries.len() as int),
            next: pos + entries_tokens(entries, from).len() + 1,
        }),
    decreases entries, entries.len() - from,
{
    let close = seq![TokenView::CloseBrace];
    let tokens = entries_tokens(entries, from) + close;
    lemma_occurs_index(ts, pos, tokens, 0);
    if from == entries.len() {
        assert(entries.subrange(from, entries.len() as int) =~= Seq::<EntryView>::empty());
    } else {
        let first = entries[from];
        let rest = entries_tokens(entries, from + 1);
        lemma_entry_head(first);
        assert(tokens =~= entry_tokens(first) + (rest + close));
        lemma_occurs_split(ts, pos, entry_tokens(first), rest + close);
        lemma_entry_complete(ts, pos, first);
        lemma_entries_complete(ts, pos + entry_tokens(first).len(), entries, from + 1);
        assert(entries.subrange(from, entries.len() as int) =~= seq![first] + entries.subrange(
            from + 1,
            entries.len() as int,
        ));
    }
}

/// The nodes from `from` on parse back from their tokens.
pub proof fn lemma_branches_complete(
    ts: Seq<TokenView>,
    pos: int,
    file: Seq<FileEntryView>,
    from: int,
)
    requires
        0 <= from <= file.len(),
        forall|i: int| from <= i < file.len() ==> node_ok(#[trigger] file[i]),
        0 <= pos <= ts.len(),
        ts.subrange(pos, ts.len() as int) == file_tokens(file, from),
    ensures
        parse_branches(ts, pos) == (Parsed::Done {
            value: file.subrange(from, file.len() as int),
            next: ts.len() as int,
        }),
    decreases file.len() - from,
{
    if from == file.len() {
        assert(file.subrange(from, file.len() as int) =~= Seq::<FileEntryView>::empty());
    } else {
        let branch = file[from]->Branch_0;
        let first = EntryView::Branch(branch);
        let tokens = entry_tokens(first);
        let rest = file_tokens(file, from + 1);
        assert(node_ok(file[from]));
        lemma_entry_head(first);
        assert(occurs_at(ts, pos, tokens + rest));
        lemma_occurs_split(ts, pos, tokens, rest);
        lemma_occurs_index(ts, pos, tokens, 0);
        lemma_occurs_index(ts, pos, tokens, 1);
        lemma_entry_complete(ts, pos, first);
        let mid = pos + tokens.len();
        assert(ts.subrange(mid, ts.len() as int) == rest);
        lemma_branches_complete(ts, mid, file, from + 1);
        assert(file.subrange(from, file.len() as int) =~= seq![file[from]] + file.subrange(
            from + 1,
            file.len() as int,
        ));
    }
}

/// Parsing is complete: a file that the grammar can write parses back
/// from its tokens, all of them.
pub proof fn lemma_parse_complete(file: Seq<FileEntryView>)
    requires
        file_ok(file),
    ensures
        parse_file(file_tokens(file, 0)) == (Parsed::Done {
            value: file,
            next: file_tokens(file, 0).len() as int,
        }),
{
    let ts = file_tokens(file, 0);
    if file.len() > 0 && file[0] is Header {
        let version = file[0]->Header_0;
        let head = file_entry_tokens(file[0]);
        assert(ts == head + file_tokens(file, 1));
        assert(ts[0] == head[0] && ts[1] == head[1] && ts[2] == head[2] && ts[3] == head[3]);
        assert(ts.subrange(4, ts.len() as int) =~= file_tokens(file, 1));
        assert forall|i: int| 1 <= i < file.len() implies node_ok(#[trigger] file[i]) by {}
        lemma_branches_complete(ts, 4, file, 1);
        assert(file =~= seq![FileEntryView::Header(version)] + file.subrange(
            1,
            file.len() as int,
        ));
    } else {
        if file.len() > 0 {
            lemma_entry_head(EntryView::Branch(file[0]->Branch_0));
            assert(ts[0] is Ident);
        }
        assert forall|i: int| 0 <= i < file.len() implies node_ok(#[trigger] file[i]) by {}
        assert(ts.subrange(0, ts.len() as int) =~= ts);
        lemma_branches_complete(ts, 0, file, 0);
        assert(file.subrange(0, file.len() as int) =~= file);
    }
}

/// The tokens of a file that the grammar can write parse to that file;
/// no other tokens parse to it, and tokens that parse at all parse to a
/// file that the grammar can write.
pub proof fn lemma_parse_exact(ts: Seq<TokenView>, file: Seq<FileEntryView>)
    ensures
        (parse_file(ts) is Done && parse_file(ts)->value == file) <==> (file_ok(file)
            && file_tokens(file, 0) == ts),
{
    if parse_file(ts) is Done && parse_file(ts)->value == file {
        lemma_parse_sound(ts);
    }
    if file_ok(file) && file_tokens(file, 0) == ts {
        lemma_parse_complete(file);
    }
}

} // verus!
