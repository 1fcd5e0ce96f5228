//! Rendering the tree back to source text.
//!
//! The text of every item is defined here as a function of its view; the
//! executable serializers are proved to produce exactly that text.

use vstd::prelude::*;
use vstd::string::StringExecFns;
use crate::ast::{
    Branch, BranchEntry, BranchView, EntryView, File, FileEntry, FileEntryView, Header, Value,
    ValueView, file_view, strings_view,
};
use crate::text::{
    byte_string, byte_text, cell_string, cell_text, concat_text, dec_digits, dec_string, indent,
    indent_text, join_map, join_text,
};

verus! {

/// A text literal between double quotes.
pub open spec fn quoted_text(s: Seq<char>) -> Seq<char> {
    seq!['"'] + s + seq!['"']
}

/// The version record: `/dts-v`, the number, `/;` and a blank line.
pub open spec fn header_text(version: u32) -> Seq<char> {
    seq!['/', 'd', 't', 's', '-', 'v'] + dec_digits(version as nat) + seq!['/', ';', '\n', '\n']
}

/// A value as it is written on the right of `=`.
pub open spec fn value_text(value: ValueView) -> Seq<char> {
    match value {
        ValueView::IntegerList(items) => seq!['<'] + join_text(
            Seq::new(items.len(), |i: int| cell_text(items[i])),
            seq![' '],
        ) + seq!['>'],
        ValueView::ByteList(items) => seq!['['] + join_text(
            Seq::new(items.len(), |i: int| byte_text(items[i])),
            seq![' '],
        ) + seq![']'],
        ValueView::StringList(items) => join_text(
            Seq::new(items.len(), |i: int| quoted_text(items[i])),
            seq![',', ' '],
        ),
    }
}

/// A node at a nesting level: its name and `{`, its entries one level
/// deeper, and `};`, each line indented by one tab per level.
pub open spec fn branch_text(branch: BranchView, level: nat) -> Seq<char>
    decreases branch, 1int,
{
    indent_text(level) + branch.ident + seq![' ', '{', '\n'] + concat_text(
        entry_texts(branch.entries, level + 1),
    ) + indent_text(level) + seq!['}', ';', '\n']
}

/// The text of each entry of a sequence, at one nesting level.
pub open spec fn entry_texts(entries: Seq<EntryView>, level: nat) -> Seq<Seq<char>>
    decreases entries, 1int,
{
    Seq::new(
        entries.len(),
        |i: int|
            if 0 <= i < entries.len() {
                entry_text(entries[i], level)
            } else {
                Seq::empty()
            },
    )
}

/// One entry at a nesting level: a node, a flag `name;`, or a property
/// `name = value;`.
pub open spec fn entry_text(entry: EntryView, level: nat) -> Seq<char>
    decreases entry, 0int,
{
    match entry {
        EntryView::Branch(child) => branch_text(child, level),
        EntryView::Key(ident) => indent_text(level) + ident + seq![';', '\n'],
        EntryView::KeyValue { key, value } => indent_text(level) + key + seq![' ', '=', ' ']
            + value_text(value) + seq![';', '\n'],
    }
}

/// A top-level entry at a nesting level.
pub open spec fn file_entry_text(entry: FileEntryView, level: nat) -> Seq<char> {
    match entry {
        FileEntryView::Header(version) => header_text(version),
        FileEntryView::Branch(branch) => branch_text(branch, level),
    }
}

/// A whole file: its top-level entries one after the other.
pub open spec fn file_text(file: Seq<FileEntryView>, level: nat) -> Seq<char> {
    concat_text(Seq::new(file.len(), |i: int| file_entry_text(file[i], level)))
}

/// Rendering to source text at a nesting level.
pub trait Serialize {
    /// The text that `serialize` produces.
    spec fn text(&self, level: nat) -> Seq<char>;

    /// Renders the item, indented by one tab per level.
    fn serialize(&self, level: usize) -> (out: String)
        ensures
            out@ == self.text(level as nat),
    ;
}

fn quoted(s: &String) -> (out: String)
    ensures
        out@ == quoted_text(s@),
{
    proof {
        reveal_strlit("\"");
    }
    let mut out = String::from_str("\"");
    out.append(s.as_str());
    out.append("\"");
    assert(out@ =~= quoted_text(s@));
    out
}

fn cell_of(v: &i64) -> (out: String)
    ensures
        out@ == cell_text(*v),
{
    cell_string(*v)
}

fn byte_of(b: &u8) -> (out: String)
    ensures
        out@ == byte_text(*b),
{
    byte_string(*b)
}

impl Serialize for Header {
    open spec fn text(&self, level: nat) -> Seq<char> {
        header_text(self.version)
    }

    fn serialize(&self, level: usize) -> (out: String) {
        proof {
            reveal_strlit("/dts-v");
            reveal_strlit("/;\n\n");
        }
        let mut out = String::from_str("/dts-v");
        let digits = dec_string(self.version);
        out.append(digits.as_str());
        out.append("/;\n\n");
        assert(out@ =~= header_text(self.version));
        out
    }
}

impl Serialize for Value {
    open spec fn text(&self, level: nat) -> Seq<char> {
        value_text(self@)
    }

    fn serialize(&self, level: usize) -> (out: String) {
        proof {
            reveal_strlit("<");
            reveal_strlit(">");
            reveal_strlit("[");
            reveal_strlit("]");
            reveal_strlit(" ");
            reveal_strlit(", ");
        }
        match self {
            Value::IntegerList(inner) => {
                let contents = join_map(
                    inner.as_slice(),
                    cell_of,
                    " ",
                );
                proof {
                    let parts = choose|parts: Seq<String>|
                        {
                            &&& parts.len() == inner@.len()
                            &&& forall|i: int|
                                0 <= i < parts.len() ==> call_ensures(
                                    cell_of,
                                    (&inner@[i],),
                                    #[trigger] parts[i],
                                )
                            &&& contents@ == join_text(strings_view(parts), " "@)
                        };
                    assert forall|i: int| 0 <= i < parts.len() implies (#[trigger] parts[i])@
                        == cell_text(inner@[i]) by {
                        assert(call_ensures(cell_of, (&inner@[i],), parts[i]));
                    }
                    assert(" "@ =~= seq![' ']);
                    assert(strings_view(parts) =~= Seq::new(
                        inner@.len(),
                        |i: int| cell_text(inner@[i]),
                    ));
                }
                let mut out = String::from_str("<");
                out.append(contents.as_str());
                out.append(">");
                assert(out@ =~= value_text(self@));
                out
            },
            Value::ByteList(inner) => {
                let contents = join_map(
                    inner.as_slice(),
                    byte_of,
                    " ",
                );
                proof {
                    let parts = choose|parts: Seq<String>|
                        {
                            &&& parts.len() == inner@.len()
                            &&& forall|i: int|
                                0 <= i < parts.len() ==> call_ensures(
                                    byte_of,
                                    (&inner@[i],),
                                    #[trigger] parts[i],
                                )
                            &&& contents@ == join_text(strings_view(parts), " "@)
                        };
                    assert forall|i: int| 0 <= i < parts.len() implies (#[trigger] parts[i])@
                        == byte_text(inner@[i]) by {
                        assert(call_ensures(byte_of, (&inner@[i],), parts[i]));
                    }
                    assert(" "@ =~= seq![' ']);
                    assert(strings_view(parts) =~= Seq::new(
                        inner@.len(),
                        |i: int| byte_text(inner@[i]),
                    ));
                }
                let mut out = String::from_str("[");
                out.append(contents.as_str());
                out.append("]");
                assert(out@ =~= value_text(self@));
                out
            },
            Value::StringList(inner) => {
                let out = join_map(
                    inner.as_slice(),
                    quoted,
                    ", ",
                );
                proof {
                    let parts = choose|parts: Seq<String>|
                        {
                            &&& parts.len() == inner@.len()
                            &&& forall|i: int|
                                0 <= i < parts.len() ==> call_ensures(
                                    quoted,
                                    (&inner@[i],),
                                    #[trigger] parts[i],
                                )
                            &&& out@ == join_text(strings_view(parts), ", "@)
                        };
                    assert forall|i: int| 0 <= i < parts.len() implies (#[trigger] parts[i])@
                        == quoted_text(inner@[i]@) by {
                        assert(call_ensures(quoted, (&inner@[i],), parts[i]));
                    }
                    assert(", "@ =~= seq![',', ' ']);
                    assert(strings_view(parts) =~= Seq::new(
                        inner@.len(),
                        |i: int| quoted_text(strings_view(inner@)[i]),
                    ));
                }
                out
            },
        }
    }
}

fn write_branch(branch: &Branch, pad: &str, level: Ghost<nat>, out: &mut String)
    requires
        pad@ == indent_text(level@),
    ensures
        final(out)@ == old(out)@ + branch_text(branch@, level@),
    decreases *branch, 1int,
{
    proof {
        reveal_strlit(" {\n");
        reveal_strlit("\t");
        reveal_strlit("};\n");
    }
    let ghost before = out@;
    out.append(pad);
    out.append(branch.ident.as_str());
    out.append(" {\n");
    let mut inner_pad = String::from_str(pad);
    inner_pad.append("\t");
    assert(inner_pad@ =~= indent_text(level@ + 1));
    let ghost head = out@;
    let ghost texts = entry_texts(branch@.entries, level@ + 1);
    let mut i: usize = 0;
    while i < branch.entries.len()
        invariant
            i <= branch.entries.len(),
            inner_pad@ == indent_text(level@ + 1),
            texts == entry_texts(branch@.entries, level@ + 1),
            texts.len() == branch.entries.len(),
            out@ == head + concat_text(texts.take(i as int)),
        decreases branch.entries.len() - i,
    {
        write_entry(&branch.entries[i], inner_pad.as_str(), Ghost(level@ + 1), out);
        proof {
            assert(branch@.entries[i as int] == branch.entries@[i as int]@);
            assert(texts.take(i + 1).drop_last() =~= texts.take(i as int));
            assert(texts.take(i + 1).last() == entry_text(branch.entries@[i as int]@, level@ + 1));
        }
        i += 1;
        assert(out@ =~= head + concat_text(texts.take(i as int)));
    }
    out.append(pad);
    out.append("};\n");
    proof {
        assert(texts.take(i as int) =~= texts);
        assert(head =~= before + indent_text(level@) + branch@.ident + seq![' ', '{', '\n']);
        assert(out@ =~= before + branch_text(branch@, level@));
    }
}

fn write_entry(entry: &BranchEntry, pad: &str, level: Ghost<nat>, out: &mut String)
    requires
        pad@ == indent_text(level@),
    ensures
        final(out)@ == old(out)@ + entry_text(entry@, level@),
    decreases *entry, 0int,
{
    proof {
        reveal_strlit(";\n");
        reveal_strlit(" = ");
    }
    let ghost before = out@;
    match entry {
        BranchEntry::Branch(child) => {
            write_branch(child, pad, level, out);
        },
        BranchEntry::Key(ident) => {
            out.append(pad);
            out.append(ident.as_str());
            out.append(";\n");
            assert(out@ =~= before + entry_text(entry@, level@));
        },
        BranchEntry::KeyValue { key, value } => {
            out.append(pad);
            out.append(key.as_str());
            out.append(" = ");
            let text = value.serialize(0);
            out.append(text.as_str());
            out.append(";\n");
            assert(out@ =~= before + entry_text(entry@, level@));
        },
    }
}

impl Serialize for Branch {
    open spec fn text(&self, level: nat) -> Seq<char> {
        branch_text(self@, level)
    }

    fn serialize(&self, level: usize) -> (out: String) {
        let pad = indent(level);
        let mut out = String::new();
        write_branch(self, pad.as_str(), Ghost(level as nat), &mut out);
        assert(out@ =~= branch_text(self@, level as nat));
        out
    }
}

impl Serialize for BranchEntry {
    open spec fn text(&self, level: nat) -> Seq<char> {
        entry_text(self@, level)
    }

    fn serialize(&self, level: usize) -> (out: String) {
        let pad = indent(level);
        let mut out = String::new();
        write_entry(self, pad.as_str(), Ghost(level as nat), &mut out);
        assert(out@ =~= entry_text(self@, level as nat));
        out
    }
}

impl Serialize for FileEntry {
    open spec fn text(&self, level: nat) -> Seq<char> {
        file_entry_text(self@, level)
    }

    fn serialize(&self, level: usize) -> (out: String) {
        match self {
            FileEntry::Header(inner) => inner.serialize(level),
            FileEntry::Branch(inner) => inner.serialize(level),
        }
    }
}

impl Serialize for File {
    open spec fn text(&self, level: nat) -> Seq<char> {
        file_text(file_view(self@), level)
    }

    fn serialize(&self, level: usize) -> (out: String) {
        let mut out = String::new();
        let ghost texts = Seq::new(
            self@.len(),
            |i: int| file_entry_text(file_view(self@)[i], level as nat),
        );
        let mut i: usize = 0;
        while i < self.len()
            invariant
                i <= self.len(),
                texts == Seq::new(
                    self@.len(),
                    |i: int| file_entry_text(file_view(self@)[i], level as nat),
                ),
                out@ == concat_text(texts.take(i as int)),
            decreases self.len() - i,
        {
            let piece = self[i].serialize(level);
            out.append(piece.as_str());
            proof {
                assert(texts.take(i + 1).drop_last() =~= texts.take(i as int));
                assert(texts.take(i + 1).last() == piece@);
            }
            i += 1;
        }
        assert(texts.take(i as int) =~= texts);
        out
    }
}

} // verus!
