//! The tree of nodes, properties and typed values, with the mathematical
//! view of each type that the contracts of this crate are stated over.

use vstd::prelude::*;

pub use crate::render::Serialize;
pub use crate::text::{indent, join_map};

verus! {

/// The value bound to a property.
#[derive(Debug, PartialEq)]
pub enum Value {
    /// A cell list, written `<0x01 0x02>`.
    IntegerList(Vec<i64>),
    /// A byte list, written `[01 02]`.
    ByteList(Vec<u8>),
    /// One or more text literals, written `"a", "b"`.
    StringList(Vec<String>),
}

/// One entry of a node: a child node, a flag, or a property with a value.
#[derive(Debug, PartialEq)]
pub enum BranchEntry {
    Branch(Branch),
    Key(String),
    KeyValue { key: String, value: Value },
}

/// A named node holding an ordered list of entries.
#[derive(Debug, PartialEq)]
pub struct Branch {
    pub ident: String,
    pub entries: Vec<BranchEntry>,
}

/// The version record that may open a file.
#[derive(Debug, PartialEq)]
pub struct Header {
    pub version: u32,
}

/// A top-level entry of a file.
#[derive(Debug, PartialEq)]
pub enum FileEntry {
    Header(Header),
    Branch(Branch),
}

/// A whole source file: its top-level entries in order.
pub type File = Vec<FileEntry>;

/// Mathematical value of a [`Value`].
pub enum ValueView {
    IntegerList(Seq<i64>),
    ByteList(Seq<u8>),
    StringList(Seq<Seq<char>>),
}

/// Mathematical value of a [`BranchEntry`].
pub enum EntryView {
    Branch(BranchView),
    Key(Seq<char>),
    KeyValue { key: Seq<char>, value: ValueView },
}

/// Mathematical value of a [`Branch`].
pub struct BranchView {
    pub ident: Seq<char>,
    pub entries: Seq<EntryView>,
}

/// Mathematical value of a [`FileEntry`].
pub enum FileEntryView {
    Header(u32),
    Branch(BranchView),
}

/// The views of a sequence of strings, element by element.
pub open spec fn strings_view(items: Seq<String>) -> Seq<Seq<char>> {
    Seq::new(items.len(), |i: int| items[i]@)
}

impl View for Value {
    type V = ValueView;

    open spec fn view(&self) -> ValueView {
        match self {
            Value::IntegerList(items) => ValueView::IntegerList(items@),
            Value::ByteList(items) => ValueView::ByteList(items@),
            Value::StringList(items) => ValueView::StringList(strings_view(items@)),
        }
    }
}

/// The view of a node.
pub open spec fn branch_view(branch: Branch) -> BranchView
    decreases branch, 1int,
{
    BranchView { ident: branch.ident@, entries: entries_view(branch.entries@) }
}

/// The view of one entry.
pub open spec fn entry_view(entry: BranchEntry) -> EntryView
    decreases entry, 0int,
{
    match entry {
        BranchEntry::Branch(child) => EntryView::Branch(branch_view(child)),
        BranchEntry::Key(ident) => EntryView::Key(ident@),
        BranchEntry::KeyValue { key, value } => EntryView::KeyValue { key: key@, value: value@ },
    }
}

/// The views of a sequence of entries, element by element.
pub open spec fn entries_view(entries: Seq<BranchEntry>) -> Seq<EntryView>
    decreases entries, 0int,
{
    Seq::new(
        entries.len(),
        |i: int|
            if 0 <= i < entries.len() {
                entry_view(entries[i])
            } else {
                arbitrary()
            },
    )
}

impl View for Branch {
    type V = BranchView;

    open spec fn view(&self) -> BranchView {
        branch_view(*self)
    }
}

impl View for BranchEntry {
    type V = EntryView;

    open spec fn view(&self) -> EntryView {
        entry_view(*self)
    }
}

impl View for FileEntry {
    type V = FileEntryView;

    open spec fn view(&self) -> FileEntryView {
        match self {
            FileEntry::Header(header) => FileEntryView::Header(header.version),
            FileEntry::Branch(branch) => FileEntryView::Branch(branch@),
        }
    }
}

/// The views of the top-level entries of a file, in order.
pub open spec fn file_view(file: Seq<FileEntry>) -> Seq<FileEntryView> {
    Seq::new(file.len(), |i: int| file[i]@)
}

fn clone_ints(items: &Vec<i64>) -> (res: Vec<i64>)
    ensures
        res@ == items@,
{
    let mut res: Vec<i64> = Vec::new();
    let mut i: usize = 0;
    while i < items.len()
        invariant
            i <= items.len(),
            res@ == items@.take(i as int),
        decreases items.len() - i,
    {
        res.push(items[i]);
        i += 1;
    }
    res
}

fn clone_bytes(items: &Vec<u8>) -> (res: Vec<u8>)
    ensures
        res@ == items@,
{
    let mut res: Vec<u8> = Vec::new();
    let mut i: usize = 0;
    while i < items.len()
        invariant
            i <= items.len(),
            res@ == items@.take(i as int),
        decreases items.len() - i,
    {
        res.push(items[i]);
        i += 1;
    }
    res
}

fn clone_strings(items: &Vec<String>) -> (res: Vec<String>)
    ensures
        strings_view(res@) == strings_view(items@),
{
    let mut res: Vec<String> = Vec::new();
    let mut i: usize = 0;
    while i < items.len()
        invariant
            i <= items.len(),
            res@.len() == i,
            forall|k: int| 0 <= k < i ==> res@[k]@ == items@[k]@,
        decreases items.len() - i,
    {
        res.push(items[i].clone());
        i += 1;
    }
    assert(strings_view(res@) =~= strings_view(items@));
    res
}

impl Clone for Value {
    fn clone(&self) -> (res: Self)
        ensures
            res@ == self@,
    {
        match self {
            Value::IntegerList(items) => Value::IntegerList(clone_ints(items)),
            Value::ByteList(items) => Value::ByteList(clone_bytes(items)),
            Value::StringList(items) => Value::StringList(clone_strings(items)),
        }
    }
}

impl Clone for Header {
    fn clone(&self) -> (res: Self)
        ensures
            res == *self,
    {
        Header { version: self.version }
    }
}

/// A deep copy of a node.
pub fn clone_branch(branch: &Branch) -> (res: Branch)
    ensures
        res@ == branch@,
    decreases *branch, 1int,
{
    let mut entries: Vec<BranchEntry> = Vec::new();
    let mut i: usize = 0;
    while i < branch.entries.len()
        invariant
            i <= branch.entries.len(),
            entries@.len() == i,
            forall|k: int| 0 <= k < i ==> entries@[k]@ == branch.entries@[k]@,
        decreases branch.entries.len() - i,
    {
        let entry = clone_entry(&branch.entries[i]);
        entries.push(entry);
        i += 1;
    }
    assert(entries_view(entries@) =~= entries_view(branch.entries@));
    Branch { ident: branch.ident.clone(), entries }
}

/// A deep copy of one entry.
pub fn clone_entry(entry: &BranchEntry) -> (res: BranchEntry)
    ensures
        res@ == entry@,
    decreases *entry, 0int,
{
    match entry {
        BranchEntry::Branch(child) => BranchEntry::Branch(clone_branch(child)),
        BranchEntry::Key(ident) => BranchEntry::Key(ident.clone()),
        BranchEntry::KeyValue { key, value } => BranchEntry::KeyValue {
            key: key.clone(),
            value: value.clone(),
        },
    }
}

impl Clone for Branch {
    fn clone(&self) -> (res: Self)
        ensures
            res@ == self@,
    {
        clone_branch(self)
    }
}

impl Clone for BranchEntry {
    fn clone(&self) -> (res: Self)
        ensures
            res@ == self@,
    {
        clone_entry(self)
    }
}

impl Clone for FileEntry {
    fn clone(&self) -> (res: Self)
        ensures
            res@ == self@,
    {
        match self {
            FileEntry::Header(header) => FileEntry::Header(header.clone()),
            FileEntry::Branch(branch) => FileEntry::Branch(clone_branch(branch)),
        }
    }
}

} // verus!
