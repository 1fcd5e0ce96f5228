//! The two passes over the tree: the first fills the index from the
//! handles that nodes declare, the second rewrites handle values into
//! node paths and clears the declarations.

use vstd::prelude::*;
use vstd::string::StringExecFns;
use bimap::BiHashMap;
use crate::ast::{
    Branch, BranchEntry, BranchView, EntryView, File, FileEntry, FileEntryView, Value, ValueView,
    clone_entry, file_view, strings_view,
};
use crate::index::{empty_index, index_pairs, insert_pair, no_pairs, path_of, with_pair};
use crate::text::{
    cell_value, contains_str, contains_text, hex_digits, hex_string, join_map, join_text,
};

verus! {

/// What is wrong with a handle declaration.
#[derive(Debug, Clone, Copy, PartialEq, Eq, Structural)]
pub enum DefectKind {
    /// The declaration holds no value: `phandle = <>;`.
    EmptyHandle,
    /// The declaration holds something other than a cell list.
    HandleNotIntegers,
    /// The node declares a handle more than once.
    DuplicateHandle,
}

/// A malformed handle declaration, with the path of the node that holds it.
#[derive(Debug, PartialEq)]
pub struct ResolveError {
    pub kind: DefectKind,
    pub path: String,
}

/// What a defect is called in a message.
pub open spec fn defect_text(kind: DefectKind) -> Seq<char> {
    match kind {
        DefectKind::EmptyHandle => "phandle holds no value in node "@,
        DefectKind::HandleNotIntegers => "phandle is not a cell list in node "@,
        DefectKind::DuplicateHandle => "phandle is declared twice in node "@,
    }
}

impl ResolveError {
    /// The defect in words, followed by the path of the node.
    pub fn message(&self) -> (text: String)
        ensures
            text@ == defect_text(self.kind) + self.path@,
    {
        let mut text = match self.kind {
            DefectKind::EmptyHandle => String::from_str("phandle holds no value in node "),
            DefectKind::HandleNotIntegers => String::from_str(
                "phandle is not a cell list in node ",
            ),
            DefectKind::DuplicateHandle => String::from_str("phandle is declared twice in node "),
        };
        text.append(self.path.as_str());
        text
    }
}

impl View for ResolveError {
    type V = (DefectKind, Seq<char>);

    open spec fn view(&self) -> (DefectKind, Seq<char>) {
        (self.kind, self.path@)
    }
}

/// What the first pass does on a part of the tree: the pairs it inserts,
/// in order, and the defect it stops at, if any.
pub struct PassOne {
    pub inserted: Seq<(Seq<char>, i64)>,
    pub failure: Option<(DefectKind, Seq<char>)>,
}

/// The name of the property by which a node declares its handle.
pub open spec fn handle_key() -> Seq<char> {
    seq!['p', 'h', 'a', 'n', 'd', 'l', 'e']
}

/// The path of a node named `ident` under `parent`: the name itself at
/// the top, the name appended directly under the root `/`, and otherwise
/// the two joined by `/`.
pub open spec fn child_path(parent: Seq<char>, ident: Seq<char>) -> Seq<char> {
    if parent.len() == 0 {
        ident
    } else if parent == seq!['/'] {
        parent + ident
    } else {
        parent + seq!['/'] + ident
    }
}

/// The pairs after each pair of `added` is inserted in turn.
pub open spec fn insert_all(pairs: Map<Seq<char>, i64>, added: Seq<(Seq<char>, i64)>) -> Map<
    Seq<char>,
    i64,
>
    decreases added.len(),
{
    if added.len() == 0 {
        pairs
    } else {
        with_pair(insert_all(pairs, added.drop_last()), added.last().0, added.last().1)
    }
}

/// Whether an entry is a handle declaration.
pub open spec fn declares_handle(entry: EntryView) -> bool {
    entry matches EntryView::KeyValue { key, .. } && key == handle_key()
}

/// The first pass on a node under `parent`.
pub open spec fn walk_branch(parent: Seq<char>, branch: BranchView) -> PassOne
    decreases branch, 0int,
{
    walk_entries(child_path(parent, branch.ident), branch.entries, 0, false)
}

/// The first pass on the entries of the node at path `me`, from entry
/// `from` on; `declared` tells whether an earlier entry declared the
/// node's handle.
pub open spec fn walk_entries(
    me: Seq<char>,
    entries: Seq<EntryView>,
    from: int,
    declared: bool,
) -> PassOne
    decreases entries, entries.len() - from,
{
    if from < 0 || from >= entries.len() {
        PassOne { inserted: Seq::empty(), failure: None }
    } else {
        let step = walk_entry(me, entries[from], declared);
        if step.failure is Some {
            step
        } else {
            let rest = walk_entries(
                me,
                entries,
                from + 1,
                declared || declares_handle(entries[from]),
            );
            PassOne { inserted: step.inserted + rest.inserted, failure: rest.failure }
        }
    }
}

/// The first pass on one entry of the node at path `me`.
pub open spec fn walk_entry(me: Seq<char>, entry: EntryView, declared: bool) -> PassOne
    decreases entry, 0int,
{
    match entry {
        EntryView::Branch(child) => walk_branch(me, child),
        EntryView::Key(_) => PassOne { inserted: Seq::empty(), failure: None },
        EntryView::KeyValue { key, value } => if key != handle_key() {
            PassOne { inserted: Seq::empty(), failure: None }
        } else {
            match value {
                ValueView::IntegerList(handles) => if handles.len() == 0 {
                    PassOne {
                        inserted: Seq::empty(),
                        failure: Some((DefectKind::EmptyHandle, me)),
                    }
                } else if declared {
                    PassOne {
                        inserted: Seq::empty(),
                        failure: Some((DefectKind::DuplicateHandle, me)),
                    }
                } else {
                    PassOne { inserted: seq![(me, handles[0])], failure: None }
                },
                _ => PassOne {
                    inserted: Seq::empty(),
                    failure: Some((DefectKind::HandleNotIntegers, me)),
                },
            }
        },
    }
}

/// Inserting `first + second` is inserting `first`, then `second`.
pub proof fn lemma_insert_all_concat(
    pairs: Map<Seq<char>, i64>,
    first: Seq<(Seq<char>, i64)>,
    second: Seq<(Seq<char>, i64)>,
)
    ensures
        insert_all(pairs, first + second) == insert_all(insert_all(pairs, first), second),
    decreases second.len(),
{
    if second.len() == 0 {
        assert(first + second =~= first);
    } else {
        lemma_insert_all_concat(pairs, first, second.drop_last());
        assert((first + second).drop_last() =~= first + second.drop_last());
        assert((first + second).last() == second.last());
    }
}

fn join_path(parent: &str, ident: &str) -> (me: String)
    ensures
        me@ == child_path(parent@, ident@),
{
    if parent.unicode_len() == 0 {
        String::from_str(ident)
    } else if parent.unicode_len() == 1 && parent.get_char(0) == '/' {
        assert(parent@ =~= seq!['/']);
        let mut me = String::from_str(parent);
        me.append(ident);
        me
    } else {
        proof {
            reveal_strlit("/");
        }
        let mut me = String::from_str(parent);
        me.append("/");
        me.append(ident);
        assert("/"@ =~= seq!['/']);
        me
    }
}

/// The first pass on one node: inserts into `map` the handle that each
/// node of the subtree declares, keyed by the node's path, in tree order.
///
/// Stops at the first malformed declaration and returns it; the pairs
/// inserted until then stay in `map`.
pub fn first_pass_walker(map: &mut BiHashMap<String, i64>, parent: &str, branch: &Branch) -> (result:
    Result<(), ResolveError>)
    ensures
        index_pairs(*final(map)) == insert_all(
            index_pairs(*old(map)),
            walk_branch(parent@, branch@).inserted,
        ),
        match result {
            Ok(_) => walk_branch(parent@, branch@).failure is None,
            Err(e) => walk_branch(parent@, branch@).failure == Some(e@),
        },
    decreases *branch,
{
    let me = join_path(parent, branch.ident.as_str());
    proof {
        reveal_strlit("phandle");
    }
    let reserved = String::from_str("phandle");
    assert(reserved@ =~= handle_key());
    let ghost start = index_pairs(*map);
    let ghost entries = branch@.entries;
    let ghost mut done: Seq<(Seq<char>, i64)> = Seq::empty();
    let mut declared = false;
    let mut i: usize = 0;
    assert(done + walk_entries(me@, entries, 0, false).inserted =~= walk_entries(
        me@,
        entries,
        0,
        false,
    ).inserted);
    while i < branch.entries.len()
        invariant
            i <= branch.entries.len(),
            entries == branch@.entries,
            entries.len() == branch.entries.len(),
            me@ == child_path(parent@, branch@.ident),
            reserved@ == handle_key(),
            start == index_pairs(*old(map)),
            index_pairs(*map) == insert_all(start, done),
            walk_branch(parent@, branch@).inserted == done + walk_entries(
                me@,
                entries,
                i as int,
                declared,
            ).inserted,
            walk_branch(parent@, branch@).failure == walk_entries(
                me@,
                entries,
                i as int,
                declared,
            ).failure,
        decreases branch.entries.len() - i,
    {
        let ghost step = walk_entry(me@, entries[i as int], declared);
        let ghost rest = walk_entries(
            me@,
            entries,
            i + 1,
            declared || declares_handle(entries[i as int]),
        );
        assert(entries[i as int] == branch.entries@[i as int]@);
        match &branch.entries[i] {
            BranchEntry::Branch(child) => {
                let outcome = first_pass_walker(map, me.as_str(), child);
                proof {
                    lemma_insert_all_concat(start, done, step.inserted);
                    done = done + step.inserted;
                }
                match outcome {
                    Ok(_) => {},
                    Err(e) => {
                        assert(done =~= walk_branch(parent@, branch@).inserted);
                        return Err(e);
                    },
                }
            },
            BranchEntry::Key(_) => {},
            BranchEntry::KeyValue { key, value } => {
                if *key == reserved {
                    match value {
                        Value::IntegerList(handles) => {
                            if handles.len() == 0 {
                                assert(done =~= walk_branch(parent@, branch@).inserted);
                                return Err(
                                    ResolveError { kind: DefectKind::EmptyHandle, path: me },
                                );
                            }
                            if declared {
                                assert(done =~= walk_branch(parent@, branch@).inserted);
                                return Err(
                                    ResolveError { kind: DefectKind::DuplicateHandle, path: me },
                                );
                            }
                            insert_pair(map, me.clone(), handles[0]);
                            declared = true;
                            proof {
                                assert((done + step.inserted).drop_last() =~= done);
                                done = done + step.inserted;
                            }
                        },
                        _ => {
                            assert(done =~= walk_branch(parent@, branch@).inserted);
                            return Err(
                                ResolveError { kind: DefectKind::HandleNotIntegers, path: me },
                            );
                        },
                    }
                }
            },
        }
        proof {
            assert(done + rest.inserted =~= walk_branch(parent@, branch@).inserted);
        }
        i += 1;
    }
    assert(done =~= walk_branch(parent@, branch@).inserted);
    Ok(())
}

/// What stands for a handle that no node declares.
pub open spec fn placeholder() -> Seq<char> {
    seq!['#', '#', 'U', 'N', 'K', 'N', 'O', 'W', 'N', '#', '#']
}

/// The path that a handle resolves to: the path paired with it in the
/// index, or the placeholder where there is none.
pub open spec fn resolve_handle(pairs: Map<Seq<char>, i64>, handle: i64) -> Seq<char> {
    if exists|p: Seq<char>| pairs.contains_pair(p, handle) {
        choose|p: Seq<char>| pairs.contains_pair(p, handle)
    } else {
        placeholder()
    }
}

/// Whether a property name holds one of the targets as a substring.
pub open spec fn matches_target(key: Seq<char>, targets: Seq<Seq<char>>) -> bool {
    exists|t: int| 0 <= t < targets.len() && contains_text(key, #[trigger] targets[t])
}

/// Whether the second pass turns the cells of a property into paths.
pub open spec fn is_rewritten(key: Seq<char>, targets: Seq<Seq<char>>) -> bool {
    key != handle_key() && matches_target(key, targets)
}

/// The value of a property after the second pass: the cells of a handle
/// declaration become zeros, the cells of a targeted property become
/// the paths they resolve to, and every other value stays.
pub open spec fn rewrite_value(
    pairs: Map<Seq<char>, i64>,
    key: Seq<char>,
    value: ValueView,
    targets: Seq<Seq<char>>,
) -> ValueView {
    match value {
        ValueView::IntegerList(cells) => if key == handle_key() {
            ValueView::IntegerList(Seq::new(cells.len(), |i: int| 0i64))
        } else if matches_target(key, targets) {
            ValueView::StringList(Seq::new(cells.len(), |i: int| resolve_handle(pairs, cells[i])))
        } else {
            value
        },
        _ => value,
    }
}

/// An entry after the second pass.
pub open spec fn rewrite_entry(
    pairs: Map<Seq<char>, i64>,
    entry: EntryView,
    targets: Seq<Seq<char>>,
) -> EntryView
    decreases entry, 0int,
{
    match entry {
        EntryView::Branch(child) => EntryView::Branch(rewrite_branch(pairs, child, targets)),
        EntryView::Key(_) => entry,
        EntryView::KeyValue { key, value } => EntryView::KeyValue {
            key,
            value: rewrite_value(pairs, key, value, targets),
        },
    }
}

/// A node after the second pass: the same name, and each entry
/// rewritten in place.
pub open spec fn rewrite_branch(
    pairs: Map<Seq<char>, i64>,
    branch: BranchView,
    targets: Seq<Seq<char>>,
) -> BranchView
    decreases branch, 1int,
{
    BranchView {
        ident: branch.ident,
        entries: Seq::new(
            branch.entries.len(),
            |i: int|
                if 0 <= i < branch.entries.len() {
                    rewrite_entry(pairs, branch.entries[i], targets)
                } else {
                    branch.entries[i]
                },
        ),
    }
}

/// A cell as the diagnostics show it: `0x` and its hexadecimal digits.
pub open spec fn plain_cell_text(v: i64) -> Seq<char> {
    seq!['0', 'x'] + hex_digits(cell_value(v))
}

/// The first twenty-five characters of the cells joined by `, `.
pub open spec fn preview_text(cells: Seq<i64>) -> Seq<char> {
    let full = join_text(Seq::new(cells.len(), |i: int| plain_cell_text(cells[i])), seq![',', ' ']);
    if full.len() > 25 {
        full.subrange(0, 25)
    } else {
        full
    }
}

/// The diagnostic line of a rewritten property: its name filled with
/// spaces to twenty-five characters, `: `, and the preview of its cells.
pub open spec fn diagnostic_line(key: Seq<char>, cells: Seq<i64>) -> Seq<char> {
    let fill = if key.len() < 25 {
        Seq::new((25 - key.len()) as nat, |i: int| ' ')
    } else {
        Seq::empty()
    };
    key + fill + seq![':', ' '] + preview_text(cells)
}

/// The diagnostic lines of one entry, in tree order.
pub open spec fn entry_diagnostics(entry: EntryView, targets: Seq<Seq<char>>) -> Seq<Seq<char>>
    decreases entry, 0int,
{
    match entry {
        EntryView::Branch(child) => branch_diagnostics(child, targets),
        EntryView::Key(_) => Seq::empty(),
        EntryView::KeyValue { key, value } => match value {
            ValueView::IntegerList(cells) => if is_rewritten(key, targets) {
                seq![diagnostic_line(key, cells)]
            } else {
                Seq::empty()
            },
            _ => Seq::empty(),
        },
    }
}

/// The diagnostic lines of the first `upto` entries, in tree order.
pub open spec fn entries_diagnostics(
    entries: Seq<EntryView>,
    upto: int,
    targets: Seq<Seq<char>>,
) -> Seq<Seq<char>>
    decreases entries, upto,
{
    if upto <= 0 || upto > entries.len() {
        Seq::empty()
    } else {
        entries_diagnostics(entries, upto - 1, targets) + entry_diagnostics(
            entries[upto - 1],
            targets,
        )
    }
}

/// The diagnostic lines of a node: one for each rewritten property of
/// its subtree, in tree order.
pub open spec fn branch_diagnostics(branch: BranchView, targets: Seq<Seq<char>>) -> Seq<Seq<char>>
    decreases branch, 1int,
{
    entries_diagnostics(branch.entries, branch.entries.len() as int, targets)
}

fn matches_any(key: &str, targets: &[String]) -> (found: bool)
    ensures
        found == matches_target(key@, strings_view(targets@)),
{
    let mut t: usize = 0;
    while t < targets.len()
        invariant
            t <= targets@.len(),
            forall|k: int| 0 <= k < t ==> !contains_text(key@, #[trigger] strings_view(targets@)[k]),
        decreases targets@.len() - t,
    {
        if contains_str(key, targets[t].as_str()) {
            assert(contains_text(key@, strings_view(targets@)[t as int]));
            return true;
        }
        t += 1;
    }
    false
}

fn zeros(count: usize) -> (cells: Vec<i64>)
    ensures
        cells@ == Seq::new(count as nat, |i: int| 0i64),
{
    let mut cells: Vec<i64> = Vec::new();
    let mut i: usize = 0;
    while i < count
        invariant
            i <= count,
            cells@ == Seq::new(i as nat, |i: int| 0i64),
        decreases count - i,
    {
        cells.push(0);
        i += 1;
        assert(cells@ =~= Seq::new(i as nat, |i: int| 0i64));
    }
    cells
}

fn resolved_paths(map: &BiHashMap<String, i64>, cells: &Vec<i64>) -> (paths: Vec<String>)
    ensures
        strings_view(paths@) == Seq::new(
            cells@.len(),
            |i: int| resolve_handle(index_pairs(*map), cells@[i]),
        ),
{
    let mut paths: Vec<String> = Vec::new();
    let mut i: usize = 0;
    while i < cells.len()
        invariant
            i <= cells.len(),
            paths@.len() == i,
            forall|k: int|
                0 <= k < i ==> (#[trigger] paths@[k])@ == resolve_handle(
                    index_pairs(*map),
                    cells@[k],
                ),
        decreases cells.len() - i,
    {
        let path = match path_of(map, cells[i]) {
            Some(found) => found.clone(),
            None => {
                proof {
                    reveal_strlit("##UNKNOWN##");
                }
                let fallback = String::from_str("##UNKNOWN##");
                assert(fallback@ =~= placeholder());
                fallback
            },
        };
        paths.push(path);
        i += 1;
    }
    assert(strings_view(paths@) =~= Seq::new(
        cells@.len(),
        |i: int| resolve_handle(index_pairs(*map), cells@[i]),
    ));
    paths
}

fn plain_cell_of(v: &i64) -> (out: String)
    ensures
        out@ == plain_cell_text(*v),
{
    let bits: u64 = if *v >= 0 {
        *v as u64
    } else {
        ((*v - i64::MIN) as u64) + 0x8000_0000_0000_0000u64
    };
    proof {
        reveal_strlit("0x");
    }
    let mut out = String::from_str("0x");
    let digits = hex_string(bits);
    out.append(digits.as_str());
    assert(out@ =~= plain_cell_text(*v));
    out
}

/// The diagnostic line of a rewritten property.
pub fn diagnostic(key: &str, cells: &Vec<i64>) -> (line: String)
    ensures
        line@ == diagnostic_line(key@, cells@),
{
    proof {
        reveal_strlit(", ");
        reveal_strlit(" ");
        reveal_strlit(": ");
    }
    let full = join_map(cells.as_slice(), plain_cell_of, ", ");
    proof {
        let parts = choose|parts: Seq<String>|
            {
                &&& parts.len() == cells@.len()
                &&& forall|i: int|
                    0 <= i < parts.len() ==> call_ensures(
                        plain_cell_of,
                        (&cells@[i],),
                        #[trigger] parts[i],
                    )
                &&& full@ == join_text(strings_view(parts), ", "@)
            };
        assert forall|i: int| 0 <= i < parts.len() implies (#[trigger] parts[i])@
            == plain_cell_text(cells@[i]) by {
            assert(call_ensures(plain_cell_of, (&cells@[i],), parts[i]));
        }
        assert(", "@ =~= seq![',', ' ']);
        assert(strings_view(parts) =~= Seq::new(
            cells@.len(),
            |i: int| plain_cell_text(cells@[i]),
        ));
    }
    let mut line = String::from_str(key);
    let width = key.unicode_len();
    let mut filled: usize = width;
    while filled < 25
        invariant
            width == key@.len(),
            width <= filled,
            width < 25 ==> filled <= 25,
            width >= 25 ==> filled == width,
            line@ == key@ + Seq::new((filled - width) as nat, |i: int| ' '),
            " "@ == seq![' '],
        decreases 25 - filled,
    {
        line.append(" ");
        filled += 1;
        assert(line@ =~= key@ + Seq::new((filled - width) as nat, |i: int| ' '));
    }
    let ghost fill = if key@.len() < 25 {
        Seq::new((25 - key@.len()) as nat, |i: int| ' ')
    } else {
        Seq::empty()
    };
    assert(line@ =~= key@ + fill);
    assert(": "@ =~= seq![':', ' ']);
    line.append(": ");
    if full.as_str().unicode_len() > 25 {
        line.append(full.as_str().substring_char(0, 25));
    } else {
        line.append(full.as_str());
    }
    assert(line@ =~= key@ + fill + seq![':', ' '] + preview_text(cells@));
    line
}

fn rewritten_value(
    map: &BiHashMap<String, i64>,
    key: &String,
    value: &Value,
    targets: &[String],
    log: &mut Vec<String>,
) -> (out: Value)
    ensures
        out@ == rewrite_value(index_pairs(*map), key@, value@, strings_view(targets@)),
        strings_view(final(log)@) == strings_view(old(log)@) + entry_diagnostics(
            EntryView::KeyValue { key: key@, value: value@ },
            strings_view(targets@),
        ),
{
    proof {
        reveal_strlit("phandle");
    }
    let reserved = String::from_str("phandle");
    assert(reserved@ =~= handle_key());
    match value {
        Value::IntegerList(cells) => {
            if *key == reserved {
                assert(strings_view(log@) + Seq::<Seq<char>>::empty() =~= strings_view(log@));
                Value::IntegerList(zeros(cells.len()))
            } else if matches_any(key.as_str(), targets) {
                let line = diagnostic(key.as_str(), cells);
                let ghost before = log@;
                log.push(line);
                assert(strings_view(log@) =~= strings_view(before) + seq![line@]);
                Value::StringList(resolved_paths(map, cells))
            } else {
                assert(strings_view(log@) + Seq::<Seq<char>>::empty() =~= strings_view(log@));
                value.clone()
            }
        },
        _ => {
            assert(strings_view(log@) + Seq::<Seq<char>>::empty() =~= strings_view(log@));
            value.clone()
        },
    }
}

fn rewritten_branch(
    map: &BiHashMap<String, i64>,
    branch: &Branch,
    targets: &[String],
    log: &mut Vec<String>,
) -> (out: Branch)
    ensures
        out@ == rewrite_branch(index_pairs(*map), branch@, strings_view(targets@)),
        strings_view(final(log)@) == strings_view(old(log)@) + branch_diagnostics(
            branch@,
            strings_view(targets@),
        ),
    decreases *branch,
{
    let ghost pairs = index_pairs(*map);
    let ghost wanted = strings_view(targets@);
    let ghost before = strings_view(log@);
    let mut entries: Vec<BranchEntry> = Vec::new();
    let mut i: usize = 0;
    assert(before + entries_diagnostics(branch@.entries, 0, wanted) =~= before);
    while i < branch.entries.len()
        invariant
            i <= branch.entries.len(),
            pairs == index_pairs(*map),
            wanted == strings_view(targets@),
            branch@.entries.len() == branch.entries.len(),
            entries@.len() == i,
            forall|k: int|
                0 <= k < i ==> (#[trigger] entries@[k])@ == rewrite_entry(
                    pairs,
                    branch@.entries[k],
                    wanted,
                ),
            strings_view(log@) == before + entries_diagnostics(branch@.entries, i as int, wanted),
        decreases branch.entries.len() - i,
    {
        assert(branch@.entries[i as int] == branch.entries@[i as int]@);
        let ghost so_far = strings_view(log@);
        let entry = match &branch.entries[i] {
            BranchEntry::Branch(child) => BranchEntry::Branch(
                rewritten_branch(map, child, targets, log),
            ),
            BranchEntry::KeyValue { key, value } => {
                let value = rewritten_value(map, key, value, targets, log);
                BranchEntry::KeyValue { key: key.clone(), value }
            },
            BranchEntry::Key(_) => {
                assert(so_far + Seq::<Seq<char>>::empty() =~= so_far);
                clone_entry(&branch.entries[i])
            },
        };
        proof {
            let step = entry_diagnostics(branch@.entries[i as int], wanted);
            assert(strings_view(log@) == so_far + step);
            assert(entries_diagnostics(branch@.entries, i + 1, wanted) == entries_diagnostics(
                branch@.entries,
                i as int,
                wanted,
            ) + step);
            assert(before + (entries_diagnostics(branch@.entries, i as int, wanted) + step) =~= (
            before + entries_diagnostics(branch@.entries, i as int, wanted)) + step);
        }
        entries.push(entry);
        i += 1;
        assert(strings_view(log@) =~= before + entries_diagnostics(
            branch@.entries,
            i as int,
            wanted,
        ));
    }
    let out = Branch { ident: branch.ident.clone(), entries };
    assert(out@.entries =~= rewrite_branch(pairs, branch@, wanted).entries);
    out
}

/// The second pass on one node: rewrites the subtree in place and
/// returns one diagnostic line for each property whose cells became
/// paths, in tree order.
///
/// The cells of every handle declaration become zeros. The cells of a
/// property whose name holds one of `args` become the paths that the
/// index pairs with them, or the placeholder where it pairs none. All
/// else stays as it is.
pub fn second_pass_walker(map: &BiHashMap<String, i64>, branch: &mut Branch, args: &[String]) -> (log:
    Vec<String>)
    ensures
        final(branch)@ == rewrite_branch(index_pairs(*map), old(branch)@, strings_view(args@)),
        strings_view(log@) == branch_diagnostics(old(branch)@, strings_view(args@)),
{
    let mut log: Vec<String> = Vec::new();
    let out = rewritten_branch(map, &*branch, args, &mut log);
    *branch = out;
    assert(strings_view(log@) =~= branch_diagnostics(old(branch)@, strings_view(args@)));
    log
}

/// The first pass on one top-level entry: a node is walked from the
/// top, a version record declares nothing.
pub open spec fn walk_file_entry(entry: FileEntryView) -> PassOne {
    match entry {
        FileEntryView::Header(_) => PassOne { inserted: Seq::empty(), failure: None },
        FileEntryView::Branch(branch) => walk_branch(Seq::empty(), branch),
    }
}

/// The first pass on the first `upto` top-level entries of a file.
pub open spec fn walk_file(file: Seq<FileEntryView>, upto: int) -> PassOne
    decreases upto,
{
    if upto <= 0 || upto > file.len() {
        PassOne { inserted: Seq::empty(), failure: None }
    } else {
        let before = walk_file(file, upto - 1);
        if before.failure is Some {
            before
        } else {
            let step = walk_file_entry(file[upto - 1]);
            PassOne { inserted: before.inserted + step.inserted, failure: step.failure }
        }
    }
}

/// The index that the first pass builds for a file, starting empty.
pub open spec fn file_index(file: Seq<FileEntryView>) -> Map<Seq<char>, i64> {
    insert_all(no_pairs(), walk_file(file, file.len() as int).inserted)
}

/// A top-level entry after the second pass.
pub open spec fn rewrite_file_entry(
    pairs: Map<Seq<char>, i64>,
    entry: FileEntryView,
    targets: Seq<Seq<char>>,
) -> FileEntryView {
    match entry {
        FileEntryView::Header(_) => entry,
        FileEntryView::Branch(branch) => FileEntryView::Branch(
            rewrite_branch(pairs, branch, targets),
        ),
    }
}

/// A file after the second pass: each top-level entry rewritten in place.
pub open spec fn rewrite_file(
    pairs: Map<Seq<char>, i64>,
    file: Seq<FileEntryView>,
    targets: Seq<Seq<char>>,
) -> Seq<FileEntryView> {
    Seq::new(file.len(), |i: int| rewrite_file_entry(pairs, file[i], targets))
}

/// The diagnostic lines of the first `upto` top-level entries of a file.
pub open spec fn file_diagnostics(
    file: Seq<FileEntryView>,
    upto: int,
    targets: Seq<Seq<char>>,
) -> Seq<Seq<char>>
    decreases upto,
{
    if upto <= 0 || upto > file.len() {
        Seq::empty()
    } else {
        file_diagnostics(file, upto - 1, targets) + match file[upto - 1] {
            FileEntryView::Header(_) => Seq::empty(),
            FileEntryView::Branch(branch) => branch_diagnostics(branch, targets),
        }
    }
}

/// Resolves a whole file in place: the first pass over every top-level
/// node builds a fresh index, then the second pass rewrites every node
/// with it. Returns the diagnostic lines of the second pass.
///
/// Where the first pass meets a malformed handle declaration, that
/// defect is returned and the file is left as it was.
pub fn resolve(file: &mut File, targets: &[String]) -> (result: Result<Vec<String>, ResolveError>)
    ensures
        match result {
            Ok(log) => {
                &&& walk_file(file_view(old(file)@), old(file)@.len() as int).failure is None
                &&& file_view(final(file)@) == rewrite_file(
                    file_index(file_view(old(file)@)),
                    file_view(old(file)@),
                    strings_view(targets@),
                )
                &&& strings_view(log@) == file_diagnostics(
                    file_view(old(file)@),
                    old(file)@.len() as int,
                    strings_view(targets@),
                )
            },
            Err(e) => {
                &&& walk_file(file_view(old(file)@), old(file)@.len() as int).failure == Some(e@)
                &&& file_view(final(file)@) == file_view(old(file)@)
            },
        },
{
    let ghost source = file_view(file@);
    let ghost wanted = strings_view(targets@);
    let mut map = empty_index();
    let mut i: usize = 0;
    while i < file.len()
        invariant
            i <= file.len(),
            *file == *old(file),
            source == file_view(file@),
            walk_file(source, i as int).failure is None,
            index_pairs(map) == insert_all(no_pairs(), walk_file(source, i as int).inserted),
        decreases file.len() - i,
    {
        match &file[i] {
            FileEntry::Header(_) => {
                assert(walk_file(source, i + 1).inserted =~= walk_file(source, i as int).inserted);
            },
            FileEntry::Branch(branch) => {
                let outcome = first_pass_walker(&mut map, "", branch);
                proof {
                    reveal_strlit("");
                    assert(""@ =~= Seq::<char>::empty());
                    lemma_insert_all_concat(
                        no_pairs(),
                        walk_file(source, i as int).inserted,
                        walk_file_entry(source[i as int]).inserted,
                    );
                }
                match outcome {
                    Ok(_) => {},
                    Err(e) => {
                        proof {
                            lemma_walk_file_stays_failed(source, i + 1, file.len() as int);
                        }
                        return Err(e);
                    },
                }
            },
        }
        i += 1;
    }
    let mut log: Vec<String> = Vec::new();
    let mut rewritten: Vec<FileEntry> = Vec::new();
    let mut j: usize = 0;
    while j < file.len()
        invariant
            j <= file.len(),
            *file == *old(file),
            source == file_view(file@),
            wanted == strings_view(targets@),
            index_pairs(map) == file_index(source),
            rewritten@.len() == j,
            forall|k: int|
                0 <= k < j ==> (#[trigger] rewritten@[k])@ == rewrite_file_entry(
                    file_index(source),
                    source[k],
                    wanted,
                ),
            strings_view(log@) == file_diagnostics(source, j as int, wanted),
        decreases file.len() - j,
    {
        let ghost so_far = strings_view(log@);
        let entry = match &file[j] {
            FileEntry::Header(header) => {
                assert(so_far + Seq::<Seq<char>>::empty() =~= so_far);
                FileEntry::Header(header.clone())
            },
            FileEntry::Branch(branch) => FileEntry::Branch(
                rewritten_branch(&map, branch, targets, &mut log),
            ),
        };
        rewritten.push(entry);
        j += 1;
    }
    *file = rewritten;
    assert(file_view(file@) =~= rewrite_file(file_index(source), source, wanted));
    Ok(log)
}

/// Once the first pass has failed on a prefix of a file, it has failed
/// in the same way on every longer one.
pub proof fn lemma_walk_file_stays_failed(file: Seq<FileEntryView>, failed: int, upto: int)
    requires
        walk_file(file, failed).failure is Some,
        failed <= upto <= file.len(),
    ensures
        walk_file(file, upto) == walk_file(file, failed),
    decreases upto - failed,
{
    if failed < upto {
        lemma_walk_file_stays_failed(file, failed, upto - 1);
    }
}

} // verus!
